//! The decisions and user-visible lines of the command surface. The
//! binary around the library does the terminal and database work; the
//! exact wording and the validation rules are fixed here.

use vstd::prelude::*;

use crate::models::Page;
use crate::models::Scope;
use crate::strutil::chars_of;
use crate::strutil::chars_eq;
use crate::strutil::digits_in_base;
use crate::strutil::i64_to_dec;
use crate::strutil::string_from_chars;
use crate::strutil::to_upper;
use crate::strutil::upper_seq;

verus! {

/// The decimal form of an identifier.
pub open spec fn dec_of(n: i64) -> Seq<char> {
    if n >= 0 {
        digits_in_base(n as int, 10)
    } else {
        seq!['-'] + digits_in_base(-(n as int), 10)
    }
}

/// A crawl needs at least one active scope; with none, this is the
/// line printed before exiting cleanly.
pub fn crawl_precheck(scopes: &Vec<Scope>) -> (r: Option<String>)
    ensures
        scopes@.len() == 0 ==> (r matches Some(m) && m@
            == "No active scopes found. Please add a scope first."@),
        scopes@.len() > 0 ==> r is None,
{
    if scopes.len() == 0 {
        Some(String::from_str("No active scopes found. Please add a scope first."))
    } else {
        None
    }
}

/// The method a newly added scope receives from the configuration.
pub fn scope_method_for_config(nlp_enabled: bool) -> (r: &'static str)
    ensures
        nlp_enabled ==> r@ == "NLP"@,
        !nlp_enabled ==> r@ == "DEFAULT"@,
{
    if nlp_enabled {
        "NLP"
    } else {
        "DEFAULT"
    }
}

/// Validates a method value: upper-cased, it must name one of the four
/// methods; returns the normalized name.
pub fn validate_method_value(value: &str) -> (r: Option<String>)
    ensures
        ({
            let u = upper_seq(value@);
            if u == "DEFAULT"@ || u == "NLP"@ || u == "HEADERS"@ || u == "CHANGED"@ {
                r matches Some(m) && m@ == u
            } else {
                r is None
            }
        }),
{
    let v = chars_of(value);
    let up = to_upper(&v);
    let d = chars_of("DEFAULT");
    let n = chars_of("NLP");
    let h = chars_of("HEADERS");
    let c = chars_of("CHANGED");
    if chars_eq(&up, &d) || chars_eq(&up, &n) || chars_eq(&up, &h) || chars_eq(&up, &c) {
        Some(string_from_chars(&up))
    } else {
        None
    }
}

/// The line rejecting an invalid method value.
pub fn invalid_method_message(value: &str) -> (r: String)
    ensures
        r@ == "Invalid method '"@ + value@
            + "'. Valid methods: DEFAULT, NLP, HEADERS, CHANGED"@,
{
    let mut m = String::from_str("Invalid method '");
    m.append(value);
    m.append("'. Valid methods: DEFAULT, NLP, HEADERS, CHANGED");
    m
}

/// The line rejecting an unknown property.
pub fn unknown_property_message(property: &str) -> (r: String)
    ensures
        r@ == "Unknown property '"@ + property@ + "'. Supported properties: method"@,
{
    let mut m = String::from_str("Unknown property '");
    m.append(property);
    m.append("'. Supported properties: method");
    m
}

/// The line reporting that no scope carries the identifier.
pub fn no_scope_message(id: i64) -> (r: String)
    ensures
        r@ == "No scope found with ID: "@ + dec_of(id),
{
    let mut m = String::from_str("No scope found with ID: ");
    m.append(i64_to_dec(id).as_str());
    m
}

/// The line confirming a removed scope.
pub fn removed_scope_message(id: i64, pattern: &str) -> (r: String)
    ensures
        r@ == "Removed scope (ID: "@ + dec_of(id) + "): "@ + pattern@,
{
    let mut m = String::from_str("Removed scope (ID: ");
    m.append(i64_to_dec(id).as_str());
    m.append("): ");
    m.append(pattern);
    m
}

/// The line confirming an added scope.
pub fn added_scope_message(pattern: &str, method: &str) -> (r: String)
    ensures
        r@ == "Added scope: "@ + pattern@ + " (Method: "@ + method@ + ")"@,
{
    let mut m = String::from_str("Added scope: ");
    m.append(pattern);
    m.append(" (Method: ");
    m.append(method);
    m.append(")");
    m
}

/// The line confirming an updated method.
pub fn updated_method_message(id: i64, method: &str, pattern: &str) -> (r: String)
    ensures
        r@ == "Updated scope "@ + dec_of(id) + " method to '"@ + method@ + "': "@
            + pattern@,
{
    let mut m = String::from_str("Updated scope ");
    m.append(i64_to_dec(id).as_str());
    m.append(" method to '");
    m.append(method);
    m.append("': ");
    m.append(pattern);
    m
}

/// The table row for one page in the listing: identifier, URL, title,
/// crawl time, status and content hash, blanks where absent.
pub fn page_row(page: &Page) -> (r: Vec<String>)
    ensures
        r@.len() == 6,
        r@[0]@ == dec_of(page.id),
        r@[1]@ == page.url@,
        r@[2]@ == (match page.title {
            Some(ref t) => t@,
            None => ""@,
        }),
        r@[3]@ == page.created_at@,
        r@[4]@ == (match page.status_code {
            Some(s) => dec_of(s as i64),
            None => dec_of(0),
        }),
        r@[5]@ == (match page.text_hash {
            Some(ref h) => h@,
            None => ""@,
        }),
{
    let mut r: Vec<String> = Vec::new();
    r.push(i64_to_dec(page.id));
    r.push(String::from_str(page.url.as_str()));
    r.push(
        match &page.title {
            Some(t) => String::from_str(t.as_str()),
            None => String::from_str(""),
        },
    );
    r.push(String::from_str(page.created_at.as_str()));
    r.push(
        match page.status_code {
            Some(s) => i64_to_dec(s as i64),
            None => i64_to_dec(0),
        },
    );
    r.push(
        match &page.text_hash {
            Some(h) => String::from_str(h.as_str()),
            None => String::from_str(""),
        },
    );
    r
}

/// The table row for one scope in the listing.
pub fn scope_row(scope: &Scope) -> (r: Vec<String>)
    ensures
        r@.len() == 4,
        r@[0]@ == dec_of(scope.id),
        r@[1]@ == scope.pattern@,
        r@[2]@ == (match scope.method {
            crate::models::CrawlMethod::DEFAULT => "DEFAULT"@,
            crate::models::CrawlMethod::NLP => "NLP"@,
            crate::models::CrawlMethod::HEADERS => "HEADERS"@,
            crate::models::CrawlMethod::CHANGED => "CHANGED"@,
        }),
        r@[3]@ == (if scope.is_active {
            "Yes"@
        } else {
            "No"@
        }),
{
    let mut r: Vec<String> = Vec::new();
    r.push(i64_to_dec(scope.id));
    r.push(String::from_str(scope.pattern.as_str()));
    r.push(String::from_str(scope.method.as_str()));
    r.push(
        if scope.is_active {
            String::from_str("Yes")
        } else {
            String::from_str("No")
        },
    );
    r
}

} // verus!
