//! HTML metadata extraction. The runtime around the library tokenizes
//! the document; this module runs a verified state machine over the
//! token stream, extracting the title, the canonical link, de-duplicated
//! absolute outlinks, meta property pairs and JSON-LD blocks, exactly as
//! the specification function `parse_run` describes.

use vstd::prelude::*;

use crate::strutil::str_eq;
use crate::urls::joined_url;
use crate::urls::join_url;

verus! {

/// An outlink together with its keyword score: 1 on match, 0 on no
/// match, none when scoring is disabled.
#[derive(Debug, Clone)]
pub struct OutlinkWithScore {
    pub url: String,
    pub nlp_score: Option<u8>,
}

/// The in-memory result of parsing one page.
#[derive(Debug, Clone)]
pub struct PageData {
    pub title: Option<String>,
    pub canonical_url: Option<String>,
    pub outlinks: Vec<String>,
    pub outlinks_with_scores: Vec<OutlinkWithScore>,
    pub meta: Vec<(String, String)>,
    pub json_ld: Vec<String>,
    pub main_content: String,
}

/// One token of the HTML token stream.
#[derive(Debug, Clone)]
pub enum HtmlToken {
    StartTag { name: String, attrs: Vec<(String, String)> },
    EndTag { name: String },
    Text { text: String },
    Other,
}

/// What serde_json makes of a candidate JSON-LD block: nothing when the
/// text does not parse, else the re-serialized value; a pure function
/// of the text.
pub uninterp spec fn json_normalized(s: Seq<char>) -> Option<Seq<char>>;

/// Relies on serde_json::from_str and serde_json::to_string: parses the
/// text as JSON and re-serializes it, or reports that it is malformed.
#[verifier::external_body]
fn normalize_json(s: &str) -> (r: Option<String>)
    ensures
        match r {
            Some(n) => json_normalized(s@) == Some(n@),
            None => json_normalized(s@) == None::<Seq<char>>,
        },
{
    match serde_json::from_str::<serde_json::Value>(s) {
        Ok(v) => serde_json::to_string(&v).ok(),
        Err(_) => None,
    }
}

/// What the readability extraction returns for a document and its URL:
/// the readable main text, a pure function of both; an unparsable URL
/// yields the empty text.
pub uninterp spec fn readable_text_of(html: Seq<char>, url: Seq<char>) -> Seq<char>;

/// Relies on url::Url::parse and readability::extractor::extract: the
/// readable main text of the page, deterministic for identical input;
/// empty on failure.
#[verifier::external_body]
pub fn readable_text(html: &str, url: &str) -> (r: String)
    ensures
        r@ == readable_text_of(html@, url@),
{
    match url::Url::parse(url) {
        Ok(u) => match readability::extractor::extract(&mut html.as_bytes(), &u) {
            Ok(p) => p.text,
            Err(_) => String::new(),
        },
        Err(_) => String::new(),
    }
}

/// The extraction state after a prefix of the token stream.
pub ghost struct ParseView {
    pub title: Option<Seq<char>>,
    pub title_done: bool,
    pub in_title: bool,
    pub canonical: Option<Seq<char>>,
    pub outlinks: Seq<Seq<char>>,
    pub meta: Seq<(Seq<char>, Seq<char>)>,
    pub json_ld: Seq<Seq<char>>,
    pub in_json_ld: bool,
    pub json_buf: Seq<char>,
}

/// The state before any token.
pub open spec fn parse_init() -> ParseView {
    ParseView {
        title: None,
        title_done: false,
        in_title: false,
        canonical: None,
        outlinks: Seq::<Seq<char>>::empty(),
        meta: Seq::<(Seq<char>, Seq<char>)>::empty(),
        json_ld: Seq::<Seq<char>>::empty(),
        in_json_ld: false,
        json_buf: Seq::<char>::empty(),
    }
}

/// The value of the last attribute named `name`, as the parser reads
/// attribute lists.
pub open spec fn last_attr(attrs: Seq<(String, String)>, name: Seq<char>) -> Option<Seq<char>>
    decreases attrs.len(),
{
    if attrs.len() == 0 {
        None
    } else if attrs.last().0@ == name {
        Some(attrs.last().1@)
    } else {
        last_attr(attrs.drop_last(), name)
    }
}

/// Whether the attributes mark a JSON-LD script block.
pub open spec fn has_json_ld_type(attrs: Seq<(String, String)>) -> bool {
    exists|k: int|
        0 <= k < attrs.len() && (#[trigger] attrs[k]).0@ == "type"@ && attrs[k].1@
            == "application/ld+json"@
}

/// Adds the resolved target of one attribute, when it is an `href`
/// whose resolution against the base succeeds and is not yet known.
pub open spec fn add_one_href(
    links: Seq<Seq<char>>,
    attr: (String, String),
    base: Seq<char>,
) -> Seq<Seq<char>> {
    if attr.0@ == "href"@ {
        match joined_url(base, attr.1@) {
            Some(u) => if links.contains(u) {
                links
            } else {
                links.push(u)
            },
            None => links,
        }
    } else {
        links
    }
}

/// The outlinks after resolving the first `i` attributes of an anchor.
pub open spec fn add_hrefs_upto(
    links: Seq<Seq<char>>,
    attrs: Seq<(String, String)>,
    i: int,
    base: Seq<char>,
) -> Seq<Seq<char>>
    decreases i,
{
    if i <= 0 {
        links
    } else {
        add_one_href(add_hrefs_upto(links, attrs, i - 1, base), attrs[i - 1], base)
    }
}

/// One step of the extraction state machine.
pub open spec fn parse_step(st: ParseView, t: HtmlToken, base: Seq<char>) -> ParseView {
    match t {
        HtmlToken::StartTag { name, attrs } => {
            if name@ == "title"@ {
                if !st.title_done {
                    ParseView { in_title: true, ..st }
                } else {
                    st
                }
            } else if name@ == "script"@ {
                if has_json_ld_type(attrs@) {
                    ParseView { in_json_ld: true, json_buf: Seq::<char>::empty(), ..st }
                } else {
                    st
                }
            } else if name@ == "meta"@ {
                match (last_attr(attrs@, "property"@), last_attr(attrs@, "content"@)) {
                    (Some(p), Some(c)) => ParseView { meta: st.meta.push((p, c)), ..st },
                    _ => st,
                }
            } else if name@ == "link"@ {
                match (last_attr(attrs@, "rel"@), last_attr(attrs@, "href"@)) {
                    (Some(rel), Some(href)) => if rel == "canonical"@ && st.canonical
                        is None {
                        ParseView { canonical: joined_url(base, href), ..st }
                    } else {
                        st
                    },
                    _ => st,
                }
            } else if name@ == "a"@ {
                ParseView {
                    outlinks: add_hrefs_upto(st.outlinks, attrs@, attrs@.len() as int, base),
                    ..st
                }
            } else {
                st
            }
        },
        HtmlToken::EndTag { name } => {
            if name@ == "title"@ {
                ParseView { in_title: false, title_done: st.title_done || st.in_title, ..st }
            } else if name@ == "script"@ && st.in_json_ld {
                match json_normalized(st.json_buf) {
                    Some(n) => ParseView {
                        in_json_ld: false,
                        json_buf: Seq::<char>::empty(),
                        json_ld: st.json_ld.push(n),
                        ..st
                    },
                    None => ParseView {
                        in_json_ld: false,
                        json_buf: Seq::<char>::empty(),
                        ..st
                    },
                }
            } else {
                st
            }
        },
        HtmlToken::Text { text } => {
            if st.in_title && !st.title_done {
                ParseView {
                    title: Some(
                        (match st.title {
                            Some(t0) => t0,
                            None => Seq::<char>::empty(),
                        }) + text@,
                    ),
                    ..st
                }
            } else if st.in_json_ld {
                ParseView { json_buf: st.json_buf + text@, ..st }
            } else {
                st
            }
        },
        HtmlToken::Other => st,
    }
}

/// The state after the first `i` tokens.
pub open spec fn parse_run(tokens: Seq<HtmlToken>, i: int, base: Seq<char>) -> ParseView
    decreases i,
{
    if i <= 0 {
        parse_init()
    } else {
        parse_step(parse_run(tokens, i - 1, base), tokens[i - 1], base)
    }
}

/// The view of an optional string.
pub open spec fn opt_view(o: Option<String>) -> Option<Seq<char>> {
    match o {
        Some(s) => Some(s@),
        None => None,
    }
}

/// The views of a vector of strings.
pub open spec fn str_views(v: Seq<String>) -> Seq<Seq<char>> {
    v.map_values(|s: String| s@)
}

/// The views of a vector of string pairs.
pub open spec fn pair_views(v: Seq<(String, String)>) -> Seq<(Seq<char>, Seq<char>)> {
    v.map_values(|p: (String, String)| (p.0@, p.1@))
}

fn last_attr_exec(attrs: &Vec<(String, String)>, name: &str) -> (r: Option<String>)
    ensures
        opt_view(r) == last_attr(attrs@, name@),
{
    let mut r: Option<String> = None;
    let mut i: usize = 0;
    proof {
        assert(attrs@.take(0) =~= Seq::<(String, String)>::empty());
    }
    while i < attrs.len()
        invariant
            i <= attrs@.len(),
            opt_view(r) == last_attr(attrs@.take(i as int), name@),
        decreases attrs@.len() - i,
    {
        proof {
            assert(attrs@.take(i + 1).drop_last() =~= attrs@.take(i as int));
            assert(attrs@.take(i + 1).last() == attrs@[i as int]);
        }
        if str_eq(attrs[i].0.as_str(), name) {
            r = Some(String::from_str(attrs[i].1.as_str()));
        }
        i = i + 1;
    }
    proof {
        assert(attrs@.take(attrs@.len() as int) =~= attrs@);
    }
    r
}

fn has_json_ld_type_exec(attrs: &Vec<(String, String)>) -> (r: bool)
    ensures
        r == has_json_ld_type(attrs@),
{
    let mut i: usize = 0;
    while i < attrs.len()
        invariant
            i <= attrs@.len(),
            forall|k: int|
                0 <= k < i ==> !((#[trigger] attrs@[k]).0@ == "type"@ && attrs@[k].1@
                    == "application/ld+json"@),
        decreases attrs@.len() - i,
    {
        if str_eq(attrs[i].0.as_str(), "type") && str_eq(
            attrs[i].1.as_str(),
            "application/ld+json",
        ) {
            return true;
        }
        i = i + 1;
    }
    false
}

/// Runs the extraction state machine over the token stream and attaches
/// the readable main text; the result is exactly what `parse_run` over
/// the whole stream describes, with the outlink score list initialized
/// unscored.
pub fn extract_page_data(tokens: &Vec<HtmlToken>, base: &str, html: &str) -> (r: PageData)
    ensures
        ({
            let fin = parse_run(tokens@, tokens@.len() as int, base@);
            &&& opt_view(r.title) == fin.title
            &&& opt_view(r.canonical_url) == fin.canonical
            &&& str_views(r.outlinks@) == fin.outlinks
            &&& pair_views(r.meta@) == fin.meta
            &&& str_views(r.json_ld@) == fin.json_ld
            &&& r.main_content@ == readable_text_of(html@, base@)
            &&& r.outlinks_with_scores@.len() == fin.outlinks.len()
            &&& forall|k: int|
                0 <= k < fin.outlinks.len() ==> (#[trigger] r.outlinks_with_scores@[k]).url@
                    == fin.outlinks[k] && r.outlinks_with_scores@[k].nlp_score
                    is None
        }),
{
    let mut title: Option<String> = None;
    let mut title_done: bool = false;
    let mut in_title: bool = false;
    let mut canonical: Option<String> = None;
    let mut outlinks: Vec<String> = Vec::new();
    let mut meta: Vec<(String, String)> = Vec::new();
    let mut json_ld: Vec<String> = Vec::new();
    let mut in_json_ld: bool = false;
    let mut json_buf: String = String::new();

    let mut i: usize = 0;
    while i < tokens.len()
        invariant
            i <= tokens@.len(),
            ({
                let st = parse_run(tokens@, i as int, base@);
                &&& opt_view(title) == st.title
                &&& title_done == st.title_done
                &&& in_title == st.in_title
                &&& opt_view(canonical) == st.canonical
                &&& str_views(outlinks@) == st.outlinks
                &&& pair_views(meta@) == st.meta
                &&& str_views(json_ld@) == st.json_ld
                &&& in_json_ld == st.in_json_ld
                &&& json_buf@ == st.json_buf
            }),
        decreases tokens@.len() - i,
    {
        let ghost st = parse_run(tokens@, i as int, base@);
        let ghost stn = parse_run(tokens@, i + 1, base@);
        proof {
            assert(stn == parse_step(st, tokens@[i as int], base@));
        }
        match &tokens[i] {
            HtmlToken::StartTag { name, attrs } => {
                if str_eq(name.as_str(), "title") {
                    if !title_done {
                        in_title = true;
                    }
                } else if str_eq(name.as_str(), "script") {
                    if has_json_ld_type_exec(attrs) {
                        in_json_ld = true;
                        json_buf = String::new();
                    }
                } else if str_eq(name.as_str(), "meta") {
                    let p = last_attr_exec(attrs, "property");
                    let c = last_attr_exec(attrs, "content");
                    match (p, c) {
                        (Some(pv), Some(cv)) => {
                            meta.push((pv, cv));
                            proof {
                                assert(pair_views(meta@) =~= st.meta.push(
                                    (meta@.last().0@, meta@.last().1@),
                                ));
                            }
                        },
                        _ => {},
                    }
                } else if str_eq(name.as_str(), "link") {
                    let rel = last_attr_exec(attrs, "rel");
                    let href = last_attr_exec(attrs, "href");
                    match (rel, href) {
                        (Some(relv), Some(hrefv)) => {
                            if str_eq(relv.as_str(), "canonical") && canonical.is_none() {
                                canonical = join_url(base, hrefv.as_str());
                            }
                        },
                        _ => {},
                    }
                } else if str_eq(name.as_str(), "a") {
                    let mut j: usize = 0;
                    while j < attrs.len()
                        invariant
                            j <= attrs@.len(),
                            str_views(outlinks@) == add_hrefs_upto(
                                st.outlinks,
                                attrs@,
                                j as int,
                                base@,
                            ),
                        decreases attrs@.len() - j,
                    {
                        let ghost links0 = str_views(outlinks@);
                        if str_eq(attrs[j].0.as_str(), "href") {
                            match join_url(base, attrs[j].1.as_str()) {
                                Some(abs) => {
                                    if !crate::strutil::vec_contains_str(&outlinks, abs.as_str()) {
                                        outlinks.push(abs);
                                        proof {
                                            assert(str_views(outlinks@) =~= links0.push(
                                                outlinks@.last()@,
                                            ));
                                        }
                                    }
                                },
                                None => {},
                            }
                        }
                        j = j + 1;
                    }
                }
            },
            HtmlToken::EndTag { name } => {
                if str_eq(name.as_str(), "title") {
                    title_done = title_done || in_title;
                    in_title = false;
                } else if str_eq(name.as_str(), "script") && in_json_ld {
                    match normalize_json(json_buf.as_str()) {
                        Some(n) => {
                            json_ld.push(n);
                            proof {
                                assert(str_views(json_ld@) =~= st.json_ld.push(
                                    json_ld@.last()@,
                                ));
                            }
                        },
                        None => {},
                    }
                    in_json_ld = false;
                    json_buf = String::new();
                }
            },
            HtmlToken::Text { text } => {
                if in_title && !title_done {
                    let mut t = match title {
                        Some(t0) => t0,
                        None => String::new(),
                    };
                    t.append(text.as_str());
                    title = Some(t);
                } else if in_json_ld {
                    json_buf.append(text.as_str());
                }
            },
            HtmlToken::Other => {},
        }
        i = i + 1;
    }

    let main_content = readable_text(html, base);
    let mut outlinks_with_scores: Vec<OutlinkWithScore> = Vec::new();
    let mut k: usize = 0;
    while k < outlinks.len()
        invariant
            k <= outlinks@.len(),
            outlinks_with_scores@.len() == k,
            forall|a: int|
                0 <= a < k ==> (#[trigger] outlinks_with_scores@[a]).url@ == outlinks@[a]@
                    && outlinks_with_scores@[a].nlp_score is None,
        decreases outlinks@.len() - k,
    {
        outlinks_with_scores.push(
            OutlinkWithScore { url: String::from_str(outlinks[k].as_str()), nlp_score: None },
        );
        k = k + 1;
    }
    proof {
        let fin = parse_run(tokens@, tokens@.len() as int, base@);
        assert forall|a: int| 0 <= a < fin.outlinks.len() implies (
        #[trigger] outlinks_with_scores@[a]).url@ == fin.outlinks[a]
            && outlinks_with_scores@[a].nlp_score is None by {
            assert(str_views(outlinks@)[a] == outlinks@[a]@);
        }
    }
    PageData {
        title,
        canonical_url: canonical,
        outlinks,
        outlinks_with_scores,
        meta,
        json_ld,
        main_content,
    }
}

} // verus!
