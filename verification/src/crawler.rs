//! The decisions of the two-phase crawl pipeline: turning a scope
//! pattern into a seed URL, keeping only same-host outlinks during
//! discovery, de-duplicating the discovered set, gating an export, and
//! ending the discovery phase. The task pool, sockets and store around
//! these decisions live outside the library.

use vstd::prelude::*;

use crate::deduplication::spec_is_duplicate;
use crate::models::Page;
use crate::strutil::chars_of;
use crate::strutil::str_eq;
use crate::strutil::string_from_chars;
use crate::strutil::take_chars;
use crate::strutil::vec_contains_str;
use crate::urls::UrlParts;
use crate::urls::parse_url_parts;
use crate::urls::url_parts_of;

verus! {

/// The base URL of a pattern: the pattern with a trailing `/*` or `*`
/// stripped.
pub open spec fn spec_strip_wildcard(p: Seq<char>) -> Seq<char> {
    if p.len() >= 2 && p[p.len() - 2] == '/' && p[p.len() - 1] == '*' {
        p.take(p.len() - 2)
    } else if p.len() >= 1 && p[p.len() - 1] == '*' {
        p.take(p.len() - 1)
    } else {
        p
    }
}

/// Strips a trailing wildcard from a scope pattern.
pub fn strip_wildcard(pattern: &str) -> (r: String)
    ensures
        r@ == spec_strip_wildcard(pattern@),
{
    let v = chars_of(pattern);
    if v.len() >= 2 && v[v.len() - 2] == '/' && v[v.len() - 1] == '*' {
        let t = take_chars(&v, v.len() - 2);
        string_from_chars(&t)
    } else if v.len() >= 1 && v[v.len() - 1] == '*' {
        let t = take_chars(&v, v.len() - 1);
        string_from_chars(&t)
    } else {
        string_from_chars(&v)
    }
}

/// The outlinks that parse and live on the given host, in order.
pub open spec fn same_host_links(outlinks: Seq<String>, host: Seq<char>) -> Seq<Seq<char>>
    decreases outlinks.len(),
{
    if outlinks.len() == 0 {
        Seq::<Seq<char>>::empty()
    } else {
        let r = same_host_links(outlinks.drop_last(), host);
        match url_parts_of(outlinks.last()@) {
            Some(v) => if v.host == host {
                r.push(outlinks.last()@)
            } else {
                r
            },
            None => r,
        }
    }
}

/// During discovery only outlinks on the current host are enqueued;
/// returns the parsed URLs of the outlinks that live on `host`.
pub fn same_host_outlinks(outlinks: &Vec<String>, host: &str) -> (r: Vec<UrlParts>)
    ensures
        r@.map_values(|u: UrlParts| u.serialized@).len() == same_host_links(
            outlinks@,
            host@,
        ).len(),
        forall|i: int|
            0 <= i < r@.len() ==> (#[trigger] r@[i]).host@ == host@ && url_parts_of(
                same_host_links(outlinks@, host@)[i],
            ) == Some(r@[i]@),
    {
    let mut out: Vec<UrlParts> = Vec::new();
    let mut i: usize = 0;
    proof {
        assert(outlinks@.take(0) =~= Seq::<String>::empty());
    }
    while i < outlinks.len()
        invariant
            i <= outlinks@.len(),
            out@.len() == same_host_links(outlinks@.take(i as int), host@).len(),
            forall|k: int|
                0 <= k < out@.len() ==> (#[trigger] out@[k]).host@ == host@ && url_parts_of(
                    same_host_links(outlinks@.take(i as int), host@)[k],
                ) == Some(out@[k]@),
        decreases outlinks@.len() - i,
    {
        proof {
            assert(outlinks@.take(i + 1).drop_last() =~= outlinks@.take(i as int));
            assert(outlinks@.take(i + 1).last() == outlinks@[i as int]);
        }
        match parse_url_parts(outlinks[i].as_str()) {
            Some(p) => {
                if str_eq(p.host.as_str(), host) {
                    out.push(p);
                }
            },
            None => {},
        }
        i = i + 1;
    }
    proof {
        assert(outlinks@.take(outlinks@.len() as int) =~= outlinks@);
    }
    out
}

/// The discovered URLs with repeats dropped, keeping the first
/// occurrence of each.
pub open spec fn dedup_first(s: Seq<String>) -> Seq<Seq<char>>
    decreases s.len(),
{
    if s.len() == 0 {
        Seq::<Seq<char>>::empty()
    } else {
        let r = dedup_first(s.drop_last());
        if r.contains(s.last()@) {
            r
        } else {
            r.push(s.last()@)
        }
    }
}

/// De-duplicates the discovered URL list for the export phase.
pub fn dedup_urls(v: &Vec<String>) -> (r: Vec<String>)
    ensures
        r@.map_values(|s: String| s@) == dedup_first(v@),
{
    let mut out: Vec<String> = Vec::new();
    let mut i: usize = 0;
    proof {
        assert(v@.take(0) =~= Seq::<String>::empty());
        assert(out@.map_values(|s: String| s@) =~~= dedup_first(v@.take(0)));
    }
    while i < v.len()
        invariant
            i <= v@.len(),
            out@.map_values(|s: String| s@) == dedup_first(v@.take(i as int)),
        decreases v@.len() - i,
    {
        proof {
            assert(v@.take(i + 1).drop_last() =~= v@.take(i as int));
            assert(v@.take(i + 1).last() == v@[i as int]);
        }
        if !vec_contains_str(&out, v[i].as_str()) {
            out.push(String::from_str(v[i].as_str()));
            proof {
                assert(out@.map_values(|s: String| s@) =~~= dedup_first(
                    v@.take(i as int),
                ).push(out@.last()@));
            }
        }
        i = i + 1;
    }
    proof {
        assert(v@.take(v@.len() as int) =~= v@);
    }
    out
}

/// Whether a fetched page is written to the export: the fetch must have
/// succeeded, the keyword gate must pass, and the page must not
/// duplicate stored content.
pub open spec fn spec_should_export(status_ok: bool, nlp_match: bool, is_dup: bool) -> bool {
    status_ok && nlp_match && !is_dup
}

pub fn should_export(status_ok: bool, nlp_match: bool, is_dup: bool) -> (r: bool)
    ensures
        r == spec_should_export(status_ok, nlp_match, is_dup),
{
    status_ok && nlp_match && !is_dup
}

/// Re-running the crawl over the same store yields no new export
/// records: a page whose text hash is already stored is a duplicate,
/// and duplicates never pass the export gate.
pub proof fn lemma_rerun_yields_no_export(
    page: Page,
    same_text_hash: Seq<Page>,
    near_duplicates: Seq<Page>,
    status_ok: bool,
    nlp_match: bool,
)
    requires
        page.text_hash is Some,
        same_text_hash.len() > 0,
    ensures
        !spec_should_export(
            status_ok,
            nlp_match,
            spec_is_duplicate(page, same_text_hash, near_duplicates),
        ),
{
}

/// The discovery phase ends after three consecutive empty polls of the
/// frontier.
pub fn should_stop_discovery(empty_checks: u32) -> (r: bool)
    ensures
        r == (empty_checks >= 3),
{
    empty_checks >= 3
}

} // verus!
