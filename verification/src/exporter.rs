//! The export record: one accepted page together with its scored
//! outlinks, and the rule that restricts the exported outlinks to the
//! keyword matches when scoring is in force. The record sink that
//! serializes and appends records lives outside the library.

use vstd::prelude::*;

use crate::models::Page;
use crate::parser::OutlinkWithScore;
use crate::parser::pair_views;
use crate::parser::str_views;
use crate::strutil::chars_of;
use crate::strutil::digit_char;
use crate::strutil::digit_char_exec;
use crate::strutil::join_chars;
use crate::strutil::join_with;
use crate::strutil::string_from_chars;
use crate::strutil::str_eq;
use crate::strutil::vec_contains_str;
use crate::strutil::views_of;

verus! {

/// One export record: the page row plus the scored outlinks.
#[derive(Debug, Clone)]
pub struct ExportPage {
    pub id: i64,
    pub url: String,
    pub canonical_url: Option<String>,
    pub title: Option<String>,
    pub text_hash: Option<String>,
    pub sim_hash: Option<String>,
    pub fetched_at: String,
    pub status_code: Option<i32>,
    pub content_length: Option<i64>,
    pub meta_json: Option<String>,
    pub etag: Option<String>,
    pub last_modified: Option<String>,
    pub created_at: String,
    pub outlinks_with_scores: Vec<OutlinkWithScore>,
}

impl ExportPage {
    /// Builds the record for a page; the scored outlinks start empty
    /// and are attached separately.
    pub fn from_page(page: Page) -> (r: ExportPage)
        ensures
            r.id == page.id,
            r.url == page.url,
            r.canonical_url == page.canonical_url,
            r.title == page.title,
            r.text_hash == page.text_hash,
            r.sim_hash == page.sim_hash,
            r.fetched_at == page.fetched_at,
            r.status_code == page.status_code,
            r.content_length == page.content_length,
            r.meta_json == page.meta_json,
            r.etag == page.etag,
            r.last_modified == page.last_modified,
            r.created_at == page.created_at,
            r.outlinks_with_scores@.len() == 0,
    {
        ExportPage {
            id: page.id,
            url: page.url,
            canonical_url: page.canonical_url,
            title: page.title,
            text_hash: page.text_hash,
            sim_hash: page.sim_hash,
            fetched_at: page.fetched_at,
            status_code: page.status_code,
            content_length: page.content_length,
            meta_json: page.meta_json,
            etag: page.etag,
            last_modified: page.last_modified,
            created_at: page.created_at,
            outlinks_with_scores: Vec::new(),
        }
    }
}

/// The URLs of the outlinks that scored a keyword match, in order.
pub open spec fn matched_outlink_urls(s: Seq<OutlinkWithScore>) -> Seq<Seq<char>>
    decreases s.len(),
{
    if s.len() == 0 {
        Seq::<Seq<char>>::empty()
    } else {
        let r = matched_outlink_urls(s.drop_last());
        if s.last().nlp_score == Some(1u8) {
            r.push(s.last().url@)
        } else {
            r
        }
    }
}

/// Restricts the exported outlinks to those whose score is 1; outlinks
/// without that score stay only in the scored list.
pub fn filter_matched_outlinks(scored: &Vec<OutlinkWithScore>) -> (r: Vec<String>)
    ensures
        r@.map_values(|s: String| s@) == matched_outlink_urls(scored@),
{
    let mut out: Vec<String> = Vec::new();
    let mut i: usize = 0;
    proof {
        assert(scored@.take(0) =~= Seq::<OutlinkWithScore>::empty());
        assert(out@.map_values(|s: String| s@) =~~= matched_outlink_urls(scored@.take(0)));
    }
    while i < scored.len()
        invariant
            i <= scored@.len(),
            out@.map_values(|s: String| s@) == matched_outlink_urls(scored@.take(i as int)),
        decreases scored@.len() - i,
    {
        proof {
            assert(scored@.take(i + 1).drop_last() =~= scored@.take(i as int));
            assert(scored@.take(i + 1).last() == scored@[i as int]);
        }
        let keep = match scored[i].nlp_score {
            Some(v) => v == 1,
            None => false,
        };
        if keep {
            out.push(String::from_str(scored[i].url.as_str()));
            proof {
                assert(out@.map_values(|s: String| s@) =~~= matched_outlink_urls(
                    scored@.take(i as int),
                ).push(out@.last()@));
            }
        }
        i = i + 1;
    }
    proof {
        assert(scored@.take(scored@.len() as int) =~= scored@);
    }
    out
}


/// How one character appears inside a JSON string: quotes and
/// backslashes escaped, control characters as `\u00XX`.
pub open spec fn json_escape_char(c: char) -> Seq<char> {
    if c == '"' {
        seq!['\\', '"']
    } else if c == '\\' {
        seq!['\\', '\\']
    } else if (c as u32) < 0x20 {
        seq![
            '\\',
            'u',
            '0',
            '0',
            digit_char(((c as u32) / 16) as int),
            digit_char(((c as u32) % 16) as int),
        ]
    } else {
        seq![c]
    }
}

/// A text with every character JSON-escaped.
pub open spec fn json_escaped(s: Seq<char>) -> Seq<char>
    decreases s.len(),
{
    if s.len() == 0 {
        Seq::<char>::empty()
    } else {
        json_escaped(s.drop_last()) + json_escape_char(s.last())
    }
}

/// A text as a JSON string literal.
pub open spec fn json_quoted(s: Seq<char>) -> Seq<char> {
    seq!['"'] + json_escaped(s) + seq!['"']
}

/// Every text rendered as a JSON string literal, in order.
pub open spec fn quoted_all(vals: Seq<Seq<char>>) -> Seq<Seq<char>>
    decreases vals.len(),
{
    if vals.len() == 0 {
        Seq::<Seq<char>>::empty()
    } else {
        quoted_all(vals.drop_last()).push(json_quoted(vals.last()))
    }
}

/// One object member: the key and an array of string values.
pub open spec fn json_member(k: Seq<char>, vals: Seq<Seq<char>>) -> Seq<char> {
    json_quoted(k) + seq![':', '['] + join_with(quoted_all(vals), ',') + seq![']']
}

/// The distinct meta property names, in order of first appearance.
pub open spec fn first_keys(pairs: Seq<(Seq<char>, Seq<char>)>) -> Seq<Seq<char>>
    decreases pairs.len(),
{
    if pairs.len() == 0 {
        Seq::<Seq<char>>::empty()
    } else {
        let r = first_keys(pairs.drop_last());
        if r.contains(pairs.last().0) {
            r
        } else {
            r.push(pairs.last().0)
        }
    }
}

/// The contents recorded under one property, in order.
pub open spec fn values_of_key(pairs: Seq<(Seq<char>, Seq<char>)>, k: Seq<char>) -> Seq<
    Seq<char>,
>
    decreases pairs.len(),
{
    if pairs.len() == 0 {
        Seq::<Seq<char>>::empty()
    } else {
        let r = values_of_key(pairs.drop_last(), k);
        if pairs.last().0 == k {
            r.push(pairs.last().1)
        } else {
            r
        }
    }
}

/// One member per distinct property, in order of first appearance.
pub open spec fn meta_members(
    keys: Seq<Seq<char>>,
    pairs: Seq<(Seq<char>, Seq<char>)>,
) -> Seq<Seq<char>>
    decreases keys.len(),
{
    if keys.len() == 0 {
        Seq::<Seq<char>>::empty()
    } else {
        meta_members(keys.drop_last(), pairs).push(
            json_member(keys.last(), values_of_key(pairs, keys.last())),
        )
    }
}

/// The structured-data text of a page: one JSON object holding, per
/// meta property, the array of its contents, and under `json-ld` the
/// array of the normalized JSON-LD blocks (absent when there are none).
pub open spec fn spec_meta_json(
    pairs: Seq<(Seq<char>, Seq<char>)>,
    json_ld: Seq<Seq<char>>,
) -> Seq<char> {
    let members = meta_members(first_keys(pairs), pairs) + (if json_ld.len() > 0 {
        seq![json_member("json-ld"@, json_ld)]
    } else {
        Seq::<Seq<char>>::empty()
    });
    seq!['{'] + join_with(members, ',') + seq!['}']
}

/// Renders a text as a JSON string literal.
fn json_quote_chars(v: &Vec<char>) -> (r: Vec<char>)
    ensures
        r@ == json_quoted(v@),
{
    let mut out: Vec<char> = Vec::new();
    out.push('"');
    let mut i: usize = 0;
    while i < v.len()
        invariant
            i <= v@.len(),
            out@ == seq!['"'] + json_escaped(v@.take(i as int)),
        decreases v@.len() - i,
    {
        let c = v[i];
        proof {
            assert(v@.take(i + 1).drop_last() =~= v@.take(i as int));
            assert(v@.take(i + 1).last() == v@[i as int]);
        }
        if c == '"' {
            out.push('\\');
            out.push('"');
        } else if c == '\\' {
            out.push('\\');
            out.push('\\');
        } else if (c as u32) < 0x20 {
            let code = c as u32;
            out.push('\\');
            out.push('u');
            out.push('0');
            out.push('0');
            out.push(digit_char_exec((code / 16) as u64));
            out.push(digit_char_exec((code % 16) as u64));
        } else {
            out.push(c);
        }
        proof {
            assert(out@ =~= seq!['"'] + json_escaped(v@.take(i + 1)));
        }
        i = i + 1;
    }
    proof {
        assert(v@.take(v@.len() as int) =~= v@);
    }
    out.push('"');
    proof {
        assert(out@ =~= json_quoted(v@));
    }
    out
}

/// Renders one member.
fn build_member(k: &str, vals: &Vec<String>) -> (r: Vec<char>)
    ensures
        r@ == json_member(k@, str_views(vals@)),
{
    let kc = chars_of(k);
    let mut out = json_quote_chars(&kc);
    out.push(':');
    out.push('[');
    let ghost vv = str_views(vals@);
    let mut pieces: Vec<Vec<char>> = Vec::new();
    let mut i: usize = 0;
    proof {
        assert(vv.take(0) =~= Seq::<Seq<char>>::empty());
        assert(views_of(pieces@) =~~= quoted_all(vv.take(0)));
    }
    while i < vals.len()
        invariant
            i <= vals@.len(),
            vv == str_views(vals@),
            views_of(pieces@) == quoted_all(vv.take(i as int)),
        decreases vals@.len() - i,
    {
        let vc = chars_of(vals[i].as_str());
        pieces.push(json_quote_chars(&vc));
        proof {
            assert(vv.take(i + 1).drop_last() =~= vv.take(i as int));
            assert(vv.take(i + 1).last() == vv[i as int]);
            assert(views_of(pieces@) =~~= quoted_all(vv.take(i + 1)));
        }
        i = i + 1;
    }
    proof {
        assert(vv.take(vv.len() as int) =~= vv);
    }
    let joined = join_chars(&pieces, ',');
    let mut j: usize = 0;
    let ghost mid = out@;
    while j < joined.len()
        invariant
            j <= joined@.len(),
            out@ == mid + joined@.take(j as int),
        decreases joined@.len() - j,
    {
        out.push(joined[j]);
        proof {
            assert(joined@.take(j + 1) =~= joined@.take(j as int).push(joined@[j as int]));
        }
        j = j + 1;
    }
    proof {
        assert(joined@.take(joined@.len() as int) =~= joined@);
    }
    out.push(']');
    proof {
        assert(out@ =~= json_member(k@, str_views(vals@)));
    }
    out
}

/// Builds the `meta_json` text of a page from the extracted meta
/// property pairs and the normalized JSON-LD blocks.
pub fn build_meta_json(meta: &Vec<(String, String)>, json_ld: &Vec<String>) -> (r: String)
    ensures
        r@ == spec_meta_json(pair_views(meta@), str_views(json_ld@)),
{
    let ghost pv = pair_views(meta@);

    // the distinct property names, in order of first appearance
    let mut keys: Vec<String> = Vec::new();
    let mut i: usize = 0;
    proof {
        assert(pv.take(0) =~= Seq::<(Seq<char>, Seq<char>)>::empty());
        assert(keys@.map_values(|s: String| s@) =~~= first_keys(pv.take(0)));
    }
    while i < meta.len()
        invariant
            i <= meta@.len(),
            pv == pair_views(meta@),
            keys@.map_values(|s: String| s@) == first_keys(pv.take(i as int)),
        decreases meta@.len() - i,
    {
        proof {
            assert(pv.take(i + 1).drop_last() =~= pv.take(i as int));
            assert(pv.take(i + 1).last() == pv[i as int]);
        }
        if !vec_contains_str(&keys, meta[i].0.as_str()) {
            keys.push(String::from_str(meta[i].0.as_str()));
            proof {
                assert(keys@.map_values(|s: String| s@) =~~= first_keys(pv.take(
                    i as int,
                )).push(pv[i as int].0));
            }
        }
        i = i + 1;
    }
    proof {
        assert(pv.take(pv.len() as int) =~= pv);
    }
    let ghost ks = first_keys(pv);

    // one member per property
    let mut members: Vec<Vec<char>> = Vec::new();
    let mut ki: usize = 0;
    proof {
        assert(ks.take(0) =~= Seq::<Seq<char>>::empty());
        assert(views_of(members@) =~~= meta_members(ks.take(0), pv));
    }
    while ki < keys.len()
        invariant
            ki <= keys@.len(),
            pv == pair_views(meta@),
            ks == first_keys(pv),
            keys@.map_values(|s: String| s@) == ks,
            views_of(members@) == meta_members(ks.take(ki as int), pv),
        decreases keys@.len() - ki,
    {
        proof {
            assert(keys@.map_values(|s: String| s@)[ki as int] == keys@[ki as int]@);
        }
        let mut vals: Vec<String> = Vec::new();
        let mut mi: usize = 0;
        proof {
            assert(pv.take(0) =~= Seq::<(Seq<char>, Seq<char>)>::empty());
            assert(vals@.map_values(|s: String| s@) =~~= values_of_key(
                pv.take(0),
                keys@[ki as int]@,
            ));
        }
        while mi < meta.len()
            invariant
                mi <= meta@.len(),
                ki < keys@.len(),
                pv == pair_views(meta@),
                vals@.map_values(|s: String| s@) == values_of_key(
                    pv.take(mi as int),
                    keys@[ki as int]@,
                ),
            decreases meta@.len() - mi,
        {
            proof {
                assert(pv.take(mi + 1).drop_last() =~= pv.take(mi as int));
                assert(pv.take(mi + 1).last() == pv[mi as int]);
            }
            if str_eq(meta[mi].0.as_str(), keys[ki].as_str()) {
                vals.push(String::from_str(meta[mi].1.as_str()));
                proof {
                    assert(vals@.map_values(|s: String| s@) =~~= values_of_key(
                        pv.take(mi as int),
                        keys@[ki as int]@,
                    ).push(pv[mi as int].1));
                }
            }
            mi = mi + 1;
        }
        proof {
            assert(pv.take(pv.len() as int) =~= pv);
        }
        let member = build_member(keys[ki].as_str(), &vals);
        proof {
            assert(str_views(vals@) == vals@.map_values(|s: String| s@));
        }
        members.push(member);
        proof {
            assert(ks.take(ki + 1).drop_last() =~= ks.take(ki as int));
            assert(ks.take(ki + 1).last() == ks[ki as int]);
            assert(ks[ki as int] == keys@[ki as int]@);
            assert(views_of(members@) =~~= meta_members(ks.take(ki + 1), pv));
        }
        ki = ki + 1;
    }
    proof {
        assert(ks.take(ks.len() as int) =~= ks);
    }
    if json_ld.len() > 0 {
        let mut ld_vals: Vec<String> = Vec::new();
        let mut li: usize = 0;
        while li < json_ld.len()
            invariant
                li <= json_ld@.len(),
                ld_vals@.len() == li,
                forall|a: int| 0 <= a < li ==> (#[trigger] ld_vals@[a]@) == json_ld@[a]@,
            decreases json_ld@.len() - li,
        {
            ld_vals.push(String::from_str(json_ld[li].as_str()));
            li = li + 1;
        }
        proof {
            assert(str_views(ld_vals@) =~~= str_views(json_ld@));
        }
        let member = build_member("json-ld", &ld_vals);
        members.push(member);
        proof {
            assert(views_of(members@) =~~= meta_members(ks, pv) + seq![
                json_member("json-ld"@, str_views(json_ld@)),
            ]);
        }
    } else {
        proof {
            assert(views_of(members@) =~~= meta_members(ks, pv) + Seq::<Seq<char>>::empty());
        }
    }
    let inner = join_chars(&members, ',');
    let mut out: Vec<char> = Vec::new();
    out.push('{');
    let mut z: usize = 0;
    while z < inner.len()
        invariant
            z <= inner@.len(),
            out@ == seq!['{'] + inner@.take(z as int),
        decreases inner@.len() - z,
    {
        out.push(inner[z]);
        proof {
            assert(inner@.take(z + 1) =~= inner@.take(z as int).push(inner@[z as int]));
        }
        z = z + 1;
    }
    proof {
        assert(inner@.take(inner@.len() as int) =~= inner@);
    }
    out.push('}');
    proof {
        assert(out@ =~= spec_meta_json(pair_views(meta@), str_views(json_ld@)));
    }
    string_from_chars(&out)
}

} // verus!
