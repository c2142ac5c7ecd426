//! Sitemap discovery and staging: finding sitemap URLs in a robots.txt
//! body, extracting `<url><loc>…</loc><lastmod>…</lastmod></url>`
//! entries from a sitemap's XML event stream, and the seeding priority
//! of a staged URL. Fetching and storage happen outside the library.

use vstd::prelude::*;

use crate::models::StagedUrl;
use crate::strutil::chars_of;
use crate::strutil::chars_eq;
use crate::strutil::lower_seq;
use crate::strutil::split_by;
use crate::strutil::split_chars;
use crate::strutil::str_eq;
use crate::strutil::string_from_chars;
use crate::strutil::skip_chars;
use crate::strutil::take_chars;
use crate::strutil::to_lower;
use crate::strutil::trimmed;
use crate::strutil::trim_str;
use crate::strutil::views_of;
use crate::urls::parse_url_parts;
use crate::urls::url_parts_of;

verus! {

/// One tag-level event of the sitemap XML stream.
#[derive(Debug, Clone)]
pub enum XmlEvent {
    Start { name: String },
    Text { text: String },
    End { name: String },
}

/// One sitemap entry: the location (as the parser serialized it) and
/// the optional last-modification stamp.
#[derive(Debug, Clone)]
pub struct SitemapEntry {
    pub loc: String,
    pub lastmod: Option<String>,
}

/// What a sitemap location text denotes once parsed: the serialized
/// URL, or nothing when it does not parse.
pub open spec fn loc_of(text: Seq<char>) -> Option<Seq<char>> {
    match url_parts_of(text) {
        Some(v) => Some(v.serialized),
        None => None,
    }
}

/// The extraction state over the XML events.
pub ghost struct SitemapSt {
    pub in_loc: bool,
    pub in_lastmod: bool,
    pub cur: Option<(Option<Seq<char>>, Option<Seq<char>>)>,
    pub entries: Seq<(Seq<char>, Option<Seq<char>>)>,
}

pub open spec fn sitemap_init() -> SitemapSt {
    SitemapSt {
        in_loc: false,
        in_lastmod: false,
        cur: None,
        entries: Seq::<(Seq<char>, Option<Seq<char>>)>::empty(),
    }
}

/// One step of the sitemap scanner: a `<url>` opens an entry, `<loc>`
/// and `<lastmod>` mark the next text, text fills the marked field, and
/// `</url>` emits the entry when its location parsed; malformed
/// entries are skipped.
pub open spec fn sitemap_step(st: SitemapSt, e: XmlEvent) -> SitemapSt {
    match e {
        XmlEvent::Start { name } => {
            if name@ == "url"@ {
                SitemapSt { cur: Some((None, None)), ..st }
            } else if name@ == "loc"@ {
                SitemapSt { in_loc: true, ..st }
            } else if name@ == "lastmod"@ {
                SitemapSt { in_lastmod: true, ..st }
            } else {
                st
            }
        },
        XmlEvent::Text { text } => {
            match st.cur {
                Some(c) => if st.in_loc {
                    SitemapSt {
                        in_loc: false,
                        cur: Some(
                            (
                                match loc_of(text@) {
                                    Some(u) => Some(u),
                                    None => c.0,
                                },
                                c.1,
                            ),
                        ),
                        ..st
                    }
                } else if st.in_lastmod {
                    SitemapSt { in_lastmod: false, cur: Some((c.0, Some(text@))), ..st }
                } else {
                    st
                },
                None => st,
            }
        },
        XmlEvent::End { name } => {
            if name@ == "url"@ {
                match st.cur {
                    Some(c) => match c.0 {
                        Some(u) => SitemapSt {
                            cur: None,
                            entries: st.entries.push((u, c.1)),
                            ..st
                        },
                        None => SitemapSt { cur: None, ..st },
                    },
                    None => st,
                }
            } else {
                st
            }
        },
    }
}

/// The state after the first `i` events.
pub open spec fn sitemap_run(events: Seq<XmlEvent>, i: int) -> SitemapSt
    decreases i,
{
    if i <= 0 {
        sitemap_init()
    } else {
        sitemap_step(sitemap_run(events, i - 1), events[i - 1])
    }
}

/// The views of the extracted entries.
pub open spec fn entry_views(v: Seq<SitemapEntry>) -> Seq<(Seq<char>, Option<Seq<char>>)> {
    v.map_values(
        |e: SitemapEntry|
            (
                e.loc@,
                match e.lastmod {
                    Some(lm) => Some(lm@),
                    None => None,
                },
            ),
    )
}

/// Extracts the sitemap entries from the XML event stream, exactly as
/// `sitemap_run` over the whole stream describes.
pub fn parse_sitemap_events(events: &Vec<XmlEvent>) -> (r: Vec<SitemapEntry>)
    ensures
        entry_views(r@) == sitemap_run(events@, events@.len() as int).entries,
{
    let mut in_loc: bool = false;
    let mut in_lastmod: bool = false;
    let mut cur: Option<(Option<String>, Option<String>)> = None;
    let mut entries: Vec<SitemapEntry> = Vec::new();

    let mut i: usize = 0;
    while i < events.len()
        invariant
            i <= events@.len(),
            ({
                let st = sitemap_run(events@, i as int);
                &&& in_loc == st.in_loc
                &&& in_lastmod == st.in_lastmod
                &&& (match cur {
                    Some(c) => st.cur == Some(
                        (
                            match c.0 {
                                Some(ref u) => Some(u@),
                                None => None::<Seq<char>>,
                            },
                            match c.1 {
                                Some(ref lm) => Some(lm@),
                                None => None::<Seq<char>>,
                            },
                        ),
                    ),
                    None => st.cur is None,
                })
                &&& entry_views(entries@) == st.entries
            }),
        decreases events@.len() - i,
    {
        let ghost st = sitemap_run(events@, i as int);
        proof {
            assert(sitemap_run(events@, i + 1) == sitemap_step(st, events@[i as int]));
        }
        match &events[i] {
            XmlEvent::Start { name } => {
                if str_eq(name.as_str(), "url") {
                    cur = Some((None, None));
                } else if str_eq(name.as_str(), "loc") {
                    in_loc = true;
                } else if str_eq(name.as_str(), "lastmod") {
                    in_lastmod = true;
                }
            },
            XmlEvent::Text { text } => {
                match cur {
                    Some(c) => {
                        if in_loc {
                            in_loc = false;
                            let newloc: Option<String> = match parse_url_parts(
                                text.as_str(),
                            ) {
                                Some(p) => Some(p.serialized),
                                None => c.0,
                            };
                            cur = Some((newloc, c.1));
                        } else if in_lastmod {
                            in_lastmod = false;
                            cur = Some((c.0, Some(String::from_str(text.as_str()))));
                        } else {
                            cur = Some(c);
                        }
                    },
                    None => {
                        cur = None;
                    },
                }
            },
            XmlEvent::End { name } => {
                if str_eq(name.as_str(), "url") {
                    match cur {
                        Some(c) => {
                            match c.0 {
                                Some(u) => {
                                    entries.push(SitemapEntry { loc: u, lastmod: c.1 });
                                    proof {
                                        assert(entry_views(entries@) =~~= st.entries.push(
                                            (
                                                entries@.last().loc@,
                                                match entries@.last().lastmod {
                                                    Some(ref lm) => Some(lm@),
                                                    None => None::<Seq<char>>,
                                                },
                                            ),
                                        ));
                                    }
                                },
                                None => {},
                            }
                            cur = None;
                        },
                        None => {},
                    }
                }
            },
        }
        i = i + 1;
    }
    entries
}

/// What one robots.txt line contributes: the parsed sitemap URL of a
/// line starting (case-insensitively) with `Sitemap:`, if it parses.
pub open spec fn line_sitemap(line: Seq<char>) -> Option<Seq<char>> {
    if line.len() >= 8 && lower_seq(line.take(8)) == "sitemap:"@ {
        loc_of(trimmed(line.skip(8)))
    } else {
        None
    }
}

/// The sitemap URLs the robots.txt lines announce, in order.
pub open spec fn collect_sitemaps(lines: Seq<Seq<char>>) -> Seq<Seq<char>>
    decreases lines.len(),
{
    if lines.len() == 0 {
        Seq::<Seq<char>>::empty()
    } else {
        let r = collect_sitemaps(lines.drop_last());
        match line_sitemap(lines.last()) {
            Some(u) => r.push(u),
            None => r,
        }
    }
}

/// Scans a robots.txt body for `Sitemap:` directives and returns the
/// announced URLs that parse, in order of appearance.
pub fn sitemap_urls_from_robots(text: &str) -> (r: Vec<String>)
    ensures
        r@.map_values(|s: String| s@) == collect_sitemaps(split_by(text@, '\n')),
{
    let chars = chars_of(text);
    let lines = split_chars(&chars, '\n');
    let ghost line_views = views_of(lines@);
    let mut out: Vec<String> = Vec::new();
    let mut i: usize = 0;
    proof {
        assert(line_views.take(0) =~= Seq::<Seq<char>>::empty());
        assert(out@.map_values(|s: String| s@) =~~= collect_sitemaps(line_views.take(0)));
    }
    while i < lines.len()
        invariant
            i <= lines@.len(),
            line_views == views_of(lines@),
            out@.map_values(|s: String| s@) == collect_sitemaps(line_views.take(i as int)),
        decreases lines@.len() - i,
    {
        proof {
            assert(line_views.take(i + 1).drop_last() =~= line_views.take(i as int));
            assert(line_views.take(i + 1).last() == line_views[i as int]);
        }
        let line = &lines[i];
        if line.len() >= 8 {
            let head = take_chars(line, 8);
            let head_low = to_lower(&head);
            let tag = chars_of("sitemap:");
            if chars_eq(&head_low, &tag) {
                let rest = skip_chars(line, 8);
                let rest_s = string_from_chars(&rest);
                let rest_t = trim_str(rest_s.as_str());
                match parse_url_parts(rest_t.as_str()) {
                    Some(p) => {
                        out.push(p.serialized);
                        proof {
                            assert(line_sitemap(line_views[i as int]) == Some(
                                out@.last()@,
                            ));
                            assert(out@.map_values(|s: String| s@) =~~= collect_sitemaps(
                                line_views.take(i as int),
                            ).push(out@.last()@));
                        }
                    },
                    None => {
                        proof {
                            assert(line_sitemap(line_views[i as int]) is None);
                        }
                    },
                }
            } else {
                proof {
                    assert(line_sitemap(line_views[i as int]) is None);
                }
            }
        } else {
            proof {
                assert(line_sitemap(line_views[i as int]) is None);
            }
        }
        i = i + 1;
    }
    proof {
        assert(line_views.take(line_views.len() as int) =~= line_views);
    }
    out
}

/// What chrono makes of an RFC 3339 stamp: its Unix timestamp in
/// seconds, or nothing when it does not parse; a pure function of the
/// text.
pub uninterp spec fn rfc3339_epoch_of(s: Seq<char>) -> Option<i64>;

/// Relies on chrono::DateTime::parse_from_rfc3339 and
/// chrono::DateTime::timestamp: the stamp's Unix time, or a parse
/// failure.
#[verifier::external_body]
pub fn parse_rfc3339_epoch(s: &str) -> (r: Option<i64>)
    ensures
        match r {
            Some(t) => rfc3339_epoch_of(s@) == Some(t),
            None => rfc3339_epoch_of(s@) == None::<i64>,
        },
{
    match chrono::DateTime::parse_from_rfc3339(s) {
        Ok(dt) => Some(dt.timestamp()),
        Err(_) => None,
    }
}

/// Fourteen days, in seconds.
pub const FOURTEEN_DAYS_SECS: i64 = 1209600;

/// The seeding priority of a staged URL, in whole points: 2 when the
/// last-modification stamp parses as RFC 3339 and lies within the last
/// fourteen days, 1 otherwise.
pub fn seed_priority(lastmod: &Option<String>, now_epoch: i64) -> (r: u8)
    requires
        now_epoch > i64::MIN + FOURTEEN_DAYS_SECS,
    ensures
        r == 2 <==> (match lastmod {
            Some(lm) => match rfc3339_epoch_of(lm@) {
                Some(t) => t > now_epoch - FOURTEEN_DAYS_SECS,
                None => false,
            },
            None => false,
        }),
        r == 1 || r == 2,
{
    match lastmod {
        Some(lm) => {
            match parse_rfc3339_epoch(lm.as_str()) {
                Some(t) => {
                    if t > now_epoch - FOURTEEN_DAYS_SECS {
                        2
                    } else {
                        1
                    }
                },
                None => 1,
            }
        },
        None => 1,
    }
}

/// Builds the pending staged row for one sitemap entry.
pub fn make_staged_url(entry: &SitemapEntry, scope_id: i64, discovered_at: &str) -> (r:
    StagedUrl)
    ensures
        r.id is None,
        r.scope_id == scope_id,
        r.url@ == entry.loc@,
        r.status@ == "pending"@,
        (match (r.lastmod, entry.lastmod) {
            (Some(ref a), Some(ref b)) => a@ == b@,
            (None, None) => true,
            _ => false,
        }),
        r.priority == Some(1u8),
        r.discovered_at@ == discovered_at@,
{
    StagedUrl {
        id: None,
        scope_id,
        url: String::from_str(entry.loc.as_str()),
        status: String::from_str("pending"),
        lastmod: match &entry.lastmod {
            Some(lm) => Some(String::from_str(lm.as_str())),
            None => None,
        },
        priority: Some(1),
        discovered_at: String::from_str(discovered_at),
    }
}

} // verus!
