//! Naming of rendered page snapshots. The rendering itself is a
//! best-effort collaborator outside the library; the safe file name a
//! page receives is fixed here.

use vstd::prelude::*;

use crate::strutil::digits_in_base;
use crate::strutil::string_from_chars;
use crate::strutil::u64_to_dec;
use crate::urls::parse_url_parts;
use crate::urls::url_parts_of;
use crate::urls::UrlView;

verus! {

/// Knows where rendered snapshots are written.
#[derive(Debug, Clone)]
pub struct PdfExporter {
    pub output_dir: String,
}

/// A character that may stand in a file name: ASCII letters and
/// digits, dashes and underscores; everything else becomes an
/// underscore.
pub open spec fn safe_char(c: char) -> char {
    if ('a' <= c && c <= 'z') || ('A' <= c && c <= 'Z') || ('0' <= c && c <= '9') || c == '-'
        || c == '_' {
        c
    } else {
        '_'
    }
}

/// Leading underscores removed.
pub open spec fn strip_lead(s: Seq<char>) -> Seq<char>
    decreases s.len(),
{
    if s.len() > 0 && s[0] == '_' {
        strip_lead(s.drop_first())
    } else {
        s
    }
}

/// Trailing underscores removed.
pub open spec fn strip_trail(s: Seq<char>) -> Seq<char>
    decreases s.len(),
{
    if s.len() > 0 && s.last() == '_' {
        strip_trail(s.drop_last())
    } else {
        s
    }
}

/// The name characters of a parsed URL: its path, then an underscore
/// and the fragment when one is present.
pub open spec fn name_source(v: UrlView) -> Seq<char> {
    v.path + (match v.fragment {
        Some(f) => seq!['_'] + f,
        None => Seq::<char>::empty(),
    })
}

/// The file name for a page snapshot: the URL's path and fragment with
/// unsafe characters replaced, underscores trimmed at both ends,
/// `homepage` when nothing remains, then the page identifier and the
/// `.pdf` suffix. An unparsable URL falls back to the name `page`.
pub open spec fn spec_filename(u: Seq<char>, id: u64) -> Seq<char> {
    let src = match url_parts_of(u) {
        Some(v) => name_source(v),
        None => "/page"@,
    };
    let safe = strip_trail(strip_lead(src.map_values(|c: char| safe_char(c))));
    (if safe.len() == 0 {
        "homepage"@
    } else {
        safe
    }) + seq!['_'] + digits_in_base(id as int, 10) + ".pdf"@
}

impl PdfExporter {
    pub fn new(output_dir: &str) -> (r: PdfExporter)
        ensures
            r.output_dir@ == output_dir@,
    {
        PdfExporter { output_dir: String::from_str(output_dir) }
    }

    /// Derives the safe snapshot file name for a page.
    pub fn generate_filename(&self, url: &str, id: u64) -> (r: String)
        ensures
            r@ == spec_filename(url@, id),
    {
        let src_chars: Vec<char> = match parse_url_parts(url) {
            Some(p) => {
                let mut v = crate::strutil::chars_of(p.path.as_str());
                match &p.fragment {
                    Some(f) => {
                        v.push('_');
                        let fc = crate::strutil::chars_of(f.as_str());
                        let mut k: usize = 0;
                        while k < fc.len()
                            invariant
                                k <= fc@.len(),
                                v@ =~= p.path@ + seq!['_'] + fc@.take(k as int),
                            decreases fc@.len() - k,
                        {
                            v.push(fc[k]);
                            proof {
                                assert(fc@.take(k + 1) =~= fc@.take(k as int).push(
                                    fc@[k as int],
                                ));
                            }
                            k = k + 1;
                        }
                        proof {
                            assert(fc@.take(fc@.len() as int) =~= fc@);
                        }
                    },
                    None => {},
                }
                proof {
                    assert(v@ =~= name_source(p@));
                }
                v
            },
            None => crate::strutil::chars_of("/page"),
        };
        let mut safe: Vec<char> = Vec::new();
        let mut i: usize = 0;
        while i < src_chars.len()
            invariant
                i <= src_chars@.len(),
                safe@ =~= src_chars@.map_values(|c: char| safe_char(c)).take(i as int),
            decreases src_chars@.len() - i,
        {
            let c = src_chars[i];
            if ('a' <= c && c <= 'z') || ('A' <= c && c <= 'Z') || ('0' <= c && c <= '9')
                || c == '-' || c == '_' {
                safe.push(c);
            } else {
                safe.push('_');
            }
            i = i + 1;
        }
        proof {
            assert(safe@ =~= src_chars@.map_values(|c: char| safe_char(c)));
        }
        // trim underscores at both ends
        let mut lo: usize = 0;
        while lo < safe.len() && safe[lo] == '_'
            invariant
                lo <= safe@.len(),
                forall|k: int| 0 <= k < lo ==> safe@[k] == '_',
                strip_lead(safe@) == strip_lead(safe@.skip(lo as int)),
            decreases safe@.len() - lo,
        {
            proof {
                assert(safe@.skip(lo as int).drop_first() =~= safe@.skip(lo + 1));
            }
            lo = lo + 1;
        }
        let mut hi: usize = safe.len();
        proof {
            if lo < safe@.len() {
                assert(strip_lead(safe@.skip(lo as int)) == safe@.skip(lo as int));
            } else {
                assert(safe@.skip(lo as int) =~= Seq::<char>::empty());
                assert(strip_lead(safe@) =~= Seq::<char>::empty());
            }
        }
        while hi > lo && safe[hi - 1] == '_'
            invariant
                lo <= hi <= safe@.len(),
                forall|k: int| hi <= k < safe@.len() ==> safe@[k] == '_',
                strip_trail(safe@.subrange(lo as int, safe@.len() as int)) == strip_trail(
                    safe@.subrange(lo as int, hi as int),
                ),
                lo < safe@.len() ==> strip_lead(safe@) == safe@.skip(lo as int),
                lo >= safe@.len() ==> strip_lead(safe@) == Seq::<char>::empty(),
            decreases hi,
        {
            proof {
                assert(safe@.subrange(lo as int, hi as int).drop_last() =~= safe@.subrange(
                    lo as int,
                    hi - 1,
                ));
            }
            hi = hi - 1;
        }
        let trimmed_chars = {
            let part = crate::strutil::skip_chars(&safe, lo);
            crate::strutil::take_chars(&part, hi - lo)
        };
        proof {
            assert(trimmed_chars@ =~= safe@.subrange(lo as int, hi as int));
            if hi > lo {
                assert(strip_trail(safe@.subrange(lo as int, hi as int)) == safe@.subrange(
                    lo as int,
                    hi as int,
                ));
            } else {
                assert(safe@.subrange(lo as int, hi as int) =~= Seq::<char>::empty());
            }
            if lo < safe@.len() {
                assert(safe@.skip(lo as int) =~= safe@.subrange(
                    lo as int,
                    safe@.len() as int,
                ));
            } else {
                assert(safe@.subrange(lo as int, safe@.len() as int) =~= Seq::<
                    char,
                >::empty());
                assert(strip_trail(Seq::<char>::empty()) =~= Seq::<char>::empty());
            }
            assert(trimmed_chars@ == strip_trail(strip_lead(safe@)));
        }
        let mut name: Vec<char> = if trimmed_chars.len() == 0 {
            crate::strutil::chars_of("homepage")
        } else {
            trimmed_chars
        };
        name.push('_');
        let digits = crate::strutil::u64_to_dec_chars(id);
        let mut k: usize = 0;
        let ghost base = name@;
        while k < digits.len()
            invariant
                k <= digits@.len(),
                name@ =~= base + digits@.take(k as int),
            decreases digits@.len() - k,
        {
            name.push(digits[k]);
            proof {
                assert(digits@.take(k + 1) =~= digits@.take(k as int).push(
                    digits@[k as int],
                ));
            }
            k = k + 1;
        }
        proof {
            assert(digits@.take(digits@.len() as int) =~= digits@);
        }
        let mut out = string_from_chars(&name);
        out.append(".pdf");
        proof {
            assert(out@ =~= spec_filename(url@, id));
        }
        out
    }
}

} // verus!
