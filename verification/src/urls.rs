//! The library's model of an absolute URL: the components the crawl
//! logic reads, held as plain strings. Parsing and reference resolution
//! are done by the url crate behind trusted wrappers; everything that
//! reads or rewrites components is verified against this model.
//!
//! The model covers `scheme://host[:port]path[?query][#fragment]` and
//! scheme-only forms without an authority; user-info is not carried.

use vstd::prelude::*;

verus! {

/// The abstract value of a parsed URL.
pub ghost struct UrlView {
    pub serialized: Seq<char>,
    pub scheme: Seq<char>,
    pub host: Seq<char>,
    pub port: Option<u16>,
    pub path: Seq<char>,
    pub query: Option<Seq<char>>,
    pub fragment: Option<Seq<char>>,
}

/// A parsed absolute URL. `serialized` is the full normalized string
/// the parser produced; `host` is empty for URLs without an authority.
#[derive(Debug, Clone)]
pub struct UrlParts {
    pub serialized: String,
    pub scheme: String,
    pub host: String,
    pub port: Option<u16>,
    pub path: String,
    pub query: Option<String>,
    pub fragment: Option<String>,
}

impl View for UrlParts {
    type V = UrlView;

    open spec fn view(&self) -> UrlView {
        UrlView {
            serialized: self.serialized@,
            scheme: self.scheme@,
            host: self.host@,
            port: self.port,
            path: self.path@,
            query: match self.query {
                Some(ref q) => Some(q@),
                None => None,
            },
            fragment: match self.fragment {
                Some(ref f) => Some(f@),
                None => None,
            },
        }
    }
}

/// What url::Url::parse yields on a given input: a pure function of the
/// string alone.
pub uninterp spec fn url_parts_of(s: Seq<char>) -> Option<UrlView>;

/// Relies on url::Url::parse and the component accessors of url::Url
/// (scheme, host_str, port, path, query, fragment, as_str): parsing
/// either fails or yields one fixed set of components for a given input.
#[verifier::external_body]
pub fn parse_url_parts(s: &str) -> (r: Option<UrlParts>)
    ensures
        match r {
            Some(p) => url_parts_of(s@) == Some(p@),
            None => url_parts_of(s@) == None::<UrlView>,
        },
{
    match url::Url::parse(s) {
        Ok(u) => Some(UrlParts {
            serialized: u.as_str().to_string(),
            scheme: u.scheme().to_string(),
            host: u.host_str().unwrap_or("").to_string(),
            port: u.port(),
            path: u.path().to_string(),
            query: u.query().map(|q| q.to_string()),
            fragment: u.fragment().map(|f| f.to_string()),
        }),
        Err(_) => None,
    }
}

/// What resolving `href` against `base` yields: a pure function of the
/// two strings alone.
pub uninterp spec fn joined_url(base: Seq<char>, href: Seq<char>) -> Option<Seq<char>>;

/// Relies on url::Url::parse and url::Url::join: RFC 3986 reference
/// resolution of `href` against `base`, a pure function of both.
#[verifier::external_body]
pub fn join_url(base: &str, href: &str) -> (r: Option<String>)
    ensures
        match r {
            Some(u) => joined_url(base@, href@) == Some(u@),
            None => joined_url(base@, href@) == None::<Seq<char>>,
        },
{
    match url::Url::parse(base) {
        Ok(b) => match b.join(href) {
            Ok(u) => Some(String::from(u)),
            Err(_) => None,
        },
        Err(_) => None,
    }
}


/// Lexicographic order on character sequences extends to (key, value)
/// pairs: by key first, then by value.
pub open spec fn pair_le(a: (Seq<char>, Seq<char>), b: (Seq<char>, Seq<char>)) -> bool {
    if a.0 != b.0 {
        crate::strutil::lex_le(a.0, b.0)
    } else {
        crate::strutil::lex_le(a.1, b.1)
    }
}

/// Inserts a pair into a sorted run, keeping the order.
pub open spec fn insert_pair(
    s: Seq<(Seq<char>, Seq<char>)>,
    x: (Seq<char>, Seq<char>),
) -> Seq<(Seq<char>, Seq<char>)>
    decreases s.len(),
{
    if s.len() == 0 {
        seq![x]
    } else if pair_le(s.last(), x) {
        s.push(x)
    } else {
        insert_pair(s.drop_last(), x).push(s.last())
    }
}

/// Sorts the pairs lexicographically by insertion.
pub open spec fn sort_pairs(ps: Seq<(Seq<char>, Seq<char>)>) -> Seq<(Seq<char>, Seq<char>)>
    decreases ps.len(),
{
    if ps.len() == 0 {
        Seq::<(Seq<char>, Seq<char>)>::empty()
    } else {
        insert_pair(sort_pairs(ps.drop_last()), ps.last())
    }
}

/// The pieces of the query string, with empty segments dropped.
pub open spec fn keep_nonempty(ps: Seq<Seq<char>>) -> Seq<Seq<char>>
    decreases ps.len(),
{
    if ps.len() == 0 {
        Seq::<Seq<char>>::empty()
    } else {
        let r = keep_nonempty(ps.drop_last());
        if ps.last().len() > 0 {
            r.push(ps.last())
        } else {
            r
        }
    }
}

/// The (key, value) pair a query piece denotes: split at the first
/// equals sign; a piece without one is all key.
pub open spec fn kv_of(piece: Seq<char>) -> (Seq<char>, Seq<char>) {
    let i = crate::strutil::first_index(piece, '=');
    if i < 0 {
        (piece, Seq::<char>::empty())
    } else {
        (piece.take(i), piece.skip(i + 1))
    }
}

/// One pair rendered back as `k=v`.
pub open spec fn render_pair(kv: (Seq<char>, Seq<char>)) -> Seq<char> {
    kv.0 + seq!['='] + kv.1
}

/// The (key, value) pairs of the query pieces, in order.
pub open spec fn pairs_of(ps: Seq<Seq<char>>) -> Seq<(Seq<char>, Seq<char>)>
    decreases ps.len(),
{
    if ps.len() == 0 {
        Seq::<(Seq<char>, Seq<char>)>::empty()
    } else {
        pairs_of(ps.drop_last()).push(kv_of(ps.last()))
    }
}

/// Every pair rendered back as a `k=v` piece, in order.
pub open spec fn render_all(s: Seq<(Seq<char>, Seq<char>)>) -> Seq<Seq<char>>
    decreases s.len(),
{
    if s.len() == 0 {
        Seq::<Seq<char>>::empty()
    } else {
        render_all(s.drop_last()).push(render_pair(s.last()))
    }
}

/// The canonical form of a query string: pairs split at `&` and `=`,
/// sorted lexicographically by the tuple, joined back as `k=v&k=v`;
/// nothing when no pairs remain.
pub open spec fn canonical_query(q: Seq<char>) -> Option<Seq<char>> {
    let ps = keep_nonempty(crate::strutil::split_by(q, '&'));
    if ps.len() == 0 {
        None
    } else {
        Some(crate::strutil::join_with(render_all(sort_pairs(pairs_of(ps))), '&'))
    }
}

pub open spec fn canonical_opt_query(q: Option<Seq<char>>) -> Option<Seq<char>> {
    match q {
        Some(qs) => canonical_query(qs),
        None => None,
    }
}

/// The serialized form of a URL from its components.
pub open spec fn serialize_parts(
    scheme: Seq<char>,
    host: Seq<char>,
    port: Option<u16>,
    path: Seq<char>,
    query: Option<Seq<char>>,
) -> Seq<char> {
    scheme + (if host.len() > 0 {
        "://"@ + host + (match port {
            Some(p) => seq![':'] + crate::strutil::digits_in_base(p as int, 10),
            None => Seq::<char>::empty(),
        })
    } else {
        seq![':']
    }) + path + (match query {
        Some(q) => seq!['?'] + q,
        None => Seq::<char>::empty(),
    })
}

/// The canonical form of a URL: host lower-cased, fragment removed,
/// query pairs sorted; the serialized form rebuilt accordingly.
pub open spec fn canonical_view(v: UrlView) -> UrlView {
    let q = canonical_opt_query(v.query);
    let host = crate::strutil::lower_seq(v.host);
    UrlView {
        serialized: serialize_parts(v.scheme, host, v.port, v.path, q),
        scheme: v.scheme,
        host: host,
        port: v.port,
        path: v.path,
        query: q,
        fragment: None,
    }
}


/// Pair views of key/value character vectors.
pub open spec fn kv_views(v: Seq<(Vec<char>, Vec<char>)>) -> Seq<(Seq<char>, Seq<char>)> {
    v.map_values(|p: (Vec<char>, Vec<char>)| (p.0@, p.1@))
}

fn pair_le_exec(a: &(Vec<char>, Vec<char>), b: &(Vec<char>, Vec<char>)) -> (r: bool)
    ensures
        r == pair_le((a.0@, a.1@), (b.0@, b.1@)),
{
    if crate::strutil::chars_eq(&a.0, &b.0) {
        crate::strutil::lex_le_exec(&a.1, &b.1)
    } else {
        crate::strutil::lex_le_exec(&a.0, &b.0)
    }
}

fn insert_pair_exec(s: Vec<(Vec<char>, Vec<char>)>, x: (Vec<char>, Vec<char>)) -> (r: Vec<
    (Vec<char>, Vec<char>),
>)
    ensures
        kv_views(r@) == insert_pair(kv_views(s@), (x.0@, x.1@)),
    decreases s@.len(),
{
    let ghost sv = kv_views(s@);
    if s.len() == 0 {
        let mut out: Vec<(Vec<char>, Vec<char>)> = Vec::new();
        out.push(x);
        proof {
            assert(kv_views(out@) =~~= insert_pair(sv, (x.0@, x.1@)));
        }
        out
    } else {
        let lastref = &s[s.len() - 1];
        if pair_le_exec(lastref, &x) {
            let mut out = s;
            out.push(x);
            proof {
                assert(kv_views(out@) =~~= sv.push((x.0@, x.1@)));
                assert(sv.last() == kv_views(out@)[sv.len() - 1]);
            }
            out
        } else {
            let mut s2 = s;
            let last = s2.pop().unwrap();
            proof {
                assert(kv_views(s2@) =~~= sv.drop_last());
            }
            let mut out = insert_pair_exec(s2, x);
            out.push(last);
            proof {
                assert(kv_views(out@) =~~= insert_pair(sv.drop_last(), (x.0@, x.1@)).push(
                    sv.last(),
                ));
            }
            out
        }
    }
}

/// Computes the canonical query, if any pairs remain.
fn canonical_query_exec(qopt: &Option<String>) -> (r: Option<String>)
    ensures
        (match r {
            Some(s) => Some(s@),
            None => None::<Seq<char>>,
        }) == canonical_opt_query(crate::parser::opt_view(*qopt)),
{
    let q = match qopt {
        None => {
            return None;
        },
        Some(q) => q,
    };

    let qc = crate::strutil::chars_of(q.as_str());
    let pieces = crate::strutil::split_chars(&qc, '&');
    let ghost piece_views = crate::strutil::views_of(pieces@);

    // drop empty segments
    let mut kept: Vec<Vec<char>> = Vec::new();
    let mut i: usize = 0;
    proof {
        assert(piece_views.take(0) =~= Seq::<Seq<char>>::empty());
        assert(crate::strutil::views_of(kept@) =~~= keep_nonempty(
    piece_views.take(0),
        ));
    }
    while i < pieces.len()
        invariant
    i <= pieces@.len(),
    piece_views == crate::strutil::views_of(pieces@),
    crate::strutil::views_of(kept@) == keep_nonempty(
        piece_views.take(i as int),
    ),
        decreases pieces@.len() - i,
    {
        proof {
    assert(piece_views.take(i + 1) =~= piece_views.take(i as int).push(
        piece_views[i as int],
    ));
    assert(piece_views.take(i + 1).drop_last() =~= piece_views.take(i as int));
        }
        if pieces[i].len() > 0 {
    let pc = crate::strutil::take_chars(&pieces[i], pieces[i].len());
    proof {
        assert(pc@ =~= piece_views[i as int]);
    }
    kept.push(pc);
    proof {
        assert(crate::strutil::views_of(kept@) =~~= keep_nonempty(
            piece_views.take(i as int),
        ).push(piece_views[i as int]));
    }
        } else {
    proof {
        assert(piece_views[i as int].len() == 0);
    }
        }
        i = i + 1;
    }
    proof {
        assert(piece_views.take(piece_views.len() as int) =~= piece_views);
    }
    if kept.len() == 0 {
        None
    } else {
        // split each piece into its (key, value) pair
        let ghost kept_views = crate::strutil::views_of(kept@);
        let mut pairs: Vec<(Vec<char>, Vec<char>)> = Vec::new();
        let mut j: usize = 0;
        proof {
    assert(kept_views.take(0) =~= Seq::<Seq<char>>::empty());
    assert(kv_views(pairs@) =~~= pairs_of(kept_views.take(0)));
        }
        while j < kept.len()
    invariant
        j <= kept@.len(),
        kept_views == crate::strutil::views_of(kept@),
        kv_views(pairs@) == pairs_of(kept_views.take(j as int)),
    decreases kept@.len() - j,
        {
    let piece = &kept[j];
    let pair: (Vec<char>, Vec<char>) = match crate::strutil::find_char(
        piece,
        '=',
    ) {
        Some(ix) => {
            let pl = piece.len();
            proof {
                crate::strutil::lemma_first_index(piece@, '=');
                assert(ix < pl);
            }
            let k = crate::strutil::take_chars(piece, ix);
            let v = crate::strutil::skip_chars(piece, ix + 1);
            (k, v)
        },
        None => {
            let k = crate::strutil::take_chars(piece, piece.len());
            let v: Vec<char> = Vec::new();
            proof {
                assert(k@ =~= piece@);
            }
            (k, v)
        },
    };
    pairs.push(pair);
    proof {
        assert((pairs@.last().0@, pairs@.last().1@) == kv_of(
            kept_views[j as int],
        ));
        assert(kept_views.take(j + 1).drop_last() =~= kept_views.take(
            j as int,
        ));
        assert(kept_views.take(j + 1).last() == kept_views[j as int]);
        assert(kv_views(pairs@) =~~= pairs_of(kept_views.take(j + 1)));
    }
    j = j + 1;
        }
        proof {
    assert(kept_views.take(kept_views.len() as int) =~= kept_views);
        }

        // sort by (key, value)
        let ghost pair_seq = kv_views(pairs@);
        let mut sorted: Vec<(Vec<char>, Vec<char>)> = Vec::new();
        let mut n: usize = 0;
        let plen = pairs.len();
        proof {
    assert(pair_seq.take(0) =~= Seq::<(Seq<char>, Seq<char>)>::empty());
    assert(kv_views(sorted@) =~~= sort_pairs(pair_seq.take(0)));
        }
        while n < plen
    invariant
        n <= plen,
        plen == pairs@.len(),
        pair_seq == kv_views(pairs@),
        kv_views(sorted@) == sort_pairs(pair_seq.take(n as int)),
    decreases plen - n,
        {
    let kk = crate::strutil::take_chars(&pairs[n].0, pairs[n].0.len());
    let vv = crate::strutil::take_chars(&pairs[n].1, pairs[n].1.len());
    proof {
        assert(kk@ =~= pairs@[n as int].0@);
        assert(vv@ =~= pairs@[n as int].1@);
        assert(pair_seq.take(n + 1) =~= pair_seq.take(n as int).push(
            pair_seq[n as int],
        ));
        assert(pair_seq.take(n + 1).drop_last() =~= pair_seq.take(n as int));
    }
    sorted = insert_pair_exec(sorted, (kk, vv));
    n = n + 1;
        }
        proof {
    assert(pair_seq.take(pair_seq.len() as int) =~= pair_seq);
        }

        // render `k=v` pieces and join with `&`
        let ghost sorted_seq = kv_views(sorted@);
        let mut rendered: Vec<Vec<char>> = Vec::new();
        let mut m: usize = 0;
        proof {
    assert(sorted_seq.take(0) =~= Seq::<(Seq<char>, Seq<char>)>::empty());
    assert(crate::strutil::views_of(rendered@) =~~= render_all(
        sorted_seq.take(0),
    ));
        }
        while m < sorted.len()
    invariant
        m <= sorted@.len(),
        sorted_seq == kv_views(sorted@),
        crate::strutil::views_of(rendered@) == render_all(
            sorted_seq.take(m as int),
        ),
    decreases sorted@.len() - m,
        {
    let mut piece = crate::strutil::take_chars(
        &sorted[m].0,
        sorted[m].0.len(),
    );
    piece.push('=');
    let mut z: usize = 0;
    while z < sorted[m].1.len()
        invariant
            m < sorted@.len(),
            z <= sorted@[m as int].1@.len(),
            piece@ =~= sorted@[m as int].0@ + seq!['='] + sorted@[
                m as int
            ].1@.take(z as int),
        decreases sorted@[m as int].1@.len() - z,
    {
        piece.push(sorted[m].1[z]);
        proof {
            assert(sorted@[m as int].1@.take(z + 1) =~= sorted@[
                m as int
            ].1@.take(z as int).push(sorted@[m as int].1@[z as int]));
        }
        z = z + 1;
    }
    proof {
        assert(sorted@[m as int].1@.take(sorted@[m as int].1@.len() as int)
            =~= sorted@[m as int].1@);
        assert(piece@ =~= render_pair(sorted_seq[m as int]));
    }
    rendered.push(piece);
    proof {
        assert(sorted_seq.take(m + 1).drop_last() =~= sorted_seq.take(
            m as int,
        ));
        assert(sorted_seq.take(m + 1).last() == sorted_seq[m as int]);
        assert(crate::strutil::views_of(rendered@) =~~= render_all(
            sorted_seq.take(m + 1),
        ));
    }
    m = m + 1;
        }
        proof {
    assert(sorted_seq.take(sorted_seq.len() as int) =~= sorted_seq);
        }
        let joined = crate::strutil::join_chars(&rendered, '&');
        Some(crate::strutil::string_from_chars(&joined))
    }

}

/// Canonicalizes a parsed URL: the host is lower-cased, the fragment is
/// removed, the query pairs are sorted lexicographically and rejoined
/// as `k=v&k=v` (removed entirely when no pairs remain), and the
/// serialized form is rebuilt from the canonical components.
pub fn canonicalize_url(p: &UrlParts) -> (r: UrlParts)
    ensures
        r@ == canonical_view(p@),
{
    let host_chars = crate::strutil::chars_of(p.host.as_str());
    let host_low = crate::strutil::to_lower(&host_chars);
    let host_l = crate::strutil::string_from_chars(&host_low);

    let newq: Option<String> = canonical_query_exec(&p.query);
    proof {
        assert(crate::parser::opt_view(p.query) == p@.query);
    }

    // rebuild the serialized form
    let mut ser = String::from_str(p.scheme.as_str());
    if host_low.len() > 0 {
        ser.append("://");
        ser.append(host_l.as_str());
        match p.port {
            Some(pt) => {
                ser.append(":");
                ser.append(crate::strutil::u64_to_dec(pt as u64).as_str());
            },
            None => {},
        }
    } else {
        ser.append(":");
    }
    ser.append(p.path.as_str());
    match &newq {
        Some(q) => {
            ser.append("?");
            ser.append(q.as_str());
        },
        None => {},
    }

    let r = UrlParts {
        serialized: ser,
        scheme: String::from_str(p.scheme.as_str()),
        host: host_l,
        port: p.port,
        path: String::from_str(p.path.as_str()),
        query: newq,
        fragment: None,
    };
    proof {
        reveal_strlit(":");
        reveal_strlit("?");
        assert(":"@ =~= seq![':']);
        assert("?"@ =~= seq!['?']);
        assert(r@.serialized =~= serialize_parts(
            p@.scheme,
            crate::strutil::lower_seq(p@.host),
            p@.port,
            p@.path,
            canonical_opt_query(p@.query),
        ));
        assert(r@ == canonical_view(p@));
    }
    r
}


proof fn lemma_split_no_sep(s: Seq<char>, sep: char)
    ensures
        forall|i: int, j: int|
            #![trigger crate::strutil::split_by(s, sep)[i][j]]
            0 <= i < crate::strutil::split_by(s, sep).len() && 0 <= j < crate::strutil::split_by(
                s,
                sep,
            )[i].len() ==> crate::strutil::split_by(s, sep)[i][j] != sep,
    decreases s.len(),
{
    if s.len() > 0 {
        lemma_split_no_sep(s.drop_first(), sep);
        let rest = crate::strutil::split_by(s.drop_first(), sep);
        crate::strutil::lemma_split_by_len(s.drop_first(), sep);
        let cur = crate::strutil::split_by(s, sep);
        if s[0] == sep {
            assert forall|i: int, j: int|
                0 <= i < cur.len() && 0 <= j < cur[i].len() implies #[trigger] cur[i][j]
                != sep by {
                if i > 0 {
                    assert(cur[i] == rest[i - 1]);
                }
            }
        } else {
            assert forall|i: int, j: int|
                0 <= i < cur.len() && 0 <= j < cur[i].len() implies #[trigger] cur[i][j]
                != sep by {
                if i == 0 {
                    if j > 0 {
                        assert(cur[0][j] == rest[0][j - 1]);
                    }
                } else {
                    assert(cur[i] == rest[i]);
                }
            }
        }
    }
}

proof fn lemma_no_sep_single(s: Seq<char>, sep: char)
    requires
        forall|j: int| 0 <= j < s.len() ==> s[j] != sep,
    ensures
        crate::strutil::split_by(s, sep) == seq![s],
    decreases s.len(),
{
    if s.len() == 0 {
        assert(crate::strutil::split_by(s, sep) =~~= seq![s]);
    } else {
        assert(forall|j: int| 0 <= j < s.drop_first().len() ==> s.drop_first()[j] != sep);
        lemma_no_sep_single(s.drop_first(), sep);
        assert(crate::strutil::split_by(s, sep) =~~= seq![s]);
    }
}

proof fn lemma_split_concat(p: Seq<char>, t: Seq<char>, sep: char)
    requires
        forall|j: int| 0 <= j < p.len() ==> p[j] != sep,
    ensures
        crate::strutil::split_by(p + seq![sep] + t, sep) == seq![p] + crate::strutil::split_by(
            t,
            sep,
        ),
    decreases p.len(),
{
    let whole = p + seq![sep] + t;
    if p.len() == 0 {
        assert(whole.len() > 0 && whole[0] == sep);
        assert(whole.drop_first() =~= t);
        assert(crate::strutil::split_by(whole, sep) =~~= seq![p] + crate::strutil::split_by(
            t,
            sep,
        ));
    } else {
        assert(forall|j: int|
            0 <= j < p.drop_first().len() ==> p.drop_first()[j] != sep);
        lemma_split_concat(p.drop_first(), t, sep);
        assert(whole[0] == p[0] && whole[0] != sep);
        assert(whole.drop_first() =~= p.drop_first() + seq![sep] + t);
        let rest = crate::strutil::split_by(whole.drop_first(), sep);
        crate::strutil::lemma_split_by_len(t, sep);
        assert(rest == seq![p.drop_first()] + crate::strutil::split_by(t, sep));
        assert(rest[0] == p.drop_first());
        assert(seq![p[0]] + rest[0] =~= p);
        assert(crate::strutil::split_by(whole, sep) =~~= seq![p] + crate::strutil::split_by(
            t,
            sep,
        ));
    }
}

proof fn lemma_join_split(ps: Seq<Seq<char>>, sep: char)
    requires
        ps.len() >= 1,
        forall|i: int, j: int|
            #![trigger ps[i][j]]
            0 <= i < ps.len() && 0 <= j < ps[i].len() ==> ps[i][j] != sep,
    ensures
        crate::strutil::split_by(crate::strutil::join_with(ps, sep), sep) == ps,
    decreases ps.len(),
{
    if ps.len() == 1 {
        assert(crate::strutil::join_with(ps, sep) == ps[0]);
        assert(forall|j: int| 0 <= j < ps[0].len() ==> ps[0][j] != sep);
        lemma_no_sep_single(ps[0], sep);
        assert(crate::strutil::split_by(crate::strutil::join_with(ps, sep), sep) =~~= ps);
    } else {
        assert(forall|i: int, j: int|
            #![trigger ps.drop_first()[i][j]]
            0 <= i < ps.drop_first().len() && 0 <= j < ps.drop_first()[i].len()
                ==> ps.drop_first()[i][j] != sep) by {
            assert(forall|i: int|
                0 <= i < ps.drop_first().len() ==> #[trigger] ps.drop_first()[i] == ps[i
                    + 1]);
        }
        lemma_join_split(ps.drop_first(), sep);
        assert(forall|j: int| 0 <= j < ps[0].len() ==> ps[0][j] != sep);
        lemma_split_concat(
            ps[0],
            crate::strutil::join_with(ps.drop_first(), sep),
            sep,
        );
        assert(crate::strutil::join_with(ps, sep) == ps[0] + seq![sep]
            + crate::strutil::join_with(ps.drop_first(), sep));
        assert(crate::strutil::split_by(crate::strutil::join_with(ps, sep), sep) =~~= ps);
    }
}

proof fn lemma_keep_nonempty_id(ps: Seq<Seq<char>>)
    requires
        forall|i: int| 0 <= i < ps.len() ==> (#[trigger] ps[i]).len() > 0,
    ensures
        keep_nonempty(ps) == ps,
    decreases ps.len(),
{
    if ps.len() > 0 {
        assert(forall|i: int|
            0 <= i < ps.drop_last().len() ==> (#[trigger] ps.drop_last()[i]).len() > 0);
        lemma_keep_nonempty_id(ps.drop_last());
        assert(keep_nonempty(ps) =~~= ps);
    }
}

proof fn lemma_first_index_is(s: Seq<char>, c: char, i: int)
    requires
        0 <= i < s.len(),
        s[i] == c,
        forall|j: int| 0 <= j < i ==> s[j] != c,
    ensures
        crate::strutil::first_index(s, c) == i,
{
    crate::strutil::lemma_first_index(s, c);
    let fi = crate::strutil::first_index(s, c);
    if fi == -1 {
        assert(s[i] != c);
    } else if fi < i {
        assert(s[fi] != c);
    } else if fi > i {
        assert(s[i] != c);
    }
}

proof fn lemma_kv_render(kv: (Seq<char>, Seq<char>))
    requires
        forall|j: int| 0 <= j < kv.0.len() ==> kv.0[j] != '=',
    ensures
        kv_of(render_pair(kv)) == kv,
{
    let piece = render_pair(kv);
    assert(piece[kv.0.len() as int] == '=');
    assert(forall|j: int| 0 <= j < kv.0.len() ==> piece[j] == kv.0[j] && piece[j] != '=');
    lemma_first_index_is(piece, '=', kv.0.len() as int);
    assert(piece.take(kv.0.len() as int) =~= kv.0);
    assert(piece.skip(kv.0.len() as int + 1) =~= kv.1);
}

/// Every element of `pairs_of(ps)` is the pair of the same-index piece.
proof fn lemma_pairs_of_index(ps: Seq<Seq<char>>)
    ensures
        pairs_of(ps).len() == ps.len(),
        forall|i: int| 0 <= i < ps.len() ==> #[trigger] pairs_of(ps)[i] == kv_of(ps[i]),
    decreases ps.len(),
{
    if ps.len() > 0 {
        lemma_pairs_of_index(ps.drop_last());
        assert(forall|i: int|
            0 <= i < ps.len() - 1 ==> #[trigger] ps.drop_last()[i] == ps[i]);
    }
}

proof fn lemma_render_all_index(s: Seq<(Seq<char>, Seq<char>)>)
    ensures
        render_all(s).len() == s.len(),
        forall|i: int| 0 <= i < s.len() ==> #[trigger] render_all(s)[i] == render_pair(s[i]),
    decreases s.len(),
{
    if s.len() > 0 {
        lemma_render_all_index(s.drop_last());
        assert(forall|i: int|
            0 <= i < s.len() - 1 ==> #[trigger] s.drop_last()[i] == s[i]);
    }
}

/// The elements of `insert_pair` are the old ones plus the new one.
proof fn lemma_insert_pair_elems(s: Seq<(Seq<char>, Seq<char>)>, x: (Seq<char>, Seq<char>))
    ensures
        insert_pair(s, x).len() == s.len() + 1,
        forall|y: (Seq<char>, Seq<char>)|
            #[trigger] insert_pair(s, x).contains(y) <==> (s.contains(y) || y == x),
    decreases s.len(),
{
    if s.len() == 0 {
        assert forall|y: (Seq<char>, Seq<char>)| #[trigger]
            insert_pair(s, x).contains(y) <==> (s.contains(y) || y == x) by {
            assert(insert_pair(s, x)[0] == x);
            if y == x {
                assert(insert_pair(s, x).contains(y));
            }
        }
    } else if pair_le(s.last(), x) {
        assert forall|y: (Seq<char>, Seq<char>)| #[trigger]
            insert_pair(s, x).contains(y) <==> (s.contains(y) || y == x) by {
            let r = s.push(x);
            if r.contains(y) {
                let k = choose|k: int| 0 <= k < r.len() && r[k] == y;
                if k < s.len() {
                    assert(s[k] == y);
                } else {
                    assert(y == x);
                }
            }
            if s.contains(y) {
                let k = choose|k: int| 0 <= k < s.len() && s[k] == y;
                assert(r[k] == y);
            }
            if y == x {
                assert(r[s.len() as int] == y);
            }
        }
    } else {
        lemma_insert_pair_elems(s.drop_last(), x);
        let inner = insert_pair(s.drop_last(), x);
        let r = inner.push(s.last());
        assert forall|y: (Seq<char>, Seq<char>)| #[trigger]
            insert_pair(s, x).contains(y) <==> (s.contains(y) || y == x) by {
            if r.contains(y) {
                let k = choose|k: int| 0 <= k < r.len() && r[k] == y;
                if k < inner.len() {
                    assert(inner.contains(y));
                    if s.drop_last().contains(y) {
                        let k2 = choose|k2: int|
                            0 <= k2 < s.drop_last().len() && s.drop_last()[k2] == y;
                        assert(s[k2] == y);
                    }
                } else {
                    assert(y == s.last());
                    assert(s[s.len() - 1] == y);
                }
            }
            if s.contains(y) {
                let k = choose|k: int| 0 <= k < s.len() && s[k] == y;
                if k < s.len() - 1 {
                    assert(s.drop_last()[k] == y);
                    assert(inner.contains(y));
                    let k3 = choose|k3: int| 0 <= k3 < inner.len() && inner[k3] == y;
                    assert(r[k3] == y);
                } else {
                    assert(y == s.last());
                    assert(r[r.len() - 1] == y);
                }
            }
            if y == x {
                assert(inner.contains(y));
                let k3 = choose|k3: int| 0 <= k3 < inner.len() && inner[k3] == y;
                assert(r[k3] == y);
            }
        }
    }
}

proof fn lemma_sort_pairs_elems(ps: Seq<(Seq<char>, Seq<char>)>)
    ensures
        sort_pairs(ps).len() == ps.len(),
        forall|y: (Seq<char>, Seq<char>)|
            #[trigger] sort_pairs(ps).contains(y) <==> ps.contains(y),
    decreases ps.len(),
{
    if ps.len() > 0 {
        lemma_sort_pairs_elems(ps.drop_last());
        lemma_insert_pair_elems(sort_pairs(ps.drop_last()), ps.last());
        assert forall|y: (Seq<char>, Seq<char>)| #[trigger]
            sort_pairs(ps).contains(y) <==> ps.contains(y) by {
            if sort_pairs(ps).contains(y) {
                if ps.drop_last().contains(y) {
                    let k = choose|k: int|
                        0 <= k < ps.drop_last().len() && ps.drop_last()[k] == y;
                    assert(ps[k] == y);
                } else {
                    assert(ps[ps.len() - 1] == y);
                }
            }
            if ps.contains(y) {
                let k = choose|k: int| 0 <= k < ps.len() && ps[k] == y;
                if k < ps.len() - 1 {
                    assert(ps.drop_last()[k] == y);
                }
            }
        }
    }
}

/// Sorted runs of pairs.
pub open spec fn pairs_sorted(s: Seq<(Seq<char>, Seq<char>)>) -> bool {
    forall|i: int, j: int|
        #![trigger s[i], s[j]]
        0 <= i < j < s.len() ==> pair_le(s[i], s[j])
}

proof fn lemma_pair_le_total(a: (Seq<char>, Seq<char>), b: (Seq<char>, Seq<char>))
    ensures
        pair_le(a, b) || pair_le(b, a),
{
    crate::strutil::lemma_lex_total(a.0, b.0, 0);
    crate::strutil::lemma_lex_total(a.1, b.1, 0);
}

proof fn lemma_insert_pair_sorted(s: Seq<(Seq<char>, Seq<char>)>, x: (Seq<char>, Seq<char>))
    requires
        pairs_sorted(s),
    ensures
        pairs_sorted(insert_pair(s, x)),
    decreases s.len(),
{
    if s.len() == 0 {
    } else if pair_le(s.last(), x) {
        let r = s.push(x);
        assert forall|i: int, j: int| 0 <= i < j < r.len() implies pair_le(
            #[trigger] r[i],
            #[trigger] r[j],
        ) by {
            if j < s.len() {
            } else {
                if i < s.len() - 1 {
                    assert(pair_le(s[i], s[s.len() - 1]));
                    lemma_pair_le_trans(s[i], s[s.len() - 1], x);
                }
            }
        }
    } else {
        assert(forall|i: int, j: int|
            #![trigger s.drop_last()[i], s.drop_last()[j]]
            0 <= i < j < s.drop_last().len() ==> pair_le(s.drop_last()[i], s.drop_last()[j]))
            by {
            assert(forall|i: int|
                0 <= i < s.len() - 1 ==> #[trigger] s.drop_last()[i] == s[i]);
        }
        lemma_insert_pair_sorted(s.drop_last(), x);
        lemma_insert_pair_elems(s.drop_last(), x);
        lemma_pair_le_total(s.last(), x);
        let inner = insert_pair(s.drop_last(), x);
        let r = inner.push(s.last());
        assert forall|i: int, j: int| 0 <= i < j < r.len() implies pair_le(
            #[trigger] r[i],
            #[trigger] r[j],
        ) by {
            if j == r.len() - 1 {
                assert(inner.contains(inner[i]));
                if s.drop_last().contains(inner[i]) {
                    let k = choose|k: int|
                        0 <= k < s.drop_last().len() && s.drop_last()[k] == inner[i];
                    assert(s[k] == inner[i]);
                    assert(pair_le(s[k], s[s.len() - 1]));
                } else {
                    assert(inner[i] == x);
                }
            }
        }
    }
}

proof fn lemma_pair_le_trans(
    a: (Seq<char>, Seq<char>),
    b: (Seq<char>, Seq<char>),
    c: (Seq<char>, Seq<char>),
)
    requires
        pair_le(a, b),
        pair_le(b, c),
    ensures
        pair_le(a, c),
{
    if a.0 == b.0 && b.0 == c.0 {
        lemma_lex_trans(a.1, b.1, c.1, 0);
    } else if a.0 == b.0 {
    } else if b.0 == c.0 {
    } else {
        lemma_lex_trans(a.0, b.0, c.0, 0);
        if a.0 == c.0 {
            lemma_lex_antisym_aux(a.0, b.0);
        }
    }
}

proof fn lemma_lex_trans(a: Seq<char>, b: Seq<char>, c: Seq<char>, i: int)
    requires
        crate::strutil::lex_le_from(a, b, i),
        crate::strutil::lex_le_from(b, c, i),
    ensures
        crate::strutil::lex_le_from(a, c, i),
    decreases a.len() - i,
{
    if 0 <= i && i < a.len() && i < b.len() && i < c.len() && a[i] == b[i] && b[i] == c[i] {
        lemma_lex_trans(a, b, c, i + 1);
    }
}

proof fn lemma_lex_antisym_aux(a: Seq<char>, b: Seq<char>)
    requires
        crate::strutil::lex_le(a, b),
        crate::strutil::lex_le(b, a),
    ensures
        a == b,
{
    lemma_lex_antisym_from(a, b, 0);
    assert(a =~= b);
}

proof fn lemma_lex_antisym_from(a: Seq<char>, b: Seq<char>, i: int)
    requires
        0 <= i <= a.len(),
        i <= b.len(),
        crate::strutil::lex_le_from(a, b, i),
        crate::strutil::lex_le_from(b, a, i),
    ensures
        a.len() == b.len(),
        forall|j: int| i <= j < a.len() ==> a[j] == b[j],
    decreases a.len() - i,
{
    if i < a.len() && i < b.len() && a[i] == b[i] {
        lemma_lex_antisym_from(a, b, i + 1);
    }
}

proof fn lemma_sort_pairs_sorted(ps: Seq<(Seq<char>, Seq<char>)>)
    ensures
        pairs_sorted(sort_pairs(ps)),
    decreases ps.len(),
{
    if ps.len() > 0 {
        lemma_sort_pairs_sorted(ps.drop_last());
        lemma_insert_pair_sorted(sort_pairs(ps.drop_last()), ps.last());
    }
}

proof fn lemma_sort_of_sorted(s: Seq<(Seq<char>, Seq<char>)>)
    requires
        pairs_sorted(s),
    ensures
        sort_pairs(s) == s,
    decreases s.len(),
{
    if s.len() == 0 {
        assert(sort_pairs(s) =~~= s);
    } else {
        assert(forall|i: int, j: int|
            #![trigger s.drop_last()[i], s.drop_last()[j]]
            0 <= i < j < s.drop_last().len() ==> pair_le(s.drop_last()[i], s.drop_last()[j]))
            by {
            assert(forall|i: int|
                0 <= i < s.len() - 1 ==> #[trigger] s.drop_last()[i] == s[i]);
        }
        lemma_sort_of_sorted(s.drop_last());
        if s.len() == 1 {
            assert(sort_pairs(s) =~~= s);
        } else {
            assert(pair_le(s[s.len() - 2], s[s.len() - 1]));
            assert(s.drop_last().last() == s[s.len() - 2]);
            assert(insert_pair(s.drop_last(), s.last()) == s.drop_last().push(s.last()));
            assert(sort_pairs(s) =~~= s);
        }
    }
}

/// Canonicalization is idempotent: canonicalizing a canonical URL
/// changes nothing.
pub proof fn lemma_canonicalize_idempotent(v: UrlView)
    ensures
        canonical_view(canonical_view(v)) == canonical_view(v),
{
    let v1 = canonical_view(v);
    // lower-casing is idempotent
    assert(crate::strutil::lower_seq(v1.host) =~= v1.host) by {
        assert forall|i: int| 0 <= i < v1.host.len() implies crate::strutil::lower_seq(
            v1.host,
        )[i] == v1.host[i] by {
            let c = crate::strutil::lower_seq(v.host)[i];
            assert(c == crate::strutil::lower_char(v.host[i]));
            assert(crate::strutil::lower_char(c) == c);
        }
    }
    // the canonical query is a fixed point
    assert(canonical_opt_query(v1.query) == v1.query) by {
        match v.query {
            None => {},
            Some(qs) => {
                match canonical_query(qs) {
                    None => {},
                    Some(joined) => {
                        lemma_canonical_query_fixed(qs);
                    },
                }
            },
        }
    }
    assert(canonical_view(v1) == v1);
}

/// A produced canonical query canonicalizes to itself.
proof fn lemma_canonical_query_fixed(qs: Seq<char>)
    requires
        canonical_query(qs) is Some,
    ensures
        canonical_query(canonical_query(qs)->Some_0) == canonical_query(qs),
{
    let ps = keep_nonempty(crate::strutil::split_by(qs, '&'));
    let sorted = sort_pairs(pairs_of(ps));
    let rendered = render_all(sorted);
    let joined = crate::strutil::join_with(rendered, '&');
    lemma_pairs_of_index(ps);
    lemma_sort_pairs_elems(pairs_of(ps));
    lemma_render_all_index(sorted);
    lemma_split_no_sep(qs, '&');
    lemma_keep_no_sep(crate::strutil::split_by(qs, '&'), '&');

    // keys hold no '=' and pieces hold no '&'
    assert(forall|k: int, j: int|
        #![trigger sorted[k].0[j]]
        0 <= k < sorted.len() && 0 <= j < sorted[k].0.len() ==> sorted[k].0[j] != '=') by {
        assert forall|k: int, j: int|
            0 <= k < sorted.len() && 0 <= j < sorted[k].0.len() implies sorted[k].0[j]
            != '=' by {
            assert(sorted.contains(sorted[k]));
            assert(pairs_of(ps).contains(sorted[k]));
            let k2 = choose|k2: int|
                0 <= k2 < pairs_of(ps).len() && pairs_of(ps)[k2] == sorted[k];
            assert(pairs_of(ps)[k2] == kv_of(ps[k2]));
            crate::strutil::lemma_first_index(ps[k2], '=');
        }
    }
    assert(forall|k: int, j: int|
        #![trigger rendered[k][j]]
        0 <= k < rendered.len() && 0 <= j < rendered[k].len() ==> rendered[k][j] != '&') by {
        assert forall|k: int, j: int|
            0 <= k < rendered.len() && 0 <= j < rendered[k].len() implies rendered[k][j]
            != '&' by {
            assert(rendered[k] == render_pair(sorted[k]));
            assert(sorted.contains(sorted[k]));
            assert(pairs_of(ps).contains(sorted[k]));
            let k2 = choose|k2: int|
                0 <= k2 < pairs_of(ps).len() && pairs_of(ps)[k2] == sorted[k];
            assert(pairs_of(ps)[k2] == kv_of(ps[k2]));
            let piece = ps[k2];
            let kv = kv_of(piece);
            crate::strutil::lemma_first_index(piece, '=');
            let fi = crate::strutil::first_index(piece, '=');
            if j < kv.0.len() {
                assert(rendered[k][j] == kv.0[j]);
                if fi < 0 {
                    assert(kv.0[j] == piece[j]);
                } else {
                    assert(kv.0[j] == piece[j]);
                }
            } else if j == kv.0.len() {
                assert(rendered[k][j] == '=');
            } else {
                assert(rendered[k][j] == kv.1[j - kv.0.len() - 1]);
                if fi < 0 {
                } else {
                    assert(kv.1[j - kv.0.len() - 1] == piece[fi + 1 + j - kv.0.len() - 1]);
                }
            }
        }
    }
    assert(forall|k: int| 0 <= k < rendered.len() ==> (#[trigger] rendered[k]).len() > 0) by {
        assert forall|k: int| 0 <= k < rendered.len() implies (#[trigger] rendered[k]).len()
            > 0 by {
            assert(rendered[k] == render_pair(sorted[k]));
        }
    }
    assert(rendered.len() >= 1);

    lemma_join_split(rendered, '&');
    lemma_keep_nonempty_id(rendered);
    // re-splitting the joined form gives the rendered pieces back,
    // whose pairs are the sorted pairs, already in order
    assert(pairs_of(rendered) =~~= sorted) by {
        lemma_pairs_of_index(rendered);
        assert forall|k: int| 0 <= k < rendered.len() implies pairs_of(rendered)[k]
            == sorted[k] by {
            assert(pairs_of(rendered)[k] == kv_of(rendered[k]));
            assert(rendered[k] == render_pair(sorted[k]));
            lemma_kv_render(sorted[k]);
        }
    }
    lemma_sort_pairs_sorted(pairs_of(ps));
    lemma_sort_of_sorted(sorted);
    lemma_render_all_index(sort_pairs(sorted));
    assert(render_all(sort_pairs(pairs_of(keep_nonempty(crate::strutil::split_by(
        joined,
        '&',
    ))))) == rendered);
}

proof fn lemma_keep_no_sep(ps: Seq<Seq<char>>, sep: char)
    requires
        forall|i: int, j: int|
            #![trigger ps[i][j]]
            0 <= i < ps.len() && 0 <= j < ps[i].len() ==> ps[i][j] != sep,
    ensures
        forall|i: int, j: int|
            #![trigger keep_nonempty(ps)[i][j]]
            0 <= i < keep_nonempty(ps).len() && 0 <= j < keep_nonempty(ps)[i].len()
                ==> keep_nonempty(ps)[i][j] != sep,
        keep_nonempty(ps).len() <= ps.len(),
    decreases ps.len(),
{
    if ps.len() > 0 {
        assert(forall|i: int, j: int|
            #![trigger ps.drop_last()[i][j]]
            0 <= i < ps.drop_last().len() && 0 <= j < ps.drop_last()[i].len()
                ==> ps.drop_last()[i][j] != sep) by {
            assert(forall|i: int|
                0 <= i < ps.len() - 1 ==> #[trigger] ps.drop_last()[i] == ps[i]);
        }
        lemma_keep_no_sep(ps.drop_last(), sep);
    }
}

} // verus!
