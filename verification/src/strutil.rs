//! Character-level string helpers: conversions between `String` and
//! `Vec<char>`, ASCII case folding, substring search, and integer
//! formatting. All text logic in this crate works over `Vec<char>`,
//! whose view is a `Seq<char>`.

use vstd::prelude::*;

verus! {

/// Relies on str::chars (std): yields the characters of the string in order.
#[verifier::external_body]
pub fn chars_of(s: &str) -> (r: Vec<char>)
    ensures
        r@ == s@,
{
    s.chars().collect()
}

/// Relies on String::from_iter (std): builds the string holding exactly
/// the given characters in order.
#[verifier::external_body]
pub fn string_from_chars(v: &Vec<char>) -> (r: String)
    ensures
        r@ == v@,
{
    v.iter().collect()
}

/// A whitespace character, as std's char::is_whitespace defines it:
/// the Unicode White_Space code points.
pub open spec fn is_whitespace_char(c: char) -> bool {
    ||| 0x9 <= (c as u32) <= 0xD
    ||| c == ' '
    ||| (c as u32) == 0x85
    ||| (c as u32) == 0xA0
    ||| (c as u32) == 0x1680
    ||| 0x2000 <= (c as u32) <= 0x200A
    ||| (c as u32) == 0x2028
    ||| (c as u32) == 0x2029
    ||| (c as u32) == 0x202F
    ||| (c as u32) == 0x205F
    ||| (c as u32) == 0x3000
}

/// The text without its leading whitespace.
pub open spec fn strip_leading_ws(s: Seq<char>) -> Seq<char>
    decreases s.len(),
{
    if s.len() > 0 && is_whitespace_char(s[0]) {
        strip_leading_ws(s.drop_first())
    } else {
        s
    }
}

/// The text without its trailing whitespace.
pub open spec fn strip_trailing_ws(s: Seq<char>) -> Seq<char>
    decreases s.len(),
{
    if s.len() > 0 && is_whitespace_char(s.last()) {
        strip_trailing_ws(s.drop_last())
    } else {
        s
    }
}

/// The text without leading and trailing whitespace. A text whose ends
/// are not whitespace is its own trimmed form.
pub open spec fn trimmed(s: Seq<char>) -> Seq<char> {
    strip_trailing_ws(strip_leading_ws(s))
}

/// Relies on str::trim (std): removes leading and trailing whitespace,
/// whitespace being the Unicode White_Space property that
/// `is_whitespace_char` enumerates.
#[verifier::external_body]
pub fn trim_str(s: &str) -> (r: String)
    ensures
        r@ == trimmed(s@),
{
    s.trim().to_string()
}

/// Relies on str's PartialEq (std): two string slices are equal exactly
/// when they hold the same characters.
#[verifier::external_body]
pub fn str_eq(a: &str, b: &str) -> (r: bool)
    ensures
        r == (a@ == b@),
{
    a == b
}

/// Whether two character vectors hold the same characters.
pub fn chars_eq(a: &Vec<char>, b: &Vec<char>) -> (r: bool)
    ensures
        r == (a@ == b@),
{
    if a.len() != b.len() {
        return false;
    }
    let mut i: usize = 0;
    while i < a.len()
        invariant
            a@.len() == b@.len(),
            i <= a@.len(),
            forall|k: int| 0 <= k < i ==> a@[k] == b@[k],
        decreases a.len() - i,
    {
        if a[i] != b[i] {
            return false;
        }
        i = i + 1;
    }
    proof {
        assert(a@ =~= b@);
    }
    true
}

/// The first `n` characters.
pub fn take_chars(v: &Vec<char>, n: usize) -> (r: Vec<char>)
    requires
        n <= v@.len(),
    ensures
        r@ == v@.take(n as int),
{
    let mut out: Vec<char> = Vec::new();
    let mut i: usize = 0;
    while i < n
        invariant
            n <= v@.len(),
            i <= n,
            out@ =~= v@.take(i as int),
        decreases n - i,
    {
        out.push(v[i]);
        proof {
            assert(v@.take(i + 1) =~= v@.take(i as int).push(v@[i as int]));
        }
        i = i + 1;
    }
    out
}

/// The characters from index `n` on.
pub fn skip_chars(v: &Vec<char>, n: usize) -> (r: Vec<char>)
    requires
        n <= v@.len(),
    ensures
        r@ == v@.skip(n as int),
{
    let mut out: Vec<char> = Vec::new();
    let mut i: usize = n;
    proof {
        assert(out@ =~= v@.subrange(n as int, n as int));
    }
    while i < v.len()
        invariant
            n <= i <= v@.len(),
            out@ =~= v@.subrange(n as int, i as int),
        decreases v.len() - i,
    {
        out.push(v[i]);
        proof {
            assert(v@.subrange(n as int, i + 1) =~= v@.subrange(n as int, i as int).push(
                v@[i as int],
            ));
        }
        i = i + 1;
    }
    proof {
        assert(v@.subrange(n as int, v@.len() as int) =~= v@.skip(n as int));
    }
    out
}

/// ASCII lower-casing of a single character; everything outside 'A'..'Z'
/// is left alone.
pub open spec fn lower_char(c: char) -> char {
    if 'A' <= c && c <= 'Z' {
        ((c as u8) + 32) as char
    } else {
        c
    }
}

/// A sequence of characters, ASCII lower-cased.
pub open spec fn lower_seq(s: Seq<char>) -> Seq<char> {
    s.map_values(|c: char| lower_char(c))
}

pub fn to_lower_char(c: char) -> (r: char)
    ensures
        r == lower_char(c),
{
    if 'A' <= c && c <= 'Z' {
        ((c as u8) + 32) as char
    } else {
        c
    }
}

pub fn to_lower(v: &Vec<char>) -> (r: Vec<char>)
    ensures
        r@ == lower_seq(v@),
{
    let mut out: Vec<char> = Vec::new();
    let mut i: usize = 0;
    while i < v.len()
        invariant
            i <= v.len(),
            out@ =~= lower_seq(v@).take(i as int),
        decreases v.len() - i,
    {
        out.push(to_lower_char(v[i]));
        i = i + 1;
    }
    proof {
        assert(out@ =~= lower_seq(v@));
    }
    out
}

/// `needle` occurs in `hay` starting at position `i`.
pub open spec fn occurs_at(hay: Seq<char>, needle: Seq<char>, i: int) -> bool {
    0 <= i && i + needle.len() <= hay.len() && hay.subrange(i, i + needle.len() as int)
        == needle
}

/// `needle` occurs somewhere in `hay`.
pub open spec fn occurs(hay: Seq<char>, needle: Seq<char>) -> bool {
    exists|i: int| occurs_at(hay, needle, i)
}

/// Substring search: does `needle` occur anywhere in `hay`?
pub fn contains_chars(hay: &Vec<char>, needle: &Vec<char>) -> (r: bool)
    ensures
        r == occurs(hay@, needle@),
{
    if needle.len() > hay.len() {
        proof {
            assert(forall|i: int| !occurs_at(hay@, needle@, i));
        }
        return false;
    }
    if needle.len() == 0 {
        proof {
            assert(hay@.subrange(0, 0) =~= needle@);
            assert(occurs_at(hay@, needle@, 0));
        }
        return true;
    }
    let mut i: usize = 0;
    while i <= hay.len() - needle.len()
        invariant
            1 <= needle.len() <= hay.len(),
            i <= hay.len() - needle.len() + 1,
            forall|k: int| 0 <= k < i ==> !occurs_at(hay@, needle@, k),
        decreases hay.len() - needle.len() + 1 - i,
    {
        let mut j: usize = 0;
        let mut hit: bool = true;
        while j < needle.len()
            invariant
                needle.len() <= hay.len(),
                i + needle.len() <= hay.len(),
                j <= needle.len(),
                hit ==> hay@.subrange(i as int, i + j as int) == needle@.take(j as int),
                !hit ==> !occurs_at(hay@, needle@, i as int),
            decreases needle.len() - j,
        {
            if hay[i + j] != needle[j] {
                proof {
                    assert(hay@.subrange(i as int, i + needle@.len()) != needle@) by {
                        assert(hay@[i + j] != needle@[j as int]);
                        assert(hay@.subrange(i as int, i + needle@.len())[j as int]
                            == hay@[i + j]);
                    }
                }
                hit = false;
            } else {
                proof {
                    if hit {
                        assert(hay@.subrange(i as int, i + (j + 1) as int) =~= needle@.take(
                            (j + 1) as int,
                        ));
                    }
                }
            }
            j = j + 1;
        }
        if hit {
            proof {
                assert(needle@.take(needle@.len() as int) =~= needle@);
                assert(occurs_at(hay@, needle@, i as int));
            }
            return true;
        }
        i = i + 1;
    }
    proof {
        assert(forall|k: int| i <= k ==> !occurs_at(hay@, needle@, k));
    }
    false
}

/// The index of the first occurrence of `c` in `s`, or -1 when absent.
pub open spec fn first_index(s: Seq<char>, c: char) -> int
    decreases s.len(),
{
    if s.len() == 0 {
        -1
    } else if s[0] == c {
        0
    } else {
        let r = first_index(s.drop_first(), c);
        if r < 0 {
            -1
        } else {
            r + 1
        }
    }
}

pub proof fn lemma_first_index(s: Seq<char>, c: char)
    ensures
        first_index(s, c) == -1 ==> forall|j: int| 0 <= j < s.len() ==> s[j] != c,
        first_index(s, c) >= 0 ==> first_index(s, c) < s.len() && s[first_index(s, c)] == c
            && forall|j: int| 0 <= j < first_index(s, c) ==> s[j] != c,
    decreases s.len(),
{
    if s.len() > 0 && s[0] != c {
        lemma_first_index(s.drop_first(), c);
        let r = first_index(s.drop_first(), c);
        if r < 0 {
            assert forall|j: int| 0 <= j < s.len() implies s[j] != c by {
                if j > 0 {
                    assert(s.drop_first()[j - 1] == s[j]);
                }
            }
        } else {
            assert(s[r + 1] == s.drop_first()[r]);
            assert forall|j: int| 0 <= j < r + 1 implies s[j] != c by {
                if j > 0 {
                    assert(s.drop_first()[j - 1] == s[j]);
                }
            }
        }
    }
}

/// The first occurrence of `c` in `v`.
pub fn find_char(v: &Vec<char>, c: char) -> (r: Option<usize>)
    ensures
        match r {
            Some(i) => i == first_index(v@, c),
            None => first_index(v@, c) == -1,
        },
{
    proof {
        lemma_first_index(v@, c);
    }
    let mut i: usize = 0;
    while i < v.len()
        invariant
            i <= v.len(),
            forall|j: int| 0 <= j < i ==> v@[j] != c,
            first_index(v@, c) == -1 ==> forall|j: int| 0 <= j < v@.len() ==> v@[j] != c,
            first_index(v@, c) >= 0 ==> first_index(v@, c) < v@.len() && v@[first_index(v@, c)]
                == c && forall|j: int| 0 <= j < first_index(v@, c) ==> v@[j] != c,
        decreases v.len() - i,
    {
        if v[i] == c {
            proof {
                let fi = first_index(v@, c);
                if fi == -1 {
                    assert(v@[i as int] != c);
                } else if fi < i {
                    assert(v@[fi] != c);
                } else if fi > i {
                    assert(v@[i as int] != c);
                }
            }
            return Some(i);
        }
        i = i + 1;
    }
    proof {
        let fi = first_index(v@, c);
        if fi >= 0 {
            assert(v@[fi] != c);
        }
    }
    None
}

/// Splitting a sequence on a separator character. The result always
/// has at least one piece; separators are not part of any piece.
pub open spec fn split_by(s: Seq<char>, sep: char) -> Seq<Seq<char>>
    decreases s.len(),
{
    if s.len() == 0 {
        seq![Seq::<char>::empty()]
    } else if s[0] == sep {
        seq![Seq::<char>::empty()] + split_by(s.drop_first(), sep)
    } else {
        let rest = split_by(s.drop_first(), sep);
        seq![seq![s[0]] + rest[0]] + rest.drop_first()
    }
}

pub proof fn lemma_split_by_len(s: Seq<char>, sep: char)
    ensures
        split_by(s, sep).len() >= 1,
    decreases s.len(),
{
    if s.len() > 0 {
        lemma_split_by_len(s.drop_first(), sep);
    }
}

/// How `split_by` grows when one character is appended at the end.
pub proof fn lemma_split_by_push(s: Seq<char>, sep: char, c: char)
    ensures
        split_by(s, sep).len() >= 1,
        c == sep ==> split_by(s.push(c), sep) == split_by(s, sep).push(Seq::<char>::empty()),
        c != sep ==> split_by(s.push(c), sep) == split_by(s, sep).update(
            split_by(s, sep).len() - 1,
            split_by(s, sep).last().push(c),
        ),
    decreases s.len(),
{
    lemma_split_by_len(s, sep);
    if s.len() == 0 {
        assert(s =~= Seq::<char>::empty());
        assert(s.push(c).drop_first() =~= Seq::<char>::empty());
        assert(split_by(Seq::<char>::empty(), sep) == seq![Seq::<char>::empty()]);
        if c == sep {
            assert(split_by(s.push(c), sep) =~~= split_by(s, sep).push(Seq::<char>::empty()));
        } else {
            assert(split_by(s.push(c), sep) =~~= split_by(s, sep).update(
                0,
                split_by(s, sep).last().push(c),
            ));
        }
    } else {
        lemma_split_by_push(s.drop_first(), sep, c);
        lemma_split_by_len(s.drop_first(), sep);
        assert(s.push(c).drop_first() =~= s.drop_first().push(c));
        assert(s.push(c)[0] == s[0]);
        let restp = split_by(s.drop_first().push(c), sep);
        let rest = split_by(s.drop_first(), sep);
        if s[0] == sep {
            if c == sep {
                assert(split_by(s.push(c), sep) =~~= split_by(s, sep).push(
                    Seq::<char>::empty(),
                ));
            } else {
                assert(split_by(s.push(c), sep) =~~= split_by(s, sep).update(
                    split_by(s, sep).len() - 1,
                    split_by(s, sep).last().push(c),
                ));
            }
        } else {
            if c == sep {
                assert(restp[0] == rest[0]);
                assert(split_by(s.push(c), sep) =~~= split_by(s, sep).push(
                    Seq::<char>::empty(),
                ));
            } else {
                if rest.len() == 1 {
                    assert(restp[0] == rest[0].push(c));
                    assert(split_by(s.push(c), sep) =~~= split_by(s, sep).update(
                        split_by(s, sep).len() - 1,
                        split_by(s, sep).last().push(c),
                    ));
                } else {
                    assert(restp[0] == rest[0]);
                    assert(split_by(s.push(c), sep) =~~= split_by(s, sep).update(
                        split_by(s, sep).len() - 1,
                        split_by(s, sep).last().push(c),
                    ));
                }
            }
        }
    }
}

/// The views of a vector of character vectors.
pub open spec fn views_of(v: Seq<Vec<char>>) -> Seq<Seq<char>> {
    v.map_values(|p: Vec<char>| p@)
}

/// Splits `v` on the separator `sep`.
pub fn split_chars(v: &Vec<char>, sep: char) -> (r: Vec<Vec<char>>)
    ensures
        views_of(r@) == split_by(v@, sep),
{
    let mut out: Vec<Vec<char>> = Vec::new();
    let mut cur: Vec<char> = Vec::new();
    let mut i: usize = 0;
    proof {
        assert(v@.take(0) =~= Seq::<char>::empty());
        assert(views_of(out@).push(cur@) =~~= split_by(v@.take(0), sep));
    }
    while i < v.len()
        invariant
            i <= v.len(),
            views_of(out@).push(cur@) == split_by(v@.take(i as int), sep),
        decreases v.len() - i,
    {
        let c = v[i];
        proof {
            assert(v@.take(i + 1) =~= v@.take(i as int).push(v@[i as int]));
            lemma_split_by_push(v@.take(i as int), sep, c);
        }
        if c == sep {
            out.push(cur);
            cur = Vec::new();
            proof {
                assert(views_of(out@).push(cur@) =~~= split_by(v@.take(i + 1), sep));
            }
        } else {
            cur.push(c);
            proof {
                let prev = split_by(v@.take(i as int), sep);
                assert(prev.last() == cur@.drop_last());
                assert(cur@.drop_last().push(c) =~= cur@);
                assert(views_of(out@).push(cur@) =~~= split_by(v@.take(i + 1), sep));
            }
        }
        i = i + 1;
    }
    proof {
        assert(v@.take(v@.len() as int) =~= v@);
    }
    out.push(cur);
    proof {
        assert(views_of(out@) =~~= views_of(out@.drop_last()).push(out@.last()@));
    }
    out
}

/// A character on which SimHash tokenization splits: ASCII characters
/// that are not letters or digits. Characters beyond ASCII count as
/// token characters.
pub open spec fn is_token_sep(c: char) -> bool {
    (c as u32) <= 127 && !('a' <= c && c <= 'z') && !('A' <= c && c <= 'Z') && !('0' <= c
        && c <= '9')
}

pub fn is_token_sep_exec(c: char) -> (r: bool)
    ensures
        r == is_token_sep(c),
{
    (c as u32) <= 127 && !('a' <= c && c <= 'z') && !('A' <= c && c <= 'Z') && !('0' <= c
        && c <= '9')
}

/// Splitting a sequence at every non-alphanumeric ASCII character.
pub open spec fn split_seps(s: Seq<char>) -> Seq<Seq<char>>
    decreases s.len(),
{
    if s.len() == 0 {
        seq![Seq::<char>::empty()]
    } else if is_token_sep(s[0]) {
        seq![Seq::<char>::empty()] + split_seps(s.drop_first())
    } else {
        let rest = split_seps(s.drop_first());
        seq![seq![s[0]] + rest[0]] + rest.drop_first()
    }
}

pub proof fn lemma_split_seps_len(s: Seq<char>)
    ensures
        split_seps(s).len() >= 1,
    decreases s.len(),
{
    if s.len() > 0 {
        lemma_split_seps_len(s.drop_first());
    }
}

/// How `split_seps` grows when one character is appended at the end.
pub proof fn lemma_split_seps_push(s: Seq<char>, c: char)
    ensures
        split_seps(s).len() >= 1,
        is_token_sep(c) ==> split_seps(s.push(c)) == split_seps(s).push(Seq::<char>::empty()),
        !is_token_sep(c) ==> split_seps(s.push(c)) == split_seps(s).update(
            split_seps(s).len() - 1,
            split_seps(s).last().push(c),
        ),
    decreases s.len(),
{
    lemma_split_seps_len(s);
    if s.len() == 0 {
        assert(s =~= Seq::<char>::empty());
        assert(s.push(c).drop_first() =~= Seq::<char>::empty());
        assert(split_seps(Seq::<char>::empty()) == seq![Seq::<char>::empty()]);
        if is_token_sep(c) {
            assert(split_seps(s.push(c)) =~~= split_seps(s).push(Seq::<char>::empty()));
        } else {
            assert(split_seps(s.push(c)) =~~= split_seps(s).update(
                0,
                split_seps(s).last().push(c),
            ));
        }
    } else {
        lemma_split_seps_push(s.drop_first(), c);
        lemma_split_seps_len(s.drop_first());
        assert(s.push(c).drop_first() =~= s.drop_first().push(c));
        assert(s.push(c)[0] == s[0]);
        let restp = split_seps(s.drop_first().push(c));
        let rest = split_seps(s.drop_first());
        if is_token_sep(s[0]) {
            if is_token_sep(c) {
                assert(split_seps(s.push(c)) =~~= split_seps(s).push(Seq::<char>::empty()));
            } else {
                assert(split_seps(s.push(c)) =~~= split_seps(s).update(
                    split_seps(s).len() - 1,
                    split_seps(s).last().push(c),
                ));
            }
        } else {
            if is_token_sep(c) {
                assert(restp[0] == rest[0]);
                assert(split_seps(s.push(c)) =~~= split_seps(s).push(Seq::<char>::empty()));
            } else {
                if rest.len() == 1 {
                    assert(restp[0] == rest[0].push(c));
                    assert(split_seps(s.push(c)) =~~= split_seps(s).update(
                        split_seps(s).len() - 1,
                        split_seps(s).last().push(c),
                    ));
                } else {
                    assert(restp[0] == rest[0]);
                    assert(split_seps(s.push(c)) =~~= split_seps(s).update(
                        split_seps(s).len() - 1,
                        split_seps(s).last().push(c),
                    ));
                }
            }
        }
    }
}

pub proof fn lemma_split_seps_count(s: Seq<char>)
    ensures
        split_seps(s).len() <= s.len() + 1,
    decreases s.len(),
{
    if s.len() > 0 {
        lemma_split_seps_count(s.drop_first());
    }
}

/// Splits `v` at every non-alphanumeric ASCII character.
pub fn split_tokens(v: &Vec<char>) -> (r: Vec<Vec<char>>)
    ensures
        views_of(r@) == split_seps(v@),
{
    let mut out: Vec<Vec<char>> = Vec::new();
    let mut cur: Vec<char> = Vec::new();
    let mut i: usize = 0;
    proof {
        assert(v@.take(0) =~= Seq::<char>::empty());
        assert(views_of(out@).push(cur@) =~~= split_seps(v@.take(0)));
    }
    while i < v.len()
        invariant
            i <= v.len(),
            views_of(out@).push(cur@) == split_seps(v@.take(i as int)),
        decreases v.len() - i,
    {
        let c = v[i];
        proof {
            assert(v@.take(i + 1) =~= v@.take(i as int).push(v@[i as int]));
            lemma_split_seps_push(v@.take(i as int), c);
        }
        if is_token_sep_exec(c) {
            out.push(cur);
            cur = Vec::new();
            proof {
                assert(views_of(out@).push(cur@) =~~= split_seps(v@.take(i + 1)));
            }
        } else {
            cur.push(c);
            proof {
                let prev = split_seps(v@.take(i as int));
                assert(prev.last() == cur@.drop_last());
                assert(cur@.drop_last().push(c) =~= cur@);
                assert(views_of(out@).push(cur@) =~~= split_seps(v@.take(i + 1)));
            }
        }
        i = i + 1;
    }
    proof {
        assert(v@.take(v@.len() as int) =~= v@);
    }
    out.push(cur);
    proof {
        assert(views_of(out@) =~~= views_of(out@.drop_last()).push(out@.last()@));
    }
    out
}

/// Joining pieces with a separator: the inverse direction of `split_by`.
pub open spec fn join_with(pieces: Seq<Seq<char>>, sep: char) -> Seq<char>
    decreases pieces.len(),
{
    if pieces.len() == 0 {
        Seq::<char>::empty()
    } else if pieces.len() == 1 {
        pieces[0]
    } else {
        pieces[0] + seq![sep] + join_with(pieces.drop_first(), sep)
    }
}

pub proof fn lemma_join_with_push(pieces: Seq<Seq<char>>, sep: char, p: Seq<char>)
    ensures
        pieces.len() == 0 ==> join_with(pieces.push(p), sep) == p,
        pieces.len() > 0 ==> join_with(pieces.push(p), sep) == join_with(pieces, sep)
            + seq![sep] + p,
    decreases pieces.len(),
{
    if pieces.len() == 0 {
        assert(join_with(pieces.push(p), sep) == p);
    } else {
        lemma_join_with_push(pieces.drop_first(), sep, p);
        assert(pieces.push(p).drop_first() =~= pieces.drop_first().push(p));
        if pieces.len() == 1 {
            assert(join_with(pieces.push(p), sep) =~= join_with(pieces, sep) + seq![sep] + p);
        } else {
            assert(join_with(pieces.push(p), sep) =~= join_with(pieces, sep) + seq![sep] + p);
        }
    }
}

/// Joins character vectors with a separator character.
pub fn join_chars(pieces: &Vec<Vec<char>>, sep: char) -> (r: Vec<char>)
    ensures
        r@ == join_with(views_of(pieces@), sep),
{
    let mut out: Vec<char> = Vec::new();
    let mut i: usize = 0;
    while i < pieces.len()
        invariant
            i <= pieces.len(),
            out@ == join_with(views_of(pieces@).take(i as int), sep),
        decreases pieces.len() - i,
    {
        proof {
            assert(views_of(pieces@).take(i + 1) =~= views_of(pieces@).take(i as int).push(
                pieces@[i as int]@,
            ));
            lemma_join_with_push(views_of(pieces@).take(i as int), sep, pieces@[i as int]@);
        }
        if i > 0 {
            out.push(sep);
        }
        let mut j: usize = 0;
        let piece = &pieces[i];
        while j < piece.len()
            invariant
                j <= piece.len(),
                piece@ == pieces@[i as int]@,
                i < pieces.len(),
                out@ == if i == 0 {
                    piece@.take(j as int)
                } else {
                    join_with(views_of(pieces@).take(i as int), sep) + seq![sep]
                        + piece@.take(j as int)
                },
            decreases piece.len() - j,
        {
            out.push(piece[j]);
            proof {
                assert(piece@.take(j + 1) =~= piece@.take(j as int).push(piece@[j as int]));
            }
            j = j + 1;
        }
        proof {
            assert(piece@.take(piece@.len() as int) =~= piece@);
        }
        i = i + 1;
    }
    proof {
        assert(views_of(pieces@).take(pieces@.len() as int) =~= views_of(pieces@));
    }
    out
}

/// Lexicographic order on character sequences, compared from index `i` on.
pub open spec fn lex_le_from(a: Seq<char>, b: Seq<char>, i: int) -> bool
    decreases a.len() - i,
{
    if i < 0 {
        true
    } else if i >= a.len() {
        true
    } else if i >= b.len() {
        false
    } else if a[i] != b[i] {
        a[i] < b[i]
    } else {
        lex_le_from(a, b, i + 1)
    }
}

/// Lexicographic order on character sequences.
pub open spec fn lex_le(a: Seq<char>, b: Seq<char>) -> bool {
    lex_le_from(a, b, 0)
}

/// `lex_le` compares character vectors.
pub fn lex_le_exec(a: &Vec<char>, b: &Vec<char>) -> (r: bool)
    ensures
        r == lex_le(a@, b@),
{
    let mut i: usize = 0;
    while i < a.len() && i < b.len()
        invariant
            i <= a.len(),
            i <= b.len(),
            lex_le(a@, b@) == lex_le_from(a@, b@, i as int),
        decreases a.len() - i,
    {
        if a[i] < b[i] {
            return true;
        }
        if b[i] < a[i] {
            return false;
        }
        i = i + 1;
    }
    a.len() <= b.len()
}

/// `lex_le` is total: of any two sequences, one is less-or-equal the
/// other.
pub proof fn lemma_lex_total(a: Seq<char>, b: Seq<char>, i: int)
    ensures
        lex_le_from(a, b, i) || lex_le_from(b, a, i),
    decreases a.len() - i,
{
    if 0 <= i < a.len() && i < b.len() && a[i] == b[i] {
        lemma_lex_total(a, b, i + 1);
    }
}

/// ASCII upper-casing of a single character; everything outside 'a'..'z'
/// is left alone.
pub open spec fn upper_char(c: char) -> char {
    if 'a' <= c && c <= 'z' {
        ((c as u8) - 32) as char
    } else {
        c
    }
}

/// A sequence of characters, ASCII upper-cased.
pub open spec fn upper_seq(s: Seq<char>) -> Seq<char> {
    s.map_values(|c: char| upper_char(c))
}

pub fn to_upper(v: &Vec<char>) -> (r: Vec<char>)
    ensures
        r@ == upper_seq(v@),
{
    let mut out: Vec<char> = Vec::new();
    let mut i: usize = 0;
    while i < v.len()
        invariant
            i <= v.len(),
            out@ =~= upper_seq(v@).take(i as int),
        decreases v.len() - i,
    {
        let c = v[i];
        if 'a' <= c && c <= 'z' {
            out.push(((c as u8) - 32) as char);
        } else {
            out.push(c);
        }
        i = i + 1;
    }
    proof {
        assert(out@ =~= upper_seq(v@));
    }
    out
}

/// Whether some string in the vector holds exactly these characters.
pub fn vec_contains_str(v: &Vec<String>, s: &str) -> (r: bool)
    ensures
        r == v@.map_values(|x: String| x@).contains(s@),
{
    let mut i: usize = 0;
    while i < v.len()
        invariant
            i <= v@.len(),
            forall|k: int| 0 <= k < i ==> (#[trigger] v@[k]@) != s@,
        decreases v@.len() - i,
    {
        if str_eq(v[i].as_str(), s) {
            proof {
                assert(v@.map_values(|x: String| x@)[i as int] == s@);
            }
            return true;
        }
        i = i + 1;
    }
    proof {
        let mapped = v@.map_values(|x: String| x@);
        assert forall|k: int| 0 <= k < mapped.len() implies #[trigger] mapped[k] != s@ by {
            assert(mapped[k] == v@[k]@);
        }
    }
    false
}

/// The decimal representation of a signed value.
pub fn i64_to_dec(n: i64) -> (r: String)
    ensures
        n >= 0 ==> r@ == digits_in_base(n as int, 10),
        n < 0 ==> r@ == seq!['-'] + digits_in_base(-(n as int), 10),
{
    if n >= 0 {
        u64_to_dec(n as u64)
    } else {
        let mag: u64 = if n == i64::MIN {
            9223372036854775808u64
        } else {
            (-n) as u64
        };
        let digits = u64_to_dec_chars(mag);
        let mut v: Vec<char> = Vec::new();
        v.push('-');
        let mut i: usize = 0;
        while i < digits.len()
            invariant
                i <= digits@.len(),
                v@ =~= seq!['-'] + digits@.take(i as int),
            decreases digits@.len() - i,
        {
            v.push(digits[i]);
            proof {
                assert(digits@.take(i + 1) =~= digits@.take(i as int).push(
                    digits@[i as int],
                ));
            }
            i = i + 1;
        }
        proof {
            assert(digits@.take(digits@.len() as int) =~= digits@);
        }
        string_from_chars(&v)
    }
}

/// The character for a single digit below the base (supports up to 16).
pub open spec fn digit_char(d: int) -> char {
    if d == 0 {
        '0'
    } else if d == 1 {
        '1'
    } else if d == 2 {
        '2'
    } else if d == 3 {
        '3'
    } else if d == 4 {
        '4'
    } else if d == 5 {
        '5'
    } else if d == 6 {
        '6'
    } else if d == 7 {
        '7'
    } else if d == 8 {
        '8'
    } else if d == 9 {
        '9'
    } else if d == 10 {
        'a'
    } else if d == 11 {
        'b'
    } else if d == 12 {
        'c'
    } else if d == 13 {
        'd'
    } else if d == 14 {
        'e'
    } else {
        'f'
    }
}

/// Digits of `n` in the given base, most significant first.
pub open spec fn digits_in_base(n: int, base: int) -> Seq<char>
    decreases n,
    via digits_in_base_decreases
{
    if base < 2 || n < base {
        seq![digit_char(if n < 0 { 0 } else { n % base })]
    } else {
        digits_in_base(n / base, base).push(digit_char(n % base))
    }
}

#[via_fn]
proof fn digits_in_base_decreases(n: int, base: int) {
    if !(base < 2 || n < base) {
        assert(0 <= n / base < n) by (nonlinear_arith)
            requires
                n >= base && base >= 2,
        ;
    }
}

pub fn digit_char_exec(d: u64) -> (r: char)
    requires
        d < 16,
    ensures
        r == digit_char(d as int),
{
    if d == 0 {
        '0'
    } else if d == 1 {
        '1'
    } else if d == 2 {
        '2'
    } else if d == 3 {
        '3'
    } else if d == 4 {
        '4'
    } else if d == 5 {
        '5'
    } else if d == 6 {
        '6'
    } else if d == 7 {
        '7'
    } else if d == 8 {
        '8'
    } else if d == 9 {
        '9'
    } else if d == 10 {
        'a'
    } else if d == 11 {
        'b'
    } else if d == 12 {
        'c'
    } else if d == 13 {
        'd'
    } else if d == 14 {
        'e'
    } else {
        'f'
    }
}

fn to_base(n: u64, base: u64) -> (r: Vec<char>)
    requires
        2 <= base <= 16,
    ensures
        r@ == digits_in_base(n as int, base as int),
    decreases n,
{
    if n < base {
        let mut v: Vec<char> = Vec::new();
        v.push(digit_char_exec(n % base));
        proof {
            assert(n % base == n) by (nonlinear_arith)
                requires
                    0 <= n < base,
            ;
            assert(v@ =~= digits_in_base(n as int, base as int));
        }
        v
    } else {
        proof {
            assert(n / base < n && n / base >= 0) by (nonlinear_arith)
                requires
                    n >= base && base >= 2,
            ;
        }
        let mut v = to_base(n / base, base);
        v.push(digit_char_exec(n % base));
        v
    }
}

/// Decimal digits of `n`, as characters.
pub fn u64_to_dec_chars(n: u64) -> (r: Vec<char>)
    ensures
        r@ == digits_in_base(n as int, 10),
{
    to_base(n, 10)
}

/// Decimal representation of `n`.
pub fn u64_to_dec(n: u64) -> (r: String)
    ensures
        r@ == digits_in_base(n as int, 10),
{
    let v = u64_to_dec_chars(n);
    string_from_chars(&v)
}

/// Lower-case hexadecimal representation of `n`.
pub fn u64_to_hex(n: u64) -> (r: String)
    ensures
        r@ == digits_in_base(n as int, 16),
{
    let v = to_base(n, 16);
    string_from_chars(&v)
}

} // verus!
