//! The frontier snapshot's persistent byte format: little-endian
//! length-prefixed UTF-8 strings and single-byte priorities. Encoding
//! and decoding are verified inverses, so a stored blob loads back to
//! the exact snapshot it was taken from.

use vstd::prelude::*;
use vstd::utf8::decode_utf8;
use vstd::utf8::encode_utf8;
use vstd::utf8::encode_utf8_decode_utf8;
use vstd::utf8::encode_utf8_valid_utf8;
use vstd::utf8::valid_utf8;

use crate::frontier::Frontier;
use crate::frontier::FrontierSnapshot;
use crate::frontier::HostSnapshot;

verus! {

/// The abstract content of a snapshot: the seen URLs and, per host,
/// the queued (URL, priority) pairs.
pub ghost struct SnapView {
    pub seen: Seq<Seq<char>>,
    pub hosts: Seq<(Seq<char>, Seq<(Seq<char>, i32)>)>,
}

/// The views of a list of strings.
pub open spec fn strings_view(v: Seq<String>) -> Seq<Seq<char>>
    decreases v.len(),
{
    if v.len() == 0 {
        Seq::<Seq<char>>::empty()
    } else {
        strings_view(v.drop_last()).push(v.last()@)
    }
}

/// The views of a list of entries.
pub open spec fn entries_view(v: Seq<(String, i32)>) -> Seq<(Seq<char>, i32)>
    decreases v.len(),
{
    if v.len() == 0 {
        Seq::<(Seq<char>, i32)>::empty()
    } else {
        entries_view(v.drop_last()).push((v.last().0@, v.last().1))
    }
}

/// The views of a list of host snapshots.
pub open spec fn hosts_view(v: Seq<HostSnapshot>) -> Seq<(Seq<char>, Seq<(Seq<char>, i32)>)>
    decreases v.len(),
{
    if v.len() == 0 {
        Seq::<(Seq<char>, Seq<(Seq<char>, i32)>)>::empty()
    } else {
        hosts_view(v.drop_last()).push((v.last().host@, entries_view(v.last().entries@)))
    }
}

/// What a snapshot denotes.
pub open spec fn snap_view(s: FrontierSnapshot) -> SnapView {
    SnapView { seen: strings_view(s.seen@), hosts: hosts_view(s.hosts@) }
}

/// A 64-bit value as eight little-endian bytes.
pub open spec fn enc_u64(n: u64) -> Seq<u8> {
    seq![
        n as u8,
        (n >> 8) as u8,
        (n >> 16) as u8,
        (n >> 24) as u8,
        (n >> 32) as u8,
        (n >> 40) as u8,
        (n >> 48) as u8,
        (n >> 56) as u8,
    ]
}

/// The value of eight little-endian bytes.
pub open spec fn le8(b: Seq<u8>) -> int {
    b[0] + b[1] * 0x100 + b[2] * 0x10000 + b[3] * 0x1000000 + b[4] * 0x100000000 + b[5]
        * 0x10000000000 + b[6] * 0x1000000000000 + b[7] * 0x100000000000000
}

proof fn lemma_le8_enc(n: u64)
    ensures
        le8(enc_u64(n)) == n,
{
    let b = enc_u64(n);
    assert((n as u8) as u64 + ((n >> 8) as u8) as u64 * 0x100 + ((n >> 16) as u8) as u64
        * 0x10000 + ((n >> 24) as u8) as u64 * 0x1000000 + ((n >> 32) as u8) as u64
        * 0x100000000 + ((n >> 40) as u8) as u64 * 0x10000000000 + ((n >> 48) as u8) as u64
        * 0x1000000000000 + ((n >> 56) as u8) as u64 * 0x100000000000000 == n)
        by (bit_vector);
}

/// Reading a 64-bit value: eight bytes, little-endian.
pub open spec fn dec_u64(s: Seq<u8>) -> Option<(u64, Seq<u8>)> {
    if s.len() < 8 {
        None
    } else {
        Some((le8(s.take(8)) as u64, s.skip(8)))
    }
}

proof fn lemma_u64_roundtrip(n: u64, rest: Seq<u8>)
    ensures
        dec_u64(enc_u64(n) + rest) == Some((n, rest)),
{
    let whole = enc_u64(n) + rest;
    assert(whole.take(8) =~= enc_u64(n));
    assert(whole.skip(8) =~= rest);
    lemma_le8_enc(n);
    assert(0 <= le8(enc_u64(n)) < 0x10000000000000000);
}

/// A string as its byte length followed by its UTF-8 bytes.
pub open spec fn enc_str(s: Seq<char>) -> Seq<u8> {
    enc_u64(encode_utf8(s).len() as u64) + encode_utf8(s)
}

/// Reading a string: a byte length, then that many bytes of valid
/// UTF-8.
pub open spec fn dec_str(s: Seq<u8>) -> Option<(Seq<char>, Seq<u8>)> {
    match dec_u64(s) {
        None => None,
        Some((n, r)) => if r.len() < n {
            None
        } else if !valid_utf8(r.take(n as int)) {
            None
        } else {
            Some((decode_utf8(r.take(n as int)), r.skip(n as int)))
        },
    }
}

#[verifier::rlimit(100)]
proof fn lemma_str_roundtrip(cs: Seq<char>, rest: Seq<u8>)
    requires
        encode_utf8(cs).len() < 0x10000000000000000,
    ensures
        dec_str(enc_str(cs) + rest) == Some((cs, rest)),
{
    encode_utf8_valid_utf8(cs);
    encode_utf8_decode_utf8(cs);
    let bytes = encode_utf8(cs);
    let n = bytes.len() as u64;
    let whole = enc_str(cs) + rest;
    assert(whole =~= enc_u64(n) + (bytes + rest));
    lemma_u64_roundtrip(n, bytes + rest);
    assert((bytes + rest).take(n as int) =~= bytes);
    assert((bytes + rest).skip(n as int) =~= rest);
}


/// A list of strings, in order.
pub open spec fn enc_strs(l: Seq<Seq<char>>) -> Seq<u8>
    decreases l.len(),
{
    if l.len() == 0 {
        Seq::<u8>::empty()
    } else {
        enc_strs(l.drop_last()) + enc_str(l.last())
    }
}

proof fn lemma_enc_strs_head(l: Seq<Seq<char>>)
    requires
        l.len() > 0,
    ensures
        enc_strs(l) == enc_str(l[0]) + enc_strs(l.drop_first()),
    decreases l.len(),
{
    if l.len() == 1 {
        assert(l.drop_last() =~= Seq::<Seq<char>>::empty());
        assert(l.drop_first() =~= Seq::<Seq<char>>::empty());
        assert(enc_strs(l) =~= enc_str(l[0]) + enc_strs(l.drop_first()));
    } else {
        lemma_enc_strs_head(l.drop_last());
        assert(l.drop_last().drop_first() =~= l.drop_first().drop_last());
        assert(l.drop_last()[0] == l[0]);
        assert(l.drop_first().last() == l.last());
        assert(enc_strs(l) =~= enc_str(l[0]) + enc_strs(l.drop_first()));
    }
}

/// Reading `k` strings in order.
pub open spec fn dec_strs(s: Seq<u8>, k: nat) -> Option<(Seq<Seq<char>>, Seq<u8>)>
    decreases k,
{
    if k == 0 {
        Some((Seq::<Seq<char>>::empty(), s))
    } else {
        match dec_str(s) {
            None => None,
            Some((c, r)) => match dec_strs(r, (k - 1) as nat) {
                None => None,
                Some((l, r2)) => Some((seq![c] + l, r2)),
            },
        }
    }
}

proof fn lemma_strs_roundtrip(l: Seq<Seq<char>>, rest: Seq<u8>)
    requires
        forall|i: int|
            0 <= i < l.len() ==> encode_utf8(#[trigger] l[i]).len() < 0x10000000000000000,
    ensures
        dec_strs(enc_strs(l) + rest, l.len() as nat) == Some((l, rest)),
    decreases l.len(),
{
    if l.len() == 0 {
        assert(enc_strs(l) + rest =~= rest);
    } else {
        lemma_enc_strs_head(l);
        assert(enc_strs(l) + rest =~= enc_str(l[0]) + (enc_strs(l.drop_first()) + rest));
        lemma_str_roundtrip(l[0], enc_strs(l.drop_first()) + rest);
        assert(forall|i: int|
            0 <= i < l.drop_first().len() ==> encode_utf8(
                #[trigger] l.drop_first()[i],
            ).len() < 0x10000000000000000) by {
            assert(forall|i: int|
                0 <= i < l.len() - 1 ==> #[trigger] l.drop_first()[i] == l[i + 1]);
        }
        lemma_strs_roundtrip(l.drop_first(), rest);
        assert(seq![l[0]] + l.drop_first() =~= l);
    }
}

/// One queue entry: the URL, then its priority as a single byte.
pub open spec fn enc_entry(e: (Seq<char>, i32)) -> Seq<u8> {
    enc_str(e.0) + seq![e.1 as u8]
}

/// Reading one entry.
pub open spec fn dec_entry(s: Seq<u8>) -> Option<((Seq<char>, i32), Seq<u8>)> {
    match dec_str(s) {
        None => None,
        Some((c, r)) => if r.len() < 1 {
            None
        } else {
            Some(((c, r[0] as i32), r.skip(1)))
        },
    }
}

proof fn lemma_entry_roundtrip(e: (Seq<char>, i32), rest: Seq<u8>)
    requires
        encode_utf8(e.0).len() < 0x10000000000000000,
        0 <= e.1 <= 255,
    ensures
        dec_entry(enc_entry(e) + rest) == Some((e, rest)),
{
    assert(enc_entry(e) + rest =~= enc_str(e.0) + (seq![e.1 as u8] + rest));
    lemma_str_roundtrip(e.0, seq![e.1 as u8] + rest);
    assert((seq![e.1 as u8] + rest)[0] == e.1 as u8);
    assert((seq![e.1 as u8] + rest).skip(1) =~= rest);
    assert((e.1 as u8) as i32 == e.1);
}

pub open spec fn enc_entries(l: Seq<(Seq<char>, i32)>) -> Seq<u8>
    decreases l.len(),
{
    if l.len() == 0 {
        Seq::<u8>::empty()
    } else {
        enc_entries(l.drop_last()) + enc_entry(l.last())
    }
}

proof fn lemma_enc_entries_head(l: Seq<(Seq<char>, i32)>)
    requires
        l.len() > 0,
    ensures
        enc_entries(l) == enc_entry(l[0]) + enc_entries(l.drop_first()),
    decreases l.len(),
{
    if l.len() == 1 {
        assert(l.drop_last() =~= Seq::<(Seq<char>, i32)>::empty());
        assert(l.drop_first() =~= Seq::<(Seq<char>, i32)>::empty());
        assert(enc_entries(l) =~= enc_entry(l[0]) + enc_entries(l.drop_first()));
    } else {
        lemma_enc_entries_head(l.drop_last());
        assert(l.drop_last().drop_first() =~= l.drop_first().drop_last());
        assert(l.drop_last()[0] == l[0]);
        assert(l.drop_first().last() == l.last());
        assert(enc_entries(l) =~= enc_entry(l[0]) + enc_entries(l.drop_first()));
    }
}

pub open spec fn dec_entries(s: Seq<u8>, k: nat) -> Option<(Seq<(Seq<char>, i32)>, Seq<u8>)>
    decreases k,
{
    if k == 0 {
        Some((Seq::<(Seq<char>, i32)>::empty(), s))
    } else {
        match dec_entry(s) {
            None => None,
            Some((e, r)) => match dec_entries(r, (k - 1) as nat) {
                None => None,
                Some((l, r2)) => Some((seq![e] + l, r2)),
            },
        }
    }
}

proof fn lemma_entries_roundtrip(l: Seq<(Seq<char>, i32)>, rest: Seq<u8>)
    requires
        forall|i: int|
            0 <= i < l.len() ==> encode_utf8((#[trigger] l[i]).0).len()
                < 0x10000000000000000 && 0 <= l[i].1 <= 255,
    ensures
        dec_entries(enc_entries(l) + rest, l.len() as nat) == Some((l, rest)),
    decreases l.len(),
{
    if l.len() == 0 {
        assert(enc_entries(l) + rest =~= rest);
    } else {
        lemma_enc_entries_head(l);
        assert(enc_entries(l) + rest =~= enc_entry(l[0]) + (enc_entries(l.drop_first())
            + rest));
        lemma_entry_roundtrip(l[0], enc_entries(l.drop_first()) + rest);
        assert(forall|i: int|
            0 <= i < l.drop_first().len() ==> encode_utf8(
                (#[trigger] l.drop_first()[i]).0,
            ).len() < 0x10000000000000000 && 0 <= l.drop_first()[i].1 <= 255) by {
            assert(forall|i: int|
                0 <= i < l.len() - 1 ==> #[trigger] l.drop_first()[i] == l[i + 1]);
        }
        lemma_entries_roundtrip(l.drop_first(), rest);
        assert(seq![l[0]] + l.drop_first() =~= l);
    }
}

/// One host: its name, then its entry count and entries.
pub open spec fn enc_host(h: (Seq<char>, Seq<(Seq<char>, i32)>)) -> Seq<u8> {
    enc_str(h.0) + enc_u64(h.1.len() as u64) + enc_entries(h.1)
}

pub open spec fn dec_host(s: Seq<u8>) -> Option<((Seq<char>, Seq<(Seq<char>, i32)>), Seq<u8>)> {
    match dec_str(s) {
        None => None,
        Some((name, r)) => match dec_u64(r) {
            None => None,
            Some((k, r2)) => match dec_entries(r2, k as nat) {
                None => None,
                Some((es, r3)) => Some(((name, es), r3)),
            },
        },
    }
}

proof fn lemma_host_roundtrip(h: (Seq<char>, Seq<(Seq<char>, i32)>), rest: Seq<u8>)
    requires
        encode_utf8(h.0).len() < 0x10000000000000000,
        h.1.len() < 0x10000000000000000,
        forall|i: int|
            0 <= i < h.1.len() ==> encode_utf8((#[trigger] h.1[i]).0).len()
                < 0x10000000000000000 && 0 <= h.1[i].1 <= 255,
    ensures
        dec_host(enc_host(h) + rest) == Some((h, rest)),
{
    let tail1 = enc_u64(h.1.len() as u64) + (enc_entries(h.1) + rest);
    assert(enc_host(h) + rest =~= enc_str(h.0) + tail1);
    lemma_str_roundtrip(h.0, tail1);
    lemma_u64_roundtrip(h.1.len() as u64, enc_entries(h.1) + rest);
    lemma_entries_roundtrip(h.1, rest);
}

pub open spec fn enc_hosts(l: Seq<(Seq<char>, Seq<(Seq<char>, i32)>)>) -> Seq<u8>
    decreases l.len(),
{
    if l.len() == 0 {
        Seq::<u8>::empty()
    } else {
        enc_hosts(l.drop_last()) + enc_host(l.last())
    }
}

proof fn lemma_enc_hosts_head(l: Seq<(Seq<char>, Seq<(Seq<char>, i32)>)>)
    requires
        l.len() > 0,
    ensures
        enc_hosts(l) == enc_host(l[0]) + enc_hosts(l.drop_first()),
    decreases l.len(),
{
    if l.len() == 1 {
        assert(l.drop_last() =~= Seq::<(Seq<char>, Seq<(Seq<char>, i32)>)>::empty());
        assert(l.drop_first() =~= Seq::<(Seq<char>, Seq<(Seq<char>, i32)>)>::empty());
        assert(enc_hosts(l) =~= enc_host(l[0]) + enc_hosts(l.drop_first()));
    } else {
        lemma_enc_hosts_head(l.drop_last());
        assert(l.drop_last().drop_first() =~= l.drop_first().drop_last());
        assert(l.drop_last()[0] == l[0]);
        assert(l.drop_first().last() == l.last());
        assert(enc_hosts(l) =~= enc_host(l[0]) + enc_hosts(l.drop_first()));
    }
}

pub open spec fn dec_hosts(s: Seq<u8>, k: nat) -> Option<
    (Seq<(Seq<char>, Seq<(Seq<char>, i32)>)>, Seq<u8>),
>
    decreases k,
{
    if k == 0 {
        Some((Seq::<(Seq<char>, Seq<(Seq<char>, i32)>)>::empty(), s))
    } else {
        match dec_host(s) {
            None => None,
            Some((h, r)) => match dec_hosts(r, (k - 1) as nat) {
                None => None,
                Some((l, r2)) => Some((seq![h] + l, r2)),
            },
        }
    }
}

/// The bounds under which a snapshot view encodes: every string's
/// UTF-8 form and every count fits the length prefix, and priorities
/// fit one byte.
pub open spec fn view_enc_ok(v: SnapView) -> bool {
    &&& v.seen.len() < 0x10000000000000000
    &&& forall|i: int|
        0 <= i < v.seen.len() ==> encode_utf8(#[trigger] v.seen[i]).len()
            < 0x10000000000000000
    &&& v.hosts.len() < 0x10000000000000000
    &&& forall|i: int|
        0 <= i < v.hosts.len() ==> encode_utf8((#[trigger] v.hosts[i]).0).len()
            < 0x10000000000000000 && v.hosts[i].1.len() < 0x10000000000000000
    &&& forall|i: int, k: int|
        #![trigger v.hosts[i].1[k]]
        0 <= i < v.hosts.len() && 0 <= k < v.hosts[i].1.len() ==> encode_utf8(
            v.hosts[i].1[k].0,
        ).len() < 0x10000000000000000 && 0 <= v.hosts[i].1[k].1 <= 255
}

#[verifier::rlimit(60)]
proof fn lemma_hosts_roundtrip(l: Seq<(Seq<char>, Seq<(Seq<char>, i32)>)>, rest: Seq<u8>)
    requires
        forall|i: int|
            0 <= i < l.len() ==> encode_utf8((#[trigger] l[i]).0).len()
                < 0x10000000000000000 && l[i].1.len() < 0x10000000000000000,
        forall|i: int, k: int|
            #![trigger l[i].1[k]]
            0 <= i < l.len() && 0 <= k < l[i].1.len() ==> encode_utf8(l[i].1[k].0).len()
                < 0x10000000000000000 && 0 <= l[i].1[k].1 <= 255,
    ensures
        dec_hosts(enc_hosts(l) + rest, l.len() as nat) == Some((l, rest)),
    decreases l.len(),
{
    if l.len() == 0 {
        assert(enc_hosts(l) + rest =~= rest);
    } else {
        lemma_enc_hosts_head(l);
        assert(enc_hosts(l) + rest =~= enc_host(l[0]) + (enc_hosts(l.drop_first()) + rest));
        assert(forall|k: int|
            0 <= k < l[0].1.len() ==> encode_utf8((#[trigger] l[0].1[k]).0).len()
                < 0x10000000000000000 && 0 <= l[0].1[k].1 <= 255) by {
            assert(forall|k: int| 0 <= k < l[0].1.len() ==> #[trigger] l[0].1[k] == l[0].1[k]);
        }
        lemma_host_roundtrip(l[0], enc_hosts(l.drop_first()) + rest);
        assert(forall|i: int|
            0 <= i < l.drop_first().len() ==> encode_utf8(
                (#[trigger] l.drop_first()[i]).0,
            ).len() < 0x10000000000000000 && l.drop_first()[i].1.len()
                < 0x10000000000000000) by {
            assert(forall|i: int|
                0 <= i < l.len() - 1 ==> #[trigger] l.drop_first()[i] == l[i + 1]);
        }
        assert(forall|i: int, k: int|
            #![trigger l.drop_first()[i].1[k]]
            0 <= i < l.drop_first().len() && 0 <= k < l.drop_first()[i].1.len()
                ==> encode_utf8(l.drop_first()[i].1[k].0).len() < 0x10000000000000000 && 0
                <= l.drop_first()[i].1[k].1 <= 255) by {
            assert(forall|i: int|
                0 <= i < l.len() - 1 ==> #[trigger] l.drop_first()[i] == l[i + 1]);
        }
        lemma_hosts_roundtrip(l.drop_first(), rest);
        assert(seq![l[0]] + l.drop_first() =~= l);
    }
}

/// A whole snapshot: the seen count and URLs, then the host count and
/// hosts.
pub open spec fn enc_snapshot(v: SnapView) -> Seq<u8> {
    enc_u64(v.seen.len() as u64) + enc_strs(v.seen) + enc_u64(v.hosts.len() as u64)
        + enc_hosts(v.hosts)
}

/// Reading a whole snapshot; trailing bytes are rejected.
pub open spec fn dec_snapshot(s: Seq<u8>) -> Option<SnapView> {
    match dec_u64(s) {
        None => None,
        Some((nseen, r)) => match dec_strs(r, nseen as nat) {
            None => None,
            Some((seen, r2)) => match dec_u64(r2) {
                None => None,
                Some((nhosts, r3)) => match dec_hosts(r3, nhosts as nat) {
                    None => None,
                    Some((hosts, r4)) => if r4.len() == 0 {
                        Some(SnapView { seen, hosts })
                    } else {
                        None
                    },
                },
            },
        },
    }
}

/// The codec round trip: decoding an encoded snapshot yields exactly
/// the snapshot.
pub proof fn lemma_snapshot_codec_roundtrip(v: SnapView)
    requires
        view_enc_ok(v),
    ensures
        dec_snapshot(enc_snapshot(v)) == Some(v),
{
    let tail3 = enc_hosts(v.hosts);
    let tail2 = enc_u64(v.hosts.len() as u64) + tail3;
    let tail1 = enc_strs(v.seen) + tail2;
    assert(enc_snapshot(v) =~= enc_u64(v.seen.len() as u64) + tail1);
    lemma_u64_roundtrip(v.seen.len() as u64, tail1);
    lemma_strs_roundtrip(v.seen, tail2);
    lemma_u64_roundtrip(v.hosts.len() as u64, tail3);
    assert(tail3 =~= enc_hosts(v.hosts) + Seq::<u8>::empty());
    lemma_hosts_roundtrip(v.hosts, Seq::<u8>::empty());
}


proof fn lemma_strings_view_index(v: Seq<String>)
    ensures
        strings_view(v).len() == v.len(),
        forall|i: int| 0 <= i < v.len() ==> #[trigger] strings_view(v)[i] == v[i]@,
    decreases v.len(),
{
    if v.len() > 0 {
        lemma_strings_view_index(v.drop_last());
        assert(forall|i: int| 0 <= i < v.len() - 1 ==> #[trigger] v.drop_last()[i] == v[i]);
    }
}

proof fn lemma_entries_view_index(v: Seq<(String, i32)>)
    ensures
        entries_view(v).len() == v.len(),
        forall|i: int|
            0 <= i < v.len() ==> #[trigger] entries_view(v)[i] == (v[i].0@, v[i].1),
    decreases v.len(),
{
    if v.len() > 0 {
        lemma_entries_view_index(v.drop_last());
        assert(forall|i: int| 0 <= i < v.len() - 1 ==> #[trigger] v.drop_last()[i] == v[i]);
    }
}

proof fn lemma_hosts_view_index(v: Seq<HostSnapshot>)
    ensures
        hosts_view(v).len() == v.len(),
        forall|i: int|
            0 <= i < v.len() ==> #[trigger] hosts_view(v)[i] == (
                v[i].host@,
                entries_view(v[i].entries@),
            ),
    decreases v.len(),
{
    if v.len() > 0 {
        lemma_hosts_view_index(v.drop_last());
        assert(forall|i: int| 0 <= i < v.len() - 1 ==> #[trigger] v.drop_last()[i] == v[i]);
    }
}

/// Relies on String::from_utf8 (std): accepts exactly the valid UTF-8
/// byte strings and decodes them to their characters.
#[verifier::external_body]
fn string_from_utf8(v: Vec<u8>) -> (r: Option<String>)
    ensures
        match r {
            Some(s) => valid_utf8(v@) && encode_utf8(s@) == v@,
            None => !valid_utf8(v@),
        },
{
    String::from_utf8(v).ok()
}

fn push_u64(out: &mut Vec<u8>, n: u64)
    ensures
        final(out)@ == old(out)@ + enc_u64(n),
{
    out.push(n as u8);
    out.push((n >> 8u64) as u8);
    out.push((n >> 16u64) as u8);
    out.push((n >> 24u64) as u8);
    out.push((n >> 32u64) as u8);
    out.push((n >> 40u64) as u8);
    out.push((n >> 48u64) as u8);
    out.push((n >> 56u64) as u8);
    proof {
        assert(out@ =~= old(out)@ + enc_u64(n));
    }
}

fn push_str(out: &mut Vec<u8>, s: &String)
    ensures
        final(out)@ == old(out)@ + enc_str(s@),
        encode_utf8(s@).len() < 0x10000000000000000,
{
    let b = s.as_str().as_bytes_vec();
    proof {
        assert(b@ == encode_utf8(s@));
    }
    push_u64(out, b.len() as u64);
    let ghost mid = out@;
    let mut i: usize = 0;
    while i < b.len()
        invariant
            i <= b@.len(),
            out@ == mid + b@.take(i as int),
        decreases b@.len() - i,
    {
        out.push(b[i]);
        proof {
            assert(b@.take(i + 1) =~= b@.take(i as int).push(b@[i as int]));
        }
        i = i + 1;
    }
    proof {
        assert(b@.take(b@.len() as int) =~= b@);
        assert(out@ =~= old(out)@ + enc_str(s@));
    }
}

/// Serializes a snapshot into the stable binary form.
pub fn encode_snapshot(snap: &FrontierSnapshot) -> (r: Vec<u8>)
    requires
        forall|i: int, k: int|
            #![trigger snap.hosts@[i].entries@[k]]
            0 <= i < snap.hosts@.len() && 0 <= k < snap.hosts@[i].entries@.len() ==> 0
                <= snap.hosts@[i].entries@[k].1 <= 255,
    ensures
        r@ == enc_snapshot(snap_view(*snap)),
        view_enc_ok(snap_view(*snap)),
{
    proof {
        lemma_strings_view_index(snap.seen@);
        lemma_hosts_view_index(snap.hosts@);
    }
    let ghost v = snap_view(*snap);
    let nseen = snap.seen.len();
    let nhosts = snap.hosts.len();
    proof {
        assert(nseen == v.seen.len() && nhosts == v.hosts.len());
        assert(v.seen.len() < 0x10000000000000000);
        assert(v.hosts.len() < 0x10000000000000000);
    }
    let mut out: Vec<u8> = Vec::new();
    push_u64(&mut out, snap.seen.len() as u64);
    let ghost base1 = out@;
    let mut i: usize = 0;
    while i < snap.seen.len()
        invariant
            i <= snap.seen@.len(),
            v == snap_view(*snap),
            v.seen.len() == snap.seen@.len(),
            forall|k: int| 0 <= k < v.seen.len() ==> #[trigger] v.seen[k] == snap.seen@[k]@,
            base1 == out@.take(base1.len() as int) && out@ == base1 + enc_strs(v.seen.take(
                i as int,
            )),
            forall|a: int|
                0 <= a < i ==> encode_utf8(#[trigger] v.seen[a]).len()
                    < 0x10000000000000000,
        decreases snap.seen@.len() - i,
    {
        push_str(&mut out, &snap.seen[i]);
        proof {
            assert(v.seen.take(i + 1).drop_last() =~= v.seen.take(i as int));
            assert(v.seen.take(i + 1).last() == v.seen[i as int]);
            assert(out@ =~= base1 + enc_strs(v.seen.take(i + 1)));
        }
        i = i + 1;
    }
    proof {
        assert(v.seen.take(v.seen.len() as int) =~= v.seen);
    }
    push_u64(&mut out, snap.hosts.len() as u64);
    let ghost base2 = out@;
    let mut j: usize = 0;
    while j < snap.hosts.len()
        invariant
            j <= snap.hosts@.len(),
            v == snap_view(*snap),
            v.hosts.len() == snap.hosts@.len(),
            forall|k: int|
                0 <= k < v.hosts.len() ==> #[trigger] v.hosts[k] == (
                    snap.hosts@[k].host@,
                    entries_view(snap.hosts@[k].entries@),
                ),
            out@ == base2 + enc_hosts(v.hosts.take(j as int)),
            forall|a: int|
                0 <= a < v.seen.len() ==> encode_utf8(#[trigger] v.seen[a]).len()
                    < 0x10000000000000000,
            forall|a: int|
                0 <= a < j ==> encode_utf8((#[trigger] v.hosts[a]).0).len()
                    < 0x10000000000000000 && v.hosts[a].1.len() < 0x10000000000000000,
            forall|a: int, b: int|
                #![trigger v.hosts[a].1[b]]
                0 <= a < j && 0 <= b < v.hosts[a].1.len() ==> encode_utf8(
                    v.hosts[a].1[b].0,
                ).len() < 0x10000000000000000 && 0 <= v.hosts[a].1[b].1 <= 255,
            forall|a: int, b: int|
                #![trigger snap.hosts@[a].entries@[b]]
                0 <= a < snap.hosts@.len() && 0 <= b < snap.hosts@[a].entries@.len() ==> 0
                    <= snap.hosts@[a].entries@[b].1 <= 255,
        decreases snap.hosts@.len() - j,
    {
        let ghost hbase = out@;
        push_str(&mut out, &snap.hosts[j].host);
        push_u64(&mut out, snap.hosts[j].entries.len() as u64);
        proof {
            lemma_entries_view_index(snap.hosts@[j as int].entries@);
        }
        let ghost ev = entries_view(snap.hosts@[j as int].entries@);
        let ghost ebase = out@;
        let entries = &snap.hosts[j].entries;
        let mut k: usize = 0;
        while k < entries.len()
            invariant
                k <= entries@.len(),
                entries@ == snap.hosts@[j as int].entries@,
                j < snap.hosts@.len(),
                ev == entries_view(entries@),
                ev.len() == entries@.len(),
                forall|a: int|
                    0 <= a < ev.len() ==> #[trigger] ev[a] == (entries@[a].0@, entries@[
                        a
                    ].1),
                out@ == ebase + enc_entries(ev.take(k as int)),
                forall|b: int|
                    0 <= b < k ==> encode_utf8((#[trigger] ev[b]).0).len()
                        < 0x10000000000000000,
                forall|b: int|
                    0 <= b < entries@.len() ==> 0 <= (#[trigger] entries@[b]).1 <= 255,
            decreases entries@.len() - k,
        {
            push_str(&mut out, &entries[k].0);
            out.push(entries[k].1 as u8);
            proof {
                assert(ev.take(k + 1).drop_last() =~= ev.take(k as int));
                assert(ev.take(k + 1).last() == ev[k as int]);
                assert(out@ =~= ebase + enc_entries(ev.take(k + 1)));
            }
            k = k + 1;
        }
        proof {
            assert(ev.take(ev.len() as int) =~= ev);
            assert(out@ =~= hbase + enc_host(v.hosts[j as int]));
            assert(v.hosts.take(j + 1).drop_last() =~= v.hosts.take(j as int));
            assert(v.hosts.take(j + 1).last() == v.hosts[j as int]);
            assert(out@ =~= base2 + enc_hosts(v.hosts.take(j + 1)));
            assert(v.hosts[j as int].1 == ev);
            assert forall|b: int| 0 <= b < v.hosts[j as int].1.len() implies encode_utf8(
                (#[trigger] v.hosts[j as int].1[b]).0,
            ).len() < 0x10000000000000000 && 0 <= v.hosts[j as int].1[b].1 <= 255 by {
                assert(ev[b] == (entries@[b].0@, entries@[b].1));
            }
        }
        j = j + 1;
    }
    proof {
        assert(v.hosts.take(v.hosts.len() as int) =~= v.hosts);
        assert(out@ =~= enc_snapshot(v));
        assert(view_enc_ok(v));
    }
    out
}


fn read_u64(bytes: &Vec<u8>, pos: usize) -> (r: Option<(u64, usize)>)
    requires
        pos <= bytes@.len(),
    ensures
        match r {
            Some(np) => pos <= np.1 <= bytes@.len() && dec_u64(bytes@.skip(pos as int))
                == Some((np.0, bytes@.skip(np.1 as int))),
            None => dec_u64(bytes@.skip(pos as int)) is None,
        },
{
    if bytes.len() - pos < 8 {
        return None;
    }
    let b0 = bytes[pos] as u64;
    let b1 = bytes[pos + 1] as u64;
    let b2 = bytes[pos + 2] as u64;
    let b3 = bytes[pos + 3] as u64;
    let b4 = bytes[pos + 4] as u64;
    let b5 = bytes[pos + 5] as u64;
    let b6 = bytes[pos + 6] as u64;
    let b7 = bytes[pos + 7] as u64;
    let n: u64 = b0 + b1 * 0x100 + b2 * 0x10000 + b3 * 0x1000000 + b4 * 0x100000000 + b5
        * 0x10000000000 + b6 * 0x1000000000000 + b7 * 0x100000000000000;
    proof {
        let suff = bytes@.skip(pos as int);
        assert(suff.take(8)[0] == bytes@[pos as int]);
        assert(suff.take(8)[1] == bytes@[pos + 1]);
        assert(suff.take(8)[2] == bytes@[pos + 2]);
        assert(suff.take(8)[3] == bytes@[pos + 3]);
        assert(suff.take(8)[4] == bytes@[pos + 4]);
        assert(suff.take(8)[5] == bytes@[pos + 5]);
        assert(suff.take(8)[6] == bytes@[pos + 6]);
        assert(suff.take(8)[7] == bytes@[pos + 7]);
        assert(le8(suff.take(8)) == n);
        assert(suff.skip(8) =~= bytes@.skip(pos + 8));
    }
    Some((n, pos + 8))
}

fn read_str(bytes: &Vec<u8>, pos: usize) -> (r: Option<(String, usize)>)
    requires
        pos <= bytes@.len(),
    ensures
        match r {
            Some(sp) => pos <= sp.1 <= bytes@.len() && dec_str(bytes@.skip(pos as int))
                == Some((sp.0@, bytes@.skip(sp.1 as int))),
            None => dec_str(bytes@.skip(pos as int)) is None,
        },
{
    let (n, p1) = match read_u64(bytes, pos) {
        Some(np) => np,
        None => {
            return None;
        },
    };
    if n > (bytes.len() - p1) as u64 {
        proof {
            assert(bytes@.skip(p1 as int).len() < n);
        }
        return None;
    }
    let nn = n as usize;
    let blen = bytes.len();
    let mut b: Vec<u8> = Vec::new();
    let mut i: usize = 0;
    while i < nn
        invariant
            blen == bytes@.len(),
            p1 + nn <= blen,
            i <= nn,
            b@ =~= bytes@.subrange(p1 as int, p1 + i),
        decreases nn - i,
    {
        b.push(bytes[p1 + i]);
        proof {
            assert(bytes@.subrange(p1 as int, p1 + i + 1) =~= bytes@.subrange(
                p1 as int,
                p1 + i,
            ).push(bytes@[p1 + i]));
        }
        i = i + 1;
    }
    proof {
        assert(b@ =~= bytes@.skip(p1 as int).take(n as int));
    }
    match string_from_utf8(b) {
        Some(st) => {
            proof {
                broadcast use encode_utf8_decode_utf8;

                assert(decode_utf8(bytes@.skip(p1 as int).take(n as int)) == st@);
                assert(bytes@.skip(p1 as int).skip(n as int) =~= bytes@.skip(p1 + nn));
            }
            Some((st, p1 + nn))
        },
        None => None,
    }
}

fn read_entry(bytes: &Vec<u8>, pos: usize) -> (r: Option<((String, i32), usize)>)
    requires
        pos <= bytes@.len(),
    ensures
        match r {
            Some(ep) => pos <= ep.1 <= bytes@.len() && dec_entry(bytes@.skip(pos as int))
                == Some(((ep.0.0@, ep.0.1), bytes@.skip(ep.1 as int))),
            None => dec_entry(bytes@.skip(pos as int)) is None,
        },
{
    let (st, p1) = match read_str(bytes, pos) {
        Some(sp) => sp,
        None => {
            return None;
        },
    };
    if p1 >= bytes.len() {
        proof {
            assert(bytes@.skip(p1 as int).len() < 1);
        }
        return None;
    }
    let prio = bytes[p1] as i32;
    proof {
        assert(bytes@.skip(p1 as int)[0] == bytes@[p1 as int]);
        assert(bytes@.skip(p1 as int).skip(1) =~= bytes@.skip(p1 + 1));
    }
    Some(((st, prio), p1 + 1))
}

fn read_host(bytes: &Vec<u8>, pos: usize) -> (r: Option<(HostSnapshot, usize)>)
    requires
        pos <= bytes@.len(),
    ensures
        match r {
            Some(hp) => pos <= hp.1 <= bytes@.len() && dec_host(bytes@.skip(pos as int))
                == Some(((hp.0.host@, entries_view(hp.0.entries@)), bytes@.skip(
                hp.1 as int,
            ))),
            None => dec_host(bytes@.skip(pos as int)) is None,
        },
{
    let (host, p1) = match read_str(bytes, pos) {
        Some(sp) => sp,
        None => {
            return None;
        },
    };
    let (count, p2) = match read_u64(bytes, p1) {
        Some(np) => np,
        None => {
            return None;
        },
    };
    let ghost suff2 = bytes@.skip(p2 as int);
    let mut entries: Vec<(String, i32)> = Vec::new();
    let mut cur: usize = p2;
    let mut k: u64 = 0;
    proof {
        assert(entries_view(entries@) =~~= Seq::<(Seq<char>, i32)>::empty());
    }
    while k < count
        invariant
            pos <= bytes@.len(),
            p1 <= bytes@.len(),
            p2 <= cur <= bytes@.len(),
            k <= count,
            entries@.len() == k,
            dec_str(bytes@.skip(pos as int)) == Some((host@, bytes@.skip(p1 as int))),
            dec_u64(bytes@.skip(p1 as int)) == Some((count, bytes@.skip(p2 as int))),
            dec_entries(suff2, count as nat) == (match dec_entries(
                bytes@.skip(cur as int),
                (count - k) as nat,
            ) {
                None => None::<(Seq<(Seq<char>, i32)>, Seq<u8>)>,
                Some(lr) => Some((entries_view(entries@) + lr.0, lr.1)),
            }),
            suff2 == bytes@.skip(p2 as int),
        decreases count - k,
    {
        let ghost pre_entries = entries@;
        match read_entry(bytes, cur) {
            Some(ep) => {
                entries.push(ep.0);
                proof {
                    assert(entries@.drop_last() =~= pre_entries);
                    assert(entries_view(entries@) == entries_view(pre_entries).push(
                        (entries@.last().0@, entries@.last().1),
                    ));
                    let rem = (count - k) as nat;
                    let reme = dec_entries(bytes@.skip(ep.1 as int), (rem - 1) as nat);
                    if reme is Some {
                        let lr = reme->Some_0;
                        assert(entries_view(pre_entries) + (seq![
                            (entries@.last().0@, entries@.last().1),
                        ] + lr.0) =~~= entries_view(entries@) + lr.0);
                    }
                }
                cur = ep.1;
                k = k + 1;
            },
            None => {
                proof {
                    assert(dec_entries(bytes@.skip(cur as int), (count - k) as nat)
                        is None);
                    assert(dec_entries(suff2, count as nat) is None);
                    assert(dec_str(bytes@.skip(pos as int)) == Some(
                        (host@, bytes@.skip(p1 as int)),
                    ));
                    assert(dec_u64(bytes@.skip(p1 as int)) == Some(
                        (count, bytes@.skip(p2 as int)),
                    ));
                    assert(dec_host(bytes@.skip(pos as int)) is None);
                }
                return None;
            },
        }
    }
    proof {
        assert(dec_entries(bytes@.skip(cur as int), 0) == Some(
            (Seq::<(Seq<char>, i32)>::empty(), bytes@.skip(cur as int)),
        ));
        assert(entries_view(entries@) + Seq::<(Seq<char>, i32)>::empty() =~~= entries_view(
            entries@,
        ));
    }
    Some((HostSnapshot { host, entries }, cur))
}

/// Deserializes a snapshot from the stable binary form; malformed
/// bytes are rejected.
#[verifier::rlimit(60)]
pub fn decode_snapshot(bytes: &Vec<u8>) -> (r: Option<FrontierSnapshot>)
    ensures
        match r {
            Some(s) => dec_snapshot(bytes@) == Some(snap_view(s)),
            None => dec_snapshot(bytes@) is None,
        },
{
    proof {
        assert(bytes@.skip(0) =~= bytes@);
    }
    let (nseen, p0) = match read_u64(bytes, 0) {
        Some(np) => np,
        None => {
            return None;
        },
    };
    let ghost suff0 = bytes@.skip(p0 as int);
    let mut seen: Vec<String> = Vec::new();
    let mut cur: usize = p0;
    let mut k: u64 = 0;
    proof {
        assert(strings_view(seen@) =~~= Seq::<Seq<char>>::empty());
    }
    while k < nseen
        invariant
            p0 <= cur <= bytes@.len(),
            k <= nseen,
            seen@.len() == k,
            dec_u64(bytes@) == Some((nseen, bytes@.skip(p0 as int))),
            dec_strs(suff0, nseen as nat) == (match dec_strs(
                bytes@.skip(cur as int),
                (nseen - k) as nat,
            ) {
                None => None::<(Seq<Seq<char>>, Seq<u8>)>,
                Some(lr) => Some((strings_view(seen@) + lr.0, lr.1)),
            }),
            suff0 == bytes@.skip(p0 as int),
        decreases nseen - k,
    {
        let ghost pre_seen = seen@;
        match read_str(bytes, cur) {
            Some(sp) => {
                seen.push(sp.0);
                proof {
                    assert(seen@.drop_last() =~= pre_seen);
                    assert(strings_view(seen@) == strings_view(pre_seen).push(
                        seen@.last()@,
                    ));
                    let rem = (nseen - k) as nat;
                    let reme = dec_strs(bytes@.skip(sp.1 as int), (rem - 1) as nat);
                    if reme is Some {
                        let lr = reme->Some_0;
                        assert(strings_view(pre_seen) + (seq![seen@.last()@] + lr.0)
                            =~~= strings_view(seen@) + lr.0);
                    }
                }
                cur = sp.1;
                k = k + 1;
            },
            None => {
                proof {
                    assert(dec_strs(bytes@.skip(cur as int), (nseen - k) as nat) is None);
                    assert(dec_strs(suff0, nseen as nat) is None);
                    assert(dec_u64(bytes@) == Some((nseen, bytes@.skip(p0 as int))));
                    assert(dec_snapshot(bytes@) is None);
                }
                return None;
            },
        }
    }
    proof {
        assert(dec_strs(bytes@.skip(cur as int), 0) == Some(
            (Seq::<Seq<char>>::empty(), bytes@.skip(cur as int)),
        ));
        assert(strings_view(seen@) + Seq::<Seq<char>>::empty() =~~= strings_view(seen@));
    }

    let scur = cur;
    let (nhosts, p1) = match read_u64(bytes, scur) {
        Some(np) => np,
        None => {
            proof {
                assert(dec_u64(bytes@) == Some((nseen, bytes@.skip(p0 as int))));
                assert(dec_snapshot(bytes@) is None);
            }
            return None;
        },
    };
    let ghost suff1 = bytes@.skip(p1 as int);
    let mut hosts: Vec<HostSnapshot> = Vec::new();
    let mut cur2: usize = p1;
    let mut j: u64 = 0;
    proof {
        assert(hosts_view(hosts@) =~~= Seq::<(Seq<char>, Seq<(Seq<char>, i32)>)>::empty());
    }
    while j < nhosts
        invariant
            p0 <= scur <= bytes@.len(),
            p1 <= cur2 <= bytes@.len(),
            j <= nhosts,
            hosts@.len() == j,
            suff0 == bytes@.skip(p0 as int),
            dec_u64(bytes@) == Some((nseen, bytes@.skip(p0 as int))),
            dec_strs(suff0, nseen as nat) == Some(
                (strings_view(seen@), bytes@.skip(scur as int)),
            ),
            dec_u64(bytes@.skip(scur as int)) == Some((nhosts, bytes@.skip(p1 as int))),
            dec_hosts(suff1, nhosts as nat) == (match dec_hosts(
                bytes@.skip(cur2 as int),
                (nhosts - j) as nat,
            ) {
                None => None::<(Seq<(Seq<char>, Seq<(Seq<char>, i32)>)>, Seq<u8>)>,
                Some(lr) => Some((hosts_view(hosts@) + lr.0, lr.1)),
            }),
            suff1 == bytes@.skip(p1 as int),
        decreases nhosts - j,
    {
        let ghost pre_hosts = hosts@;
        match read_host(bytes, cur2) {
            Some(hp) => {
                hosts.push(hp.0);
                proof {
                    assert(hosts@.drop_last() =~= pre_hosts);
                    assert(hosts_view(hosts@) == hosts_view(pre_hosts).push(
                        (hosts@.last().host@, entries_view(hosts@.last().entries@)),
                    ));
                    let rem = (nhosts - j) as nat;
                    let reme = dec_hosts(bytes@.skip(hp.1 as int), (rem - 1) as nat);
                    if reme is Some {
                        let lr = reme->Some_0;
                        assert(hosts_view(pre_hosts) + (seq![
                            (hosts@.last().host@, entries_view(hosts@.last().entries@)),
                        ] + lr.0) =~~= hosts_view(hosts@) + lr.0);
                    }
                }
                cur2 = hp.1;
                j = j + 1;
            },
            None => {
                proof {
                    assert(dec_hosts(bytes@.skip(cur2 as int), (nhosts - j) as nat)
                        is None);
                    assert(dec_hosts(suff1, nhosts as nat) is None);
                    assert(dec_u64(bytes@) == Some((nseen, bytes@.skip(p0 as int))));
                    assert(dec_strs(suff0, nseen as nat) == Some(
                        (strings_view(seen@), bytes@.skip(scur as int)),
                    ));
                    assert(dec_u64(bytes@.skip(scur as int)) == Some(
                        (nhosts, bytes@.skip(p1 as int)),
                    ));
                    assert(dec_snapshot(bytes@) is None);
                }
                return None;
            },
        }
    }
    proof {
        assert(dec_hosts(bytes@.skip(cur2 as int), 0) == Some(
            (Seq::<(Seq<char>, Seq<(Seq<char>, i32)>)>::empty(), bytes@.skip(cur2 as int)),
        ));
        assert(hosts_view(hosts@) + Seq::<(Seq<char>, Seq<(Seq<char>, i32)>)>::empty()
            =~~= hosts_view(hosts@));
    }
    if cur2 != bytes.len() {
        proof {
            assert(bytes@.skip(cur2 as int).len() != 0);
        }
        return None;
    }
    proof {
        assert(bytes@.skip(cur2 as int).len() == 0);
    }
    Some(FrontierSnapshot { seen, hosts })
}


/// Well-formedness of a snapshot is a property of its content alone.
proof fn lemma_wf_from_view(sa: FrontierSnapshot, sb: FrontierSnapshot)
    requires
        snap_view(sa) == snap_view(sb),
        crate::frontier::snapshot_wf(sa),
    ensures
        crate::frontier::snapshot_wf(sb),
{
    lemma_strings_view_index(sa.seen@);
    lemma_strings_view_index(sb.seen@);
    lemma_hosts_view_index(sa.hosts@);
    lemma_hosts_view_index(sb.hosts@);
    assert(sa.hosts@.len() == sb.hosts@.len());
    assert forall|i: int| 0 <= i < sb.hosts@.len() implies sb.hosts@[i].host@ == sa.hosts@[
        i
    ].host@ && entries_view(sb.hosts@[i].entries@) == entries_view(sa.hosts@[i].entries@) by {
        assert(hosts_view(sa.hosts@)[i] == hosts_view(sb.hosts@)[i]);
    }
    assert forall|i: int| 0 <= i < sb.hosts@.len() implies sb.hosts@[i].entries@.len()
        == sa.hosts@[i].entries@.len() by {
        lemma_entries_view_index(sa.hosts@[i].entries@);
        lemma_entries_view_index(sb.hosts@[i].entries@);
    }
    assert(crate::frontier::snap_seen_set(sb) == crate::frontier::snap_seen_set(sa)) by {
        assert(sa.seen@.map_values(|x: String| x@) =~= strings_view(sa.seen@));
        assert(sb.seen@.map_values(|x: String| x@) =~= strings_view(sb.seen@));
    }
    assert forall|i: int, k: int|
        #![trigger sb.hosts@[i].entries@[k]]
        0 <= i < sb.hosts@.len() && 0 <= k < sb.hosts@[i].entries@.len() implies 0 <= sb
        .hosts@[i].entries@[k].1 <= 9 && crate::frontier::snap_seen_set(sb).contains(
        sb.hosts@[i].entries@[k].0@,
    ) by {
        lemma_entries_view_index(sa.hosts@[i].entries@);
        lemma_entries_view_index(sb.hosts@[i].entries@);
        assert(entries_view(sb.hosts@[i].entries@)[k] == entries_view(
            sa.hosts@[i].entries@,
        )[k]);
        assert((sb.hosts@[i].entries@[k].0@, sb.hosts@[i].entries@[k].1) == (sa.hosts@[
            i
        ].entries@[k].0@, sa.hosts@[i].entries@[k].1));
    }
    assert forall|i: int, k1: int, k2: int|
        #![trigger sb.hosts@[i].entries@[k1], sb.hosts@[i].entries@[k2]]
        0 <= i < sb.hosts@.len() && 0 <= k1 < k2 < sb.hosts@[i].entries@.len() implies sb
        .hosts@[i].entries@[k1].0@ != sb.hosts@[i].entries@[k2].0@ by {
        lemma_entries_view_index(sa.hosts@[i].entries@);
        lemma_entries_view_index(sb.hosts@[i].entries@);
        assert(entries_view(sb.hosts@[i].entries@)[k1] == entries_view(
            sa.hosts@[i].entries@,
        )[k1]);
        assert(entries_view(sb.hosts@[i].entries@)[k2] == entries_view(
            sa.hosts@[i].entries@,
        )[k2]);
    }
    assert(crate::frontier::snap_total(sb.hosts@) == crate::frontier::snap_total(sa.hosts@))
        by {
        lemma_snap_total_from_view(sa.hosts@, sb.hosts@);
    }
}

proof fn lemma_snap_total_from_view(a: Seq<HostSnapshot>, b: Seq<HostSnapshot>)
    requires
        hosts_view(a) == hosts_view(b),
    ensures
        crate::frontier::snap_total(a) == crate::frontier::snap_total(b),
    decreases a.len(),
{
    lemma_hosts_view_index(a);
    lemma_hosts_view_index(b);
    if a.len() > 0 {
        assert(hosts_view(a.drop_last()) =~~= hosts_view(b.drop_last())) by {
            lemma_hosts_view_index(a.drop_last());
            lemma_hosts_view_index(b.drop_last());
            assert(forall|i: int|
                0 <= i < a.len() - 1 ==> #[trigger] a.drop_last()[i] == a[i]);
            assert(forall|i: int|
                0 <= i < b.len() - 1 ==> #[trigger] b.drop_last()[i] == b[i]);
            assert forall|i: int| 0 <= i < a.len() - 1 implies hosts_view(a.drop_last())[i]
                == hosts_view(b.drop_last())[i] by {
                assert(hosts_view(a)[i] == hosts_view(b)[i]);
            }
        }
        lemma_snap_total_from_view(a.drop_last(), b.drop_last());
        assert(hosts_view(a)[a.len() - 1] == hosts_view(b)[b.len() - 1]);
        lemma_entries_view_index(a.last().entries@);
        lemma_entries_view_index(b.last().entries@);
    }
}

/// A frontier matching one snapshot matches every snapshot of the same
/// content.
proof fn lemma_matches_from_view(f: Frontier, sa: FrontierSnapshot, sb: FrontierSnapshot)
    requires
        snap_view(sa) == snap_view(sb),
        crate::frontier::snapshot_matches(f, sa),
    ensures
        crate::frontier::snapshot_matches(f, sb),
{
    lemma_strings_view_index(sa.seen@);
    lemma_strings_view_index(sb.seen@);
    lemma_hosts_view_index(sa.hosts@);
    lemma_hosts_view_index(sb.hosts@);
    assert(crate::frontier::snap_seen_set(sb) == crate::frontier::snap_seen_set(sa)) by {
        assert(sa.seen@.map_values(|x: String| x@) =~= strings_view(sa.seen@));
        assert(sb.seen@.map_values(|x: String| x@) =~= strings_view(sb.seen@));
    }
    assert forall|i: int| 0 <= i < sb.hosts@.len() implies (#[trigger] sb.hosts@[i].host@)
        == f.hosts@[i].host@ by {
        assert(hosts_view(sa.hosts@)[i] == hosts_view(sb.hosts@)[i]);
    }
    assert forall|i: int| 0 <= i < sb.hosts@.len() implies crate::frontier::entries_ms(
        #[trigger] sb.hosts@[i].entries@,
    ) == crate::frontier::pq_contents(f.hosts@[i].queue) by {
        assert(hosts_view(sa.hosts@)[i] == hosts_view(sb.hosts@)[i]);
        lemma_entries_view_index(sa.hosts@[i].entries@);
        lemma_entries_view_index(sb.hosts@[i].entries@);
        assert(sa.hosts@[i].entries@.map_values(|e: (String, i32)| (e.0@, e.1))
            =~= entries_view(sa.hosts@[i].entries@));
        assert(sb.hosts@[i].entries@.map_values(|e: (String, i32)| (e.0@, e.1))
            =~= entries_view(sb.hosts@[i].entries@));
    }
}

impl Frontier {
    /// Serializes this frontier's snapshot as the stable binary blob.
    pub fn save_state(&self) -> (r: Vec<u8>)
        requires
            self.inv(),
        ensures
            exists|s: FrontierSnapshot|
                {
                    &&& #[trigger] crate::frontier::snapshot_matches(*self, s)
                    &&& crate::frontier::snapshot_wf(s)
                    &&& view_enc_ok(snap_view(s))
                    &&& r@ == enc_snapshot(snap_view(s))
                    &&& dec_snapshot(r@) == Some(snap_view(s))
                },
    {
        let snap = self.snapshot();
        let r = encode_snapshot(&snap);
        proof {
            lemma_snapshot_codec_roundtrip(snap_view(snap));
            assert(crate::frontier::snapshot_matches(*self, snap));
        }
        r
    }

    /// Rebuilds a frontier from a stored blob; malformed bytes or an
    /// ill-formed snapshot are rejected.
    pub fn load_state(bytes: &Vec<u8>) -> (r: Option<Frontier>)
        ensures
            match r {
                Some(f) => f.inv() && exists|s: FrontierSnapshot|
                    {
                        &&& dec_snapshot(bytes@) == Some(snap_view(s))
                        &&& #[trigger] crate::frontier::snapshot_matches(f, s)
                    },
                None => dec_snapshot(bytes@) is None || exists|s: FrontierSnapshot|
                    dec_snapshot(bytes@) == Some(snap_view(s))
                        && !(#[trigger] crate::frontier::snapshot_wf(s)),
            },
    {
        match decode_snapshot(bytes) {
            None => None,
            Some(snap) => Frontier::from_snapshot(&snap),
        }
    }
}

/// Saving a frontier and loading the bytes reproduces it: the loaded
/// frontier carries the same seen-set, the same size, and the same
/// multiset of queued URLs with priorities for every host (with the
/// politeness gates reset).
pub proof fn lemma_save_load_roundtrip(
    f1: Frontier,
    s1: FrontierSnapshot,
    f2: Frontier,
    s2: FrontierSnapshot,
)
    requires
        f1.inv(),
        crate::frontier::snapshot_matches(f1, s1),
        crate::frontier::snapshot_wf(s1),
        view_enc_ok(snap_view(s1)),
        dec_snapshot(enc_snapshot(snap_view(s1))) == Some(snap_view(s2)),
        f2.inv(),
        crate::frontier::snapshot_matches(f2, s2),
    ensures
        f2.seen@ == f1.seen@,
        f2.size == f1.size,
        forall|h: Seq<char>| f2.queue_of(h) == f1.queue_of(h),
{
    lemma_matches_from_view_premise(s1, s2);
    lemma_matches_from_view(f2, s2, s1);
    crate::frontier::lemma_snapshot_roundtrip(f1, s1, f2);
}

/// The decoded view of an encoded snapshot is the snapshot's own view.
proof fn lemma_matches_from_view_premise(s1: FrontierSnapshot, s2: FrontierSnapshot)
    requires
        view_enc_ok(snap_view(s1)),
        dec_snapshot(enc_snapshot(snap_view(s1))) == Some(snap_view(s2)),
    ensures
        snap_view(s2) == snap_view(s1),
{
    lemma_snapshot_codec_roundtrip(snap_view(s1));
}

} // verus!
