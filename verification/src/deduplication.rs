//! Content hashing and duplicate detection: the exact content hash, a
//! genuine 64-bit SimHash over the tokenized text, the Hamming-distance
//! near-duplicate rule, and the decision that suppresses re-exports.

use vstd::prelude::*;
use vstd::arithmetic::power2::pow2;
use vstd::arithmetic::power2::lemma2_to64;
use vstd::arithmetic::power2::lemma2_to64_rest;
use vstd::pervasive::VecAdditionalExecFns;

use crate::models::Page;
use crate::strutil::chars_of;
use crate::strutil::split_seps;
use crate::strutil::split_tokens;
use crate::strutil::views_of;

verus! {

broadcast use vstd::bits::lemma_u64_shr_is_div;

/// What xxh3 returns for a text: a pure 64-bit function of the
/// characters alone.
pub uninterp spec fn xxh3_of(s: Seq<char>) -> u64;

/// Relies on xxhash_rust::xxh3::xxh3_64: the 64-bit xxh3 digest of the
/// text's UTF-8 bytes, a pure function of the text.
#[verifier::external_body]
pub fn text_hash(text: &str) -> (r: u64)
    ensures
        r == xxh3_of(text@),
{
    xxhash_rust::xxh3::xxh3_64(text.as_bytes())
}

/// One step of the 64-bit FNV-1a fold used to hash a token.
pub open spec fn fnv_step(h: u64, c: char) -> u64 {
    ((((h ^ (c as u64)) as int) * 0x100000001b3) % 0x10000000000000000) as u64
}

/// The 64-bit FNV-1a hash of a token.
pub open spec fn fnv64_of(t: Seq<char>) -> u64
    decreases t.len(),
{
    if t.len() == 0 {
        0xcbf29ce484222325u64
    } else {
        fnv_step(fnv64_of(t.drop_last()), t.last())
    }
}

/// Computes the token hash.
pub fn fnv64(t: &Vec<char>) -> (r: u64)
    ensures
        r == fnv64_of(t@),
{
    let mut h: u64 = 0xcbf29ce484222325;
    let mut i: usize = 0;
    proof {
        assert(t@.take(0) =~= Seq::<char>::empty());
    }
    while i < t.len()
        invariant
            i <= t.len(),
            h == fnv64_of(t@.take(i as int)),
        decreases t.len() - i,
    {
        let c = t[i];
        let x: u64 = h ^ (c as u64);
        proof {
            assert((x as u128) * 0x100000001b3u128 < 0x100000000000000000000000000000000)
                by (nonlinear_arith)
                requires
                    x <= 0xffffffffffffffffu128,
            ;
        }
        let prod: u128 = (x as u128) * 0x100000001b3u128;
        let h2: u64 = (prod % 0x10000000000000000u128) as u64;
        proof {
            assert(t@.take(i + 1) =~= t@.take(i as int).push(t@[i as int]));
            assert(t@.take(i + 1).drop_last() =~= t@.take(i as int));
            assert(h2 == fnv_step(h, c));
        }
        h = h2;
        i = i + 1;
    }
    proof {
        assert(t@.take(t@.len() as int) =~= t@);
    }
    h
}

/// Bit `b` of `h`.
pub open spec fn nth_bit(h: u64, b: nat) -> bool {
    ((h as nat) / pow2(b)) % 2 == 1
}

fn get_bit(h: u64, b: u64) -> (r: bool)
    requires
        b < 64,
    ensures
        r == nth_bit(h, b as nat),
{
    let x = h >> b;
    proof {
        assert((x & 1) == x % 2) by (bit_vector);
    }
    (x & 1) == 1
}

/// The contribution of one token piece to one SimHash column: nothing
/// for an empty piece, otherwise +1 or -1 by the token hash's bit.
pub open spec fn piece_weight(t: Seq<char>, b: nat) -> int {
    if t.len() == 0 {
        0
    } else if nth_bit(fnv64_of(t), b) {
        1
    } else {
        -1
    }
}

/// The signed column sum over the token pieces.
pub open spec fn bit_weight(ps: Seq<Seq<char>>, b: nat) -> int
    decreases ps.len(),
{
    if ps.len() == 0 {
        0
    } else {
        bit_weight(ps.drop_last(), b) + piece_weight(ps.last(), b)
    }
}

proof fn lemma_bit_weight_push(ps: Seq<Seq<char>>, t: Seq<char>, b: nat)
    ensures
        bit_weight(ps.push(t), b) == bit_weight(ps, b) + piece_weight(t, b),
{
    assert(ps.push(t).drop_last() =~= ps);
    assert(ps.push(t).last() == t);
}

proof fn lemma_bit_weight_bound(ps: Seq<Seq<char>>, b: nat)
    ensures
        -ps.len() <= bit_weight(ps, b) <= ps.len(),
    decreases ps.len(),
{
    if ps.len() > 0 {
        lemma_bit_weight_bound(ps.drop_last(), b);
    }
}

/// The SimHash value accumulated over columns 0 to `b` (exclusive): a
/// column with a positive sum sets its bit.
pub open spec fn sim_accum(ps: Seq<Seq<char>>, b: nat) -> nat
    decreases b,
{
    if b == 0 {
        0
    } else {
        sim_accum(ps, (b - 1) as nat) + (if bit_weight(ps, (b - 1) as nat) > 0 {
            pow2((b - 1) as nat)
        } else {
            0
        })
    }
}

proof fn lemma_sim_accum_bound(ps: Seq<Seq<char>>, b: nat)
    ensures
        sim_accum(ps, b) < pow2(b),
    decreases b,
{
    vstd::arithmetic::power2::lemma_pow2_pos(b);
    if b > 0 {
        lemma_sim_accum_bound(ps, (b - 1) as nat);
        vstd::arithmetic::power2::lemma_pow2_unfold(b);
    }
}

/// The 64-bit SimHash of a text: tokenize at non-alphanumerics, hash
/// each token, sum signed bit contributions, and emit one bit per
/// column by the sign of the sum.
pub open spec fn spec_sim_hash(s: Seq<char>) -> u64 {
    sim_accum(split_seps(s), 64) as u64
}

/// Computes the SimHash of a text. Deterministic: the result is exactly
/// `spec_sim_hash` of the characters, so equal texts always hash alike.
pub fn sim_hash(text: &str) -> (r: u64)
    requires
        text@.len() < 0x1000000000000000,
    ensures
        r == spec_sim_hash(text@),
{
    let v = chars_of(text);
    let pieces = split_tokens(&v);
    let ghost ps = views_of(pieces@);

    let mut counters: Vec<i64> = Vec::new();
    let mut b0: usize = 0;
    while b0 < 64
        invariant
            counters@.len() == b0,
            b0 <= 64,
            forall|b: int| 0 <= b < b0 ==> counters@[b] == 0,
        decreases 64 - b0,
    {
        counters.push(0);
        b0 = b0 + 1;
    }
    proof {
        assert(ps.take(0) =~= Seq::<Seq<char>>::empty());
        crate::strutil::lemma_split_seps_count(v@);
    }
    let mut i: usize = 0;
    while i < pieces.len()
        invariant
            i <= pieces.len(),
            ps == views_of(pieces@),
            ps.len() == pieces@.len(),
            pieces@.len() <= v@.len() + 1,
            v@.len() < 0x1000000000000000,
            counters@.len() == 64,
            forall|b: int|
                0 <= b < 64 ==> counters@[b] == bit_weight(ps.take(i as int), b as nat),
        decreases pieces.len() - i,
    {
        proof {
            assert(ps.take(i + 1) =~= ps.take(i as int).push(ps[i as int]));
            assert forall|b: int| 0 <= b < 64 implies #[trigger] bit_weight(
                ps.take(i + 1),
                b as nat,
            ) == bit_weight(ps.take(i as int), b as nat) + piece_weight(
                ps[i as int],
                b as nat,
            ) by {
                lemma_bit_weight_push(ps.take(i as int), ps[i as int], b as nat);
            }
            assert forall|b: int| 0 <= b < 64 implies -(i as int) <= #[trigger] counters@[b]
                <= i as int by {
                lemma_bit_weight_bound(ps.take(i as int), b as nat);
            }
        }
        let piece = &pieces[i];
        if piece.len() == 0 {
            proof {
                assert(ps[i as int] == pieces@[i as int]@);
                assert(forall|b: int|
                    0 <= b < 64 ==> #[trigger] piece_weight(ps[i as int], b as nat) == 0);
            }
        } else {
            let h = fnv64(piece);
            let mut b: usize = 0;
            while b < 64
                invariant
                    b <= 64,
                    i < pieces.len(),
                    ps == views_of(pieces@),
                    ps.len() == pieces@.len(),
                    pieces@.len() <= v@.len() + 1,
                    v@.len() < 0x1000000000000000,
                    h == fnv64_of(ps[i as int]),
                    ps[i as int].len() > 0,
                    counters@.len() == 64,
                    forall|c: int|
                        0 <= c < b ==> counters@[c] == bit_weight(ps.take(i as int), c as nat)
                            + piece_weight(ps[i as int], c as nat),
                    forall|c: int|
                        b <= c < 64 ==> counters@[c] == bit_weight(ps.take(i as int), c as nat),
                    forall|c: int|
                        0 <= c < 64 ==> -(i as int) - 1 <= #[trigger] counters@[c] <= i as int
                            + 1,
                decreases 64 - b,
            {
                proof {
                    lemma_bit_weight_bound(ps.take(i as int), b as nat);
                }
                let w = counters[b];
                if get_bit(h, b as u64) {
                    counters.set(b, w + 1);
                } else {
                    counters.set(b, w - 1);
                }
                b = b + 1;
            }
        }
        i = i + 1;
    }
    proof {
        assert(ps.take(ps.len() as int) =~= ps);
    }

    // assemble the 64 column signs into the hash value
    let mut r: u64 = 0;
    let mut bit: u64 = 1;
    let mut b: usize = 0;
    proof {
        lemma2_to64();
        lemma2_to64_rest();
    }
    while b < 64
        invariant
            b <= 64,
            counters@.len() == 64,
            forall|c: int| 0 <= c < 64 ==> counters@[c] == bit_weight(ps, c as nat),
            r == sim_accum(ps, b as nat),
            b < 64 ==> bit == pow2(b as nat),
            r < pow2(b as nat),
        decreases 64 - b,
    {
        proof {
            lemma_sim_accum_bound(ps, b as nat);
            lemma2_to64();
            lemma2_to64_rest();
            vstd::arithmetic::power2::lemma_pow2_unfold((b + 1) as nat);
        }
        if counters[b] > 0 {
            r = r + bit;
        }
        if b < 63 {
            bit = bit * 2;
        }
        b = b + 1;
    }
    proof {
        assert(r == sim_accum(ps, 64));
    }
    r
}

/// The number of differing bits in the low `b` bits of `x`.
pub open spec fn ones(x: nat, b: nat) -> nat
    decreases b,
{
    if b == 0 {
        0
    } else {
        (x % 2) + ones(x / 2, (b - 1) as nat)
    }
}

/// The Hamming distance between two 64-bit hashes.
pub open spec fn spec_hamming(a: u64, b: u64) -> nat {
    ones((a ^ b) as nat, 64)
}

/// Counts the differing bits of two hashes.
pub fn hamming_distance(a: u64, b: u64) -> (r: u64)
    ensures
        r == spec_hamming(a, b),
        r <= 64,
{
    let mut x: u64 = a ^ b;
    let mut cnt: u64 = 0;
    let mut j: usize = 0;
    let ghost total = ones((a ^ b) as nat, 64);
    proof {
        lemma_ones_bound((a ^ b) as nat, 64);
    }
    while j < 64
        invariant
            j <= 64,
            cnt + ones(x as nat, (64 - j) as nat) == total,
            total <= 64,
            cnt <= j,
        decreases 64 - j,
    {
        let low = x & 1;
        proof {
            assert((x & 1) == x % 2) by (bit_vector);
            assert((x >> 1u64) == x / 2) by (bit_vector);
        }
        cnt = cnt + low;
        x = x >> 1u64;
        j = j + 1;
    }
    cnt
}

proof fn lemma_ones_bound(x: nat, b: nat)
    ensures
        ones(x, b) <= b,
    decreases b,
{
    if b > 0 {
        lemma_ones_bound(x / 2, (b - 1) as nat);
    }
}

/// Two hashes are near-duplicates when they differ in at most 3 bits.
pub fn is_near_duplicate(a: u64, b: u64) -> (r: bool)
    ensures
        r == (spec_hamming(a, b) <= 3),
{
    hamming_distance(a, b) <= 3
}

/// Whether any stored hash is within Hamming distance 3 of `sim`.
pub fn find_near(sim: u64, candidates: &Vec<u64>) -> (r: bool)
    ensures
        r == exists|i: int|
            0 <= i < candidates@.len() && spec_hamming(sim, #[trigger] candidates@[i]) <= 3,
{
    let mut i: usize = 0;
    while i < candidates.len()
        invariant
            i <= candidates@.len(),
            forall|k: int| 0 <= k < i ==> spec_hamming(sim, #[trigger] candidates@[k]) > 3,
        decreases candidates.len() - i,
    {
        if is_near_duplicate(sim, candidates[i]) {
            return true;
        }
        i = i + 1;
    }
    false
}

/// Decides whether a page duplicates stored content. The surrounding
/// runtime queries the store for pages sharing the text hash and for
/// near-duplicate candidates; the decision itself is taken here.
pub struct Deduplicator {
}

/// A page duplicates stored content exactly when its text hash is
/// matched by an existing page or its similarity hash has a
/// near-duplicate candidate.
pub open spec fn spec_is_duplicate(
    page: Page,
    same_text_hash: Seq<Page>,
    near_duplicates: Seq<Page>,
) -> bool {
    (page.text_hash is Some && same_text_hash.len() > 0) || (page.sim_hash is Some
        && near_duplicates.len() > 0)
}

impl Deduplicator {
    pub fn new() -> (r: Deduplicator)
        ensures
            true,
    {
        Deduplicator {  }
    }

    /// A page is a duplicate exactly when it has a text hash matched by
    /// an existing page, or a similarity hash matched by a
    /// near-duplicate candidate.
    pub fn is_duplicate(
        &self,
        page: &Page,
        same_text_hash: &Vec<Page>,
        near_duplicates: &Vec<Page>,
    ) -> (r: bool)
        ensures
            r == spec_is_duplicate(*page, same_text_hash@, near_duplicates@),
    {
        if page.text_hash.is_some() && same_text_hash.len() > 0 {
            return true;
        }
        if page.sim_hash.is_some() && near_duplicates.len() > 0 {
            return true;
        }
        false
    }
}

} // verus!
