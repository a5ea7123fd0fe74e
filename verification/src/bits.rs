//! Sets of tile-rotation ids, held in one `u128`.
//!
//! The executable operations on a set are those of `bitsetium`; their
//! contracts are stated over the bits of the word. On top of them this module
//! gives the mathematical reading of a word ([`is_set`], [`set_bits`]) and the
//! verified helpers that walk a set in ascending order.

use bitsetium::{BitEmpty, BitIntersection, BitSearch, BitSet, BitTestNone, BitUnion};
use vstd::prelude::*;

verus! {

/// Whether `idx` is a member of `bits`.
pub open spec fn is_set(bits: u128, idx: int) -> bool {
    0 <= idx < 128 && 0 != bits & (1u128 << (idx as u128))
}

/// Every member of `bits` is below `limit`.
pub open spec fn bounded(bits: u128, limit: int) -> bool {
    forall|i: int| #[trigger] is_set(bits, i) ==> i < limit
}

/// The set `{0, .., n - 1}`.
pub open spec fn low_mask(n: int) -> u128 {
    if n >= 128 {
        u128::MAX
    } else if n <= 0 {
        0
    } else {
        !(u128::MAX << (n as u128))
    }
}

/// The members of `bits` that are below `n`, in ascending order.
pub open spec fn set_bits_below(bits: u128, n: int) -> Seq<usize>
    decreases n,
{
    if n <= 0 {
        Seq::empty()
    } else if is_set(bits, n - 1) {
        set_bits_below(bits, n - 1).push((n - 1) as usize)
    } else {
        set_bits_below(bits, n - 1)
    }
}

/// The members of `bits`, in ascending order.
pub open spec fn set_bits(bits: u128) -> Seq<usize> {
    set_bits_below(bits, 128)
}

/// The number of members of `bits`.
pub open spec fn count(bits: u128) -> nat {
    set_bits(bits).len()
}

/// `bitsetium::BitEmpty::empty` for `u128`: the word with no bit set.
#[verifier::external_body]
pub(crate) fn bit_empty() -> (r: u128)
    ensures
        r == 0,
{
    <u128 as BitEmpty>::empty()
}

/// `bitsetium::BitUnion::union` for `u128`: the bitwise or of the two words.
#[verifier::external_body]
pub(crate) fn bit_union(a: u128, b: u128) -> (r: u128)
    ensures
        r == a | b,
{
    a.union(b)
}

/// `bitsetium::BitIntersection::intersection` for `u128`: the bitwise and of
/// the two words.
#[verifier::external_body]
pub(crate) fn bit_intersection(a: u128, b: u128) -> (r: u128)
    ensures
        r == a & b,
{
    a.intersection(b)
}

/// `bitsetium::BitSet::set` for `u128`: sets bit `idx` and leaves the others.
/// The call panics for an index above 127, which `requires` leaves out.
#[verifier::external_body]
pub(crate) fn bit_set(bits: &mut u128, idx: usize)
    requires
        idx < 128,
    ensures
        *final(bits) == *old(bits) | (1u128 << (idx as u128)),
{
    bits.set(idx)
}

/// `bitsetium::BitTestNone::test_none` for `u128`: whether the word is zero.
#[verifier::external_body]
pub(crate) fn bit_test_none(bits: u128) -> (r: bool)
    ensures
        r == (bits == 0),
{
    bits.test_none()
}

/// `bitsetium::BitSearch::find_first_set` for `u128`: the least set bit at or
/// above `lower`, or `None` where no bit from `lower` up to 127 is set.
#[verifier::external_body]
pub(crate) fn bit_find_first_set(bits: u128, lower: usize) -> (r: Option<usize>)
    ensures
        match r {
            Some(idx) => lower <= idx < 128 && is_set(bits, idx as int) && forall|j: int|
                lower <= j < idx ==> !is_set(bits, j),
            None => forall|j: int| lower <= j < 128 ==> !is_set(bits, j),
        },
{
    bits.find_first_set(lower)
}

/// Membership in a union.
pub proof fn lemma_is_set_or(a: u128, b: u128, idx: int)
    ensures
        is_set(a | b, idx) <==> is_set(a, idx) || is_set(b, idx),
{
    if 0 <= idx < 128 {
        let i = idx as u128;
        assert(0 != (a | b) & (1u128 << i) <==> (0 != a & (1u128 << i)) || (0 != b & (1u128 << i)))
            by (bit_vector);
    }
}

/// Membership in an intersection.
pub proof fn lemma_is_set_and(a: u128, b: u128, idx: int)
    ensures
        is_set(a & b, idx) <==> is_set(a, idx) && is_set(b, idx),
{
    if 0 <= idx < 128 {
        let i = idx as u128;
        assert(0 != (a & b) & (1u128 << i) <==> (0 != a & (1u128 << i)) && (0 != b & (1u128 << i)))
            by (bit_vector);
    }
}

/// The empty set has no member.
pub proof fn lemma_is_set_zero(idx: int)
    ensures
        !is_set(0, idx),
{
    if 0 <= idx < 128 {
        let i = idx as u128;
        assert(0 == 0u128 & (1u128 << i)) by (bit_vector);
    }
}

/// The members of a singleton.
pub proof fn lemma_is_set_single(bit: int, idx: int)
    requires
        0 <= bit < 128,
    ensures
        is_set(1u128 << (bit as u128), idx) <==> idx == bit,
{
    if 0 <= idx < 128 {
        let i = idx as u128;
        let b = bit as u128;
        assert(0 != (1u128 << b) & (1u128 << i) <==> i == b) by (bit_vector)
            requires
                i < 128,
                b < 128,
        ;
    }
}

/// The members of `low_mask(n)` are the ids below `n`.
pub proof fn lemma_is_set_low_mask(n: int, idx: int)
    requires
        0 <= n <= 128,
    ensures
        is_set(low_mask(n), idx) <==> 0 <= idx < n,
{
    if 0 <= idx < 128 {
        let i = idx as u128;
        if n >= 128 {
            assert(0 != u128::MAX & (1u128 << i)) by (bit_vector)
                requires
                    i < 128,
            ;
        } else if n <= 0 {
            assert(0 == 0u128 & (1u128 << i)) by (bit_vector);
        } else {
            let m = n as u128;
            assert(0 != (!(u128::MAX << m)) & (1u128 << i) <==> i < m) by (bit_vector)
                requires
                    i < 128,
                    0 < m < 128,
            ;
        }
    }
}

/// A word none of whose bits below `n` is set has nothing in common with
/// `low_mask(n)`.
proof fn lemma_clear_below(x: u128, n: int)
    requires
        0 <= n <= 128,
        forall|i: int| 0 <= i < n ==> !is_set(x, i),
    ensures
        x & low_mask(n) == 0,
    decreases n,
{
    if n == 0 {
        assert(x & 0 == 0) by (bit_vector);
    } else {
        lemma_clear_below(x, n - 1);
        assert(!is_set(x, n - 1));
        let k = (n - 1) as u128;
        let lower = low_mask(n - 1);
        let upper = low_mask(n);
        assert(lower == if k == 0 {
            0
        } else {
            !(u128::MAX << k)
        });
        assert(upper == if k == 127 {
            u128::MAX
        } else {
            !(u128::MAX << ((k + 1) as u128))
        });
        assert(x & upper == 0) by (bit_vector)
            requires
                k < 128,
                x & lower == 0,
                0 == x & (1u128 << k),
                lower == if k == 0 {
                    0
                } else {
                    !(u128::MAX << k)
                },
                upper == if k == 127 {
                    u128::MAX
                } else {
                    !(u128::MAX << ((k + 1) as u128))
                },
        ;
    }
}

/// Two words with the same members are equal.
pub proof fn lemma_same_members(a: u128, b: u128)
    requires
        forall|i: int| 0 <= i < 128 ==> is_set(a, i) == is_set(b, i),
    ensures
        a == b,
{
    let x = a ^ b;
    assert forall|i: int| 0 <= i < 128 implies !is_set(x, i) by {
        let k = i as u128;
        assert(is_set(a, i) == is_set(b, i));
        assert(0 == (a ^ b) & (1u128 << k)) by (bit_vector)
            requires
                k < 128,
                (0 != a & (1u128 << k)) == (0 != b & (1u128 << k)),
        ;
    }
    lemma_clear_below(x, 128);
    assert(a == b) by (bit_vector)
        requires
            (a ^ b) & u128::MAX == 0,
    ;
}

/// What `set_bits_below` holds: members of `bits` below `n`, each once, in
/// ascending order.
pub proof fn lemma_set_bits_below(bits: u128, n: int)
    requires
        0 <= n <= 128,
    ensures
        set_bits_below(bits, n).len() <= n,
        forall|k: int|
            0 <= k < set_bits_below(bits, n).len() ==> is_set(
                bits,
                #[trigger] set_bits_below(bits, n)[k] as int,
            ) && set_bits_below(bits, n)[k] < n,
        forall|j: int, k: int|
            0 <= j < k < set_bits_below(bits, n).len() ==> set_bits_below(bits, n)[j]
                < set_bits_below(bits, n)[k],
        forall|i: int|
            0 <= i < n && is_set(bits, i) ==> set_bits_below(bits, n).contains(i as usize),
    decreases n,
{
    if n > 0 {
        lemma_set_bits_below(bits, n - 1);
        let prev = set_bits_below(bits, n - 1);
        let cur = set_bits_below(bits, n);
        assert forall|i: int| 0 <= i < n && is_set(bits, i) implies cur.contains(i as usize) by {
            if i == n - 1 {
                assert(cur[cur.len() - 1] == i as usize);
            } else {
                assert(prev.contains(i as usize));
                let k = choose|k: int| 0 <= k < prev.len() && prev[k] == i as usize;
                assert(cur[k] == i as usize);
            }
        }
    }
}

/// Where no bit from `lo` up to `hi` is set, the list of members does not grow
/// between the two.
pub proof fn lemma_set_bits_gap(bits: u128, lo: int, hi: int)
    requires
        0 <= lo <= hi <= 128,
        forall|j: int| lo <= j < hi ==> !is_set(bits, j),
    ensures
        set_bits_below(bits, hi) == set_bits_below(bits, lo),
    decreases hi - lo,
{
    if lo < hi {
        lemma_set_bits_gap(bits, lo, hi - 1);
    }
}

/// The set `{0, .., n - 1}`.
pub fn full_below(n: usize) -> (r: u128)
    requires
        n <= 128,
    ensures
        r == low_mask(n as int),
{
    if n >= 128 {
        u128::MAX
    } else if n == 0 {
        bit_empty()
    } else {
        !(u128::MAX << (n as u128))
    }
}

/// The members of `bits` in ascending order.
pub fn iter_bits(bits: u128) -> (r: Vec<usize>)
    ensures
        r@ == set_bits(bits),
{
    let mut out: Vec<usize> = Vec::new();
    let mut next: usize = 0;
    while next < 128
        invariant
            next <= 128,
            out@ == set_bits_below(bits, next as int),
        decreases 128 - next,
    {
        match bit_find_first_set(bits, next) {
            None => {
                proof {
                    lemma_set_bits_gap(bits, next as int, 128);
                }
                return out;
            },
            Some(idx) => {
                proof {
                    lemma_set_bits_gap(bits, next as int, idx as int);
                }
                out.push(idx);
                next = idx + 1;
            },
        }
    }
    out
}

/// The number of members of `bits`.
pub fn count_bits(bits: u128) -> (r: usize)
    ensures
        r == count(bits),
        r <= 128,
{
    let mut total: usize = 0;
    let mut next: usize = 0;
    while next < 128
        invariant
            next <= 128,
            total == set_bits_below(bits, next as int).len(),
            total <= next,
        decreases 128 - next,
    {
        match bit_find_first_set(bits, next) {
            None => {
                proof {
                    lemma_set_bits_gap(bits, next as int, 128);
                }
                return total;
            },
            Some(idx) => {
                proof {
                    lemma_set_bits_gap(bits, next as int, idx as int);
                }
                total = total + 1;
                next = idx + 1;
            },
        }
    }
    total
}

/// The least member of `bits`, if it has one.
pub fn first_bit(bits: u128) -> (r: Option<usize>)
    ensures
        match r {
            Some(idx) => count(bits) > 0 && set_bits(bits)[0] == idx,
            None => count(bits) == 0,
        },
{
    let found = bit_find_first_set(bits, 0);
    proof {
        match found {
            None => {
                lemma_set_bits_gap(bits, 0, 128);
            },
            Some(idx) => {
                lemma_set_bits_gap(bits, 0, idx as int);
                assert(set_bits_below(bits, 0) == Seq::<usize>::empty());
                assert(set_bits_below(bits, idx as int + 1) == seq![idx]);
                lemma_set_bits_prefix(bits, idx as int + 1, 128);
                assert(set_bits_below(bits, idx as int + 1)[0] == idx);
            },
        }
    }
    found
}

/// The list of members below `lo` opens the list of members below `hi`.
pub proof fn lemma_set_bits_prefix(bits: u128, lo: int, hi: int)
    requires
        0 <= lo <= hi <= 128,
    ensures
        set_bits_below(bits, lo).is_prefix_of(set_bits_below(bits, hi)),
    decreases hi - lo,
{
    if lo < hi {
        lemma_set_bits_prefix(bits, lo, hi - 1);
    }
}

} // verus!
