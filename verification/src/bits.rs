//! Sets of up to 64 small numbers packed into a word.
use vstd::prelude::*;
use vstd::std_specs::bits::{axiom_u64_trailing_zeros, u64_trailing_zeros};

verus! {

/// Whether the word holds the number `i`.
pub open spec fn bit(bits: u64, i: int) -> bool {
    0 <= i < 64 && (bits >> (i as u64)) & 1u64 == 1u64
}

/// The word that holds only `i`.
pub fn single(i: usize) -> (bits: u64)
    requires
        i < 64,
    ensures
        forall|j: int| #[trigger] bit(bits, j) <==> j == i,
        bits != 0,
{
    let n: u64 = i as u64;
    let bits: u64 = 1u64 << n;
    proof {
        assert forall|j: int| #[trigger] bit(bits, j) <==> j == i by {
            if 0 <= j < 64 {
                let k = j as u64;
                assert(((1u64 << n) >> k) & 1u64 == 1u64 <==> k == n) by (bit_vector)
                    requires
                        n < 64,
                        k < 64,
                ;
            }
        }
        assert(bit(bits, i as int));
        lemma_zero();
    }
    bits
}

/// The word holds nothing exactly when it is zero.
pub proof fn lemma_zero()
    ensures
        forall|j: int| !#[trigger] bit(0u64, j),
{
    assert forall|j: int| !#[trigger] bit(0u64, j) by {
        let k = j as u64;
        assert((0u64 >> k) & 1u64 == 0u64) by (bit_vector);
    }
}

/// A word that is not zero holds some number.
pub proof fn lemma_nonzero(bits: u64)
    requires
        bits != 0,
    ensures
        bit(bits, u64_trailing_zeros(bits) as int),
{
    axiom_u64_trailing_zeros(bits);
}

/// The union of two words.
pub fn union(a: u64, b: u64) -> (r: u64)
    ensures
        forall|j: int| #[trigger] bit(r, j) <==> bit(a, j) || bit(b, j),
        r == 0 <==> a == 0 && b == 0,
        r == a | b,
{
    let r: u64 = a | b;
    proof {
        assert forall|j: int| #[trigger] bit(r, j) <==> bit(a, j) || bit(b, j) by {
            let k = j as u64;
            assert(((a | b) >> k) & 1u64 == 1u64 <==> ((a >> k) & 1u64 == 1u64 || (b >> k) & 1u64
                == 1u64)) by (bit_vector);
        }
        assert((a | b) == 0 <==> a == 0 && b == 0) by (bit_vector);
    }
    r
}

/// Remove the smallest number from a word that is not zero.
pub fn pop_lowest(bits: u64) -> (r: (usize, u64))
    requires
        bits != 0,
    ensures
        bit(bits, r.0 as int),
        forall|j: int| j < r.0 ==> !#[trigger] bit(bits, j),
        forall|j: int| #[trigger] bit(r.1, j) <==> bit(bits, j) && j != r.0,
        r.1 < bits,
{
    let lowest: u32 = bits.trailing_zeros();
    proof {
        axiom_u64_trailing_zeros(bits);
    }
    let rest: u64 = bits & (bits - 1);
    proof {
        let m = (bits - 1) as u64;
        assert(bits & m < bits) by (bit_vector)
            requires
                m == bits - 1,
                bits != 0,
        ;
        let t = lowest as u64;
        assert forall|j: int| #[trigger] bit(rest, j) <==> bit(bits, j) && j != lowest by {
            if 0 <= j < 64 {
                let k = j as u64;
                let m = (bits - 1) as u64;
                assert(((bits & m) >> k) & 1u64 == 1u64 <==> ((bits >> k) & 1u64 == 1u64 && k
                    != t)) by (bit_vector)
                    requires
                        t < 64,
                        k < 64,
                        bits != 0,
                        m == bits - 1,
                        (bits >> t) & 1u64 == 1u64,
                        bits << ((64 - t) as u64) == 0,
                ;
            }
        }
    }
    (lowest as usize, rest)
}

/// The first number at or after `start`, going round from 63 to 0.
pub open spec fn first_from(bits: u64, start: int, found: int) -> bool {
    &&& bit(bits, found)
    &&& forall|j: int| #[trigger]
        bit(bits, j) ==> distance(start, found) <= distance(start, j)
}

/// How many steps lead from `start` up to `i`, going round from 63 to 0.
pub open spec fn distance(start: int, i: int) -> int {
    if i >= start {
        i - start
    } else {
        i + 64 - start
    }
}

/// Remove the first number at or after `start`, going round from 63 to 0.
pub fn pop_first_from(bits: u64, start: usize) -> (r: Option<(usize, u64)>)
    requires
        start < 64,
    ensures
        match r {
            None => bits == 0,
            Some((found, rest)) => {
                &&& first_from(bits, start as int, found as int)
                &&& forall|j: int| #[trigger] bit(rest, j) <==> bit(bits, j) && j != found
            },
        },
{
    if bits == 0 {
        return None;
    }
    let s: u64 = start as u64;
    let high: u64 = bits >> s;
    let found: usize;
    if high != 0 {
        let offset: u32 = high.trailing_zeros();
        proof {
            axiom_u64_trailing_zeros(high);
            let o = offset as u64;
            assert(o + s < 64 && (bits >> ((o + s) as u64)) & 1u64 == 1u64) by (bit_vector)
                requires
                    s < 64,
                    o < 64,
                    high == bits >> s,
                    (high >> o) & 1u64 == 1u64,
            ;
            assert forall|j: int| #[trigger] bit(bits, j) implies distance(s as int, o + s)
                <= distance(s as int, j) by {
                if j >= s && j - s < o {
                    let k = (j - s) as u64;
                    assert((high >> k) & 1u64 == 0u64);
                    let jj = j as u64;
                    assert((high >> k) & 1u64 == (bits >> jj) & 1u64) by (bit_vector)
                        requires
                            s < 64,
                            jj < 64,
                            jj >= s,
                            k == jj - s,
                            high == bits >> s,
                    ;
                }
            }
        }
        found = start + offset as usize;
    } else {
        let low: u32 = bits.trailing_zeros();
        proof {
            axiom_u64_trailing_zeros(bits);
            assert forall|j: int| #[trigger] bit(bits, j) implies j < s && j >= low by {
                if j >= s {
                    let jj = j as u64;
                    assert((bits >> jj) & 1u64 == 0u64) by (bit_vector)
                        requires
                            s < 64,
                            jj < 64,
                            jj >= s,
                            bits >> s == 0,
                    ;
                }
                if j < low {
                    assert((bits >> (j as u64)) & 1u64 == 0u64);
                }
            }
        }
        found = low as usize;
    }
    let one: u64 = single(found);
    let rest: u64 = bits & !one;
    proof {
        assert forall|j: int| #[trigger] bit(rest, j) <==> bit(bits, j) && j != found by {
            if 0 <= j < 64 {
                let k = j as u64;
                assert(((bits & !one) >> k) & 1u64 == 1u64 <==> ((bits >> k) & 1u64 == 1u64 && !((
                one >> k) & 1u64 == 1u64))) by (bit_vector)
                    requires
                        k < 64,
                ;
                assert(bit(one, j) <==> j == found);
            }
        }
    }
    Some((found, rest))
}

} // verus!
