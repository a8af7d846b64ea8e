//! Capacity rules shared by both channel variants.
use vstd::prelude::*;
use vstd::arithmetic::power2::{lemma2_to64, lemma_pow2_unfold, pow2};

use crate::error::ChannelError;

verus! {

/// Check that a requested per-sender capacity lies between one and `max`.
pub fn validate_capacity(capacity: usize, max: usize) -> (r: Result<(), ChannelError>)
    ensures
        r == (if capacity == 0 {
            Err::<(), ChannelError>(ChannelError::ZeroCapacity)
        } else if capacity > max {
            Err(ChannelError::CapacityTooLarge { requested: capacity, max })
        } else {
            Ok(())
        }),
{
    if capacity == 0 {
        return Err(ChannelError::ZeroCapacity);
    }
    if capacity > max {
        return Err(ChannelError::CapacityTooLarge { requested: capacity, max });
    }
    Ok(())
}

/// Whether `rounded` is the least power of two that is at least `capacity`.
pub open spec fn is_rounded(capacity: int, rounded: int) -> bool {
    &&& exists|k: nat| rounded == #[trigger] pow2(k)
    &&& capacity <= rounded < 2 * capacity
}

/// Round a capacity up to the next power of two.
pub fn round_capacity(capacity: usize) -> (rounded: usize)
    requires
        0 < capacity <= usize::MAX / 2,
    ensures
        is_rounded(capacity as int, rounded as int),
{
    proof {
        lemma2_to64();
    }
    let mut rounded: usize = 1;
    let ghost mut k: nat = 0;
    while rounded < capacity
        invariant
            rounded == pow2(k),
            1 <= rounded < 2 * capacity,
            capacity <= usize::MAX / 2,
        decreases 2 * capacity - rounded,
    {
        rounded = rounded * 2;
        proof {
            lemma_pow2_unfold(k + 1);
            k = k + 1;
        }
    }
    rounded
}

/// A capacity has only one rounded value.
pub proof fn law_rounding_is_unique(capacity: int, a: int, b: int)
    requires
        is_rounded(capacity, a),
        is_rounded(capacity, b),
    ensures
        a == b,
{
    let i = choose|k: nat| a == #[trigger] pow2(k);
    let j = choose|k: nat| b == #[trigger] pow2(k);
    if i < j {
        lemma_doubles(i, j);
    } else if j < i {
        lemma_doubles(j, i);
    }
}

/// A larger exponent at least doubles the power.
proof fn lemma_doubles(i: nat, j: nat)
    requires
        i < j,
    ensures
        2 * pow2(i) <= pow2(j),
        pow2(i) > 0,
    decreases j,
{
    vstd::arithmetic::power2::lemma_pow2_pos(i);
    lemma_pow2_unfold(j);
    if i + 1 < j {
        lemma_doubles(i, (j - 1) as nat);
    }
}

} // verus!
