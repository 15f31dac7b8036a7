//! Rounding up to an alignment.

use vstd::arithmetic::power2::pow2;
use vstd::prelude::*;

use crate::error::AppError;

verus! {

/// Whether `value` is a power of two.
pub open spec fn is_power_of_two(value: int) -> bool {
    exists|exponent: nat| value == #[trigger] pow2(exponent)
}

/// The smallest multiple of `alignment` that is not below `value`.
pub open spec fn round_up(value: int, alignment: int) -> int {
    (value + alignment - 1) / alignment * alignment
}

/// What rounding up gives where results up to `max` can be stored.
pub open spec fn aligned(value: int, alignment: int, max: int) -> Result<int, AppError> {
    if !is_power_of_two(alignment) {
        Err(AppError::InvalidAlignment)
    } else if value + alignment - 1 > max {
        Err(AppError::AlignmentOverflow)
    } else {
        Ok(round_up(value, alignment))
    }
}

/// Whether `value` is a power of two.
pub fn check_power_of_two(value: u64) -> (result: bool)
    ensures
        result == is_power_of_two(value as int),
{
    let mut power: u64 = 1;
    let ghost mut exponent: nat = 0;
    proof {
        vstd::arithmetic::power2::lemma_pow2(0);
        vstd::arithmetic::power2::lemma2_to64();
    }
    while power < value
        invariant
            power == pow2(exponent),
            power >= 1,
            forall|k: nat| k < exponent ==> #[trigger] pow2(k) < value,
        decreases 2 * value - power,
    {
        proof {
            vstd::arithmetic::power2::lemma_pow2_unfold(exponent + 1);
        }
        if power > u64::MAX / 2 {
            proof {
                assert forall|k: nat| #[trigger] pow2(k) != value by {
                    if k > exponent {
                        if k > exponent + 1 {
                            vstd::arithmetic::power2::lemma_pow2_strictly_increases(
                                exponent + 1,
                                k,
                            );
                        }
                    }
                }
            }
            return false;
        }
        power = power * 2;
        proof {
            exponent = exponent + 1;
        }
    }
    proof {
        if power != value {
            assert forall|k: nat| #[trigger] pow2(k) != value by {
                if k > exponent {
                    vstd::arithmetic::power2::lemma_pow2_strictly_increases(exponent, k);
                }
            }
        }
    }
    power == value
}

/// Rounding up stays at or above the value, below the next multiple, and on a multiple.
pub proof fn law_rounding_gives_the_next_multiple(value: int, alignment: int)
    requires
        0 <= value,
        0 < alignment,
    ensures
        value <= round_up(value, alignment) < value + alignment,
        round_up(value, alignment) % alignment == 0,
{
    let sum = value + alignment - 1;
    vstd::arithmetic::div_mod::lemma_fundamental_div_mod(sum, alignment);
    vstd::arithmetic::div_mod::lemma_mod_bound(sum, alignment);
    vstd::arithmetic::mul::lemma_mul_is_commutative(alignment, sum / alignment);
    vstd::arithmetic::div_mod::lemma_mod_multiples_basic(sum / alignment, alignment);
}

/// Powers of two are positive.
pub proof fn lemma_power_of_two_positive(value: int)
    requires
        is_power_of_two(value),
    ensures
        value > 0,
{
    let exponent = choose|exponent: nat| value == #[trigger] pow2(exponent);
    vstd::arithmetic::power2::lemma_pow2_pos(exponent);
}

/// Rounds `value` up to a multiple of `alignment`.
pub fn align_up(value: usize, alignment: usize) -> (result: Result<usize, AppError>)
    ensures
        match aligned(value as int, alignment as int, usize::MAX as int) {
            Ok(size) => result == Ok::<usize, AppError>(size as usize) && value <= size
                <= usize::MAX,
            Err(error) => result == Err::<usize, AppError>(error),
        },
{
    if !check_power_of_two(alignment as u64) {
        return Err(AppError::InvalidAlignment);
    }
    proof {
        lemma_power_of_two_positive(alignment as int);
        law_rounding_gives_the_next_multiple(value as int, alignment as int);
    }
    if value > usize::MAX - (alignment - 1) {
        return Err(AppError::AlignmentOverflow);
    }
    let count: usize = (value + (alignment - 1)) / alignment;
    assert(count * alignment == round_up(value as int, alignment as int));
    Ok(count * alignment)
}

/// Rounds `value` up to a multiple of `alignment`.
pub fn align_up_u64(value: u64, alignment: u64) -> (result: Result<u64, AppError>)
    ensures
        match aligned(value as int, alignment as int, u64::MAX as int) {
            Ok(size) => result == Ok::<u64, AppError>(size as u64) && value <= size <= u64::MAX,
            Err(error) => result == Err::<u64, AppError>(error),
        },
{
    if !check_power_of_two(alignment) {
        return Err(AppError::InvalidAlignment);
    }
    proof {
        lemma_power_of_two_positive(alignment as int);
        law_rounding_gives_the_next_multiple(value as int, alignment as int);
    }
    if value > u64::MAX - (alignment - 1) {
        return Err(AppError::AlignmentOverflow);
    }
    let count: u64 = (value + (alignment - 1)) / alignment;
    assert(count * alignment == round_up(value as int, alignment as int));
    Ok(count * alignment)
}

} // verus!
