//! Integer powers: the facts that the proofs about the transfer function
//! rest on.

use vstd::arithmetic::mul::*;
use vstd::arithmetic::power::*;
use vstd::prelude::*;

verus! {

/// The fifth power, written out as a product.
pub open spec fn fifth(x: int) -> int {
    x * (x * (x * (x * x)))
}

/// The twelfth power, written out as a product.
pub open spec fn twelfth(x: int) -> int {
    let cube = x * (x * x);
    let sixth = cube * cube;
    sixth * sixth
}

/// `pow(x, 5)` is the product of five factors `x`.
pub proof fn lemma_fifth(x: int)
    ensures
        pow(x, 5) == fifth(x),
{
    reveal_with_fuel(pow, 6);
}

/// `pow(x, 12)` is the product of twelve factors `x`.
pub proof fn lemma_twelfth(x: int)
    ensures
        pow(x, 12) == twelfth(x),
{
    assert(pow(x, 3) == x * (x * x)) by {
        reveal_with_fuel(pow, 4);
    }
    lemma_pow_adds(x, 3, 3);
    lemma_pow_adds(x, 6, 6);
}

/// A power of a number that is not negative is not negative, and grows
/// with its base.
pub proof fn lemma_pow_base_increases(a: int, b: int, e: nat)
    requires
        0 <= a <= b,
    ensures
        0 <= pow(a, e) <= pow(b, e),
    decreases e,
{
    reveal(pow);
    if e > 0 {
        lemma_pow_base_increases(a, b, (e - 1) as nat);
        lemma_mul_nonnegative(a, pow(a, (e - 1) as nat));
        lemma_mul_upper_bound(a, b, pow(a, (e - 1) as nat), pow(b, (e - 1) as nat));
    }
}

/// `x * z >= y * z` holds exactly when `x >= y`, for positive `z`.
pub proof fn lemma_cancel_positive(x: int, y: int, z: int)
    requires
        0 < z,
    ensures
        x * z >= y * z <==> x >= y,
{
    if x >= y {
        lemma_mul_inequality(y, x, z);
    } else {
        lemma_mul_strict_inequality(x, y, z);
    }
}

} // verus!
