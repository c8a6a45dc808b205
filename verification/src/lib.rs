//! Linear-light samples to 8-bit sRGB codes.
//!
//! A sample is an IEEE 754 binary32 value, handed over as its bit pattern
//! (`f32::to_bits`); a code is a byte. [`linear_float32_to_srgb`] encodes a
//! run of samples into a buffer of the caller, and [`alloc_f32`] and
//! [`alloc_u8`] reserve such buffers. The rule that gives a sample its code
//! is stated in [`transfer`], and [`encode`] computes it.

pub mod encode;
pub mod powers;
pub mod sample;
pub mod transfer;

use crate::encode::encode_sample;
use crate::transfer::srgb_byte;
use vstd::prelude::*;

verus! {

/// Encodes the first `len` samples of `input` into the first `len` bytes
/// of `output`, each byte from the sample at its own index. What lies
/// behind them in `output` is left as it was; with `len == 0` nothing is
/// written at all.
pub fn linear_float32_to_srgb(input: &[u32], len: usize, output: &mut [u8])
    requires
        len <= input@.len(),
        len <= old(output)@.len(),
    ensures
        final(output)@.len() == old(output)@.len(),
        forall|i: int| 0 <= i < len ==> final(output)@[i] == srgb_byte(input@[i]),
        forall|i: int| len <= i < old(output)@.len() ==> final(output)@[i] == old(output)@[i],
        len == 0 ==> final(output)@ == old(output)@,
{
    let mut i: usize = 0;
    while i < len
        invariant
            i <= len <= input@.len(),
            output@.len() == old(output)@.len(),
            len <= output@.len(),
            forall|j: int| 0 <= j < i ==> output@[j] == srgb_byte(input@[j]),
            forall|j: int| i <= j < output@.len() ==> output@[j] == old(output)@[j],
        decreases len - i,
    {
        output[i] = encode_sample(input[i]);
        i += 1;
    }
    assert(len == 0 ==> output@ =~= old(output)@);
}

/// Reserves a block of `size` samples and gives it to the caller for
/// good: nothing in this library frees it or keeps a hold on it. Every
/// sample of the block is zero until the caller writes it.
pub fn alloc_f32(size: usize) -> (block: Vec<u32>)
    ensures
        block@.len() == size,
        forall|i: int| 0 <= i < size ==> block@[i] == 0u32,
{
    vec![0u32; size]
}

/// Reserves a block of `size` bytes and gives it to the caller for good:
/// nothing in this library frees it or keeps a hold on it. Every byte of
/// the block is zero until the caller writes it.
pub fn alloc_u8(size: usize) -> (block: Vec<u8>)
    ensures
        block@.len() == size,
        forall|i: int| 0 <= i < size ==> block@[i] == 0u8,
{
    vec![0u8; size]
}

} // verus!
