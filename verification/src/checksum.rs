//! Checksums.

use keramics_checksums::{Adler32Context, ReversedCrc32Context};
use vstd::prelude::*;

verus! {

/// The CRC-32 of `data` for a reversed polynomial.
pub uninterp spec fn reversed_crc32_of(polynomial: u32, initial_value: u32, data: Seq<u8>) -> u32;

/// The Adler-32 of `data`.
pub uninterp spec fn adler32_of(initial_value: u32, data: Seq<u8>) -> u32;

/// Calculates a CRC-32 with `keramics_checksums::ReversedCrc32Context`: the value that `finalize`
/// gives after one `update` with the data on a new context. The checksum is that of the data for
/// the polynomial and the initial value.
#[verifier::external_body]
pub(crate) fn reversed_crc32(polynomial: u32, initial_value: u32, data: &[u8]) -> (checksum: u32)
    ensures
        checksum == reversed_crc32_of(polynomial, initial_value, data@),
{
    let mut context = ReversedCrc32Context::new(polynomial, initial_value);
    context.update(data);
    context.finalize()
}

/// Calculates an Adler-32 with `keramics_checksums::Adler32Context`: the value that `finalize`
/// gives after one `update` with the data on a new context. The checksum is that of the data for
/// the initial value.
#[verifier::external_body]
pub(crate) fn adler32(initial_value: u32, data: &[u8]) -> (checksum: u32)
    ensures
        checksum == adler32_of(initial_value, data@),
{
    let mut context = Adler32Context::new(initial_value);
    context.update(data);
    context.finalize()
}

} // verus!
