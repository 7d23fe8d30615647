//! Compressed data.

use keramics_compression::{AdcContext, Bzip2Context, LzfseContext, ZlibContext};
use vstd::prelude::*;

use crate::{bzip2_blocks, lzfse_blocks};

verus! {

/// Compression method.
#[derive(Clone, Copy, Debug, PartialEq, Eq, Structural)]
pub enum CompressionMethod {
    Adc,
    Bzip2,
    Lzfse,
    Zlib,
}

/// A buffer of `capacity` zeros after ADC data was decompressed into it, and the number of bytes
/// that were decompressed, if the data can be decompressed.
pub uninterp spec fn adc_decompressed(data: Seq<u8>, capacity: nat) -> Option<(Seq<u8>, nat)>;

/// A buffer of `capacity` zeros after bzip2 data was decompressed into it, and the number of bytes
/// that were decompressed, if the data can be decompressed.
pub uninterp spec fn bzip2_decompressed(data: Seq<u8>, capacity: nat) -> Option<(Seq<u8>, nat)>;

/// A buffer of `capacity` zeros after LZFSE data was decompressed into it, and the number of bytes
/// that were decompressed, if the data can be decompressed.
pub uninterp spec fn lzfse_decompressed(data: Seq<u8>, capacity: nat) -> Option<(Seq<u8>, nat)>;

/// A buffer of `capacity` zeros after zlib data was decompressed into it, and the number of bytes
/// that were decompressed, if the data can be decompressed.
pub uninterp spec fn zlib_decompressed(data: Seq<u8>, capacity: nat) -> Option<(Seq<u8>, nat)>;

/// A buffer of `capacity` zeros after LZFSE data was decompressed into it, and the number of bytes
/// that were decompressed, if the data can be decompressed. Where a block holds values out of their
/// bounds, the blocks before it have to fill the buffer.
pub open spec fn lzfse_outcome(data: Seq<u8>, capacity: nat) -> Option<(Seq<u8>, nat)> {
    let end = lzfse_blocks::sound_end(data, 0);
    let sound = data.take(end);
    if !lzfse_blocks::blocks_sound(sound) {
        None
    } else {
        match lzfse_decompressed(sound, capacity) {
            Some((buffer, count)) => if end == data.len() || count >= capacity {
                Some((buffer, count))
            } else {
                None
            },
            None => None,
        }
    }
}

/// A buffer of `capacity` zeros after data was decompressed into it, and the number of bytes that
/// were decompressed, if the data can be decompressed. Data that holds values out of their bounds
/// cannot.
pub open spec fn decompressed(
    method: CompressionMethod,
    data: Seq<u8>,
    capacity: nat,
) -> Option<(Seq<u8>, nat)> {
    match method {
        CompressionMethod::Adc => adc_decompressed(data, capacity),
        CompressionMethod::Bzip2 => if bzip2_blocks::blocks_sound(data) {
            bzip2_decompressed(data, capacity)
        } else {
            None
        },
        CompressionMethod::Lzfse => lzfse_outcome(data, capacity),
        CompressionMethod::Zlib => zlib_decompressed(data, capacity),
    }
}

/// Decompresses data with `keramics_compression::AdcContext::decompress`. What the buffer holds
/// after the call, how many bytes the context counts, and whether the call succeeds depend on the
/// data and the size of the buffer alone.
#[verifier::external_body]
fn adc_decompress(data: &[u8], capacity: usize) -> (result: Option<(Vec<u8>, usize)>)
    ensures
        match result {
            Some((buffer, count)) => {
                &&& buffer@.len() == capacity
                &&& adc_decompressed(data@, capacity as nat) == Some((buffer@, count as nat))
            },
            None => adc_decompressed(data@, capacity as nat) is None,
        },
{
    let mut buffer: Vec<u8> = vec![0; capacity];
    let mut context = AdcContext::new();
    match context.decompress(data, &mut buffer) {
        Ok(()) => Some((buffer, context.uncompressed_data_size)),
        Err(_) => None,
    }
}

/// Decompresses data with `keramics_compression::Bzip2Context::decompress`. What the buffer holds
/// after the call, how many bytes the context counts, and whether the call succeeds depend on the
/// data and the size of the buffer alone. Left out is data on which the arithmetic of the function
/// overflows: a code size below zero, codes that take up more than there is, and the length of a run
/// that is given by more than 63 symbols.
#[verifier::external_body]
fn bzip2_decompress(data: &[u8], capacity: usize) -> (result: Option<(Vec<u8>, usize)>)
    requires
        bzip2_blocks::blocks_sound(data@),
    ensures
        match result {
            Some((buffer, count)) => {
                &&& buffer@.len() == capacity
                &&& bzip2_decompressed(data@, capacity as nat) == Some((buffer@, count as nat))
            },
            None => bzip2_decompressed(data@, capacity as nat) is None,
        },
{
    let mut buffer: Vec<u8> = vec![0; capacity];
    let mut context = Bzip2Context::new();
    match context.decompress(data, &mut buffer) {
        Ok(()) => Some((buffer, context.uncompressed_data_size)),
        Err(_) => None,
    }
}

/// Decompresses data with `keramics_compression::LzfseContext::decompress`. What the buffer holds
/// after the call, how many bytes the context counts, and whether the call succeeds depend on the
/// data and the size of the buffer alone. Left out is data on which the arithmetic of the function
/// overflows, or on which it does not return: frequencies that are too large or end after their
/// header, and a block that leads back to itself or one before it.
#[verifier::external_body]
fn lzfse_decompress(data: &[u8], capacity: usize) -> (result: Option<(Vec<u8>, usize)>)
    requires
        lzfse_blocks::blocks_sound(data@),
    ensures
        match result {
            Some((buffer, count)) => {
                &&& buffer@.len() == capacity
                &&& lzfse_decompressed(data@, capacity as nat) == Some((buffer@, count as nat))
            },
            None => lzfse_decompressed(data@, capacity as nat) is None,
        },
{
    let mut buffer: Vec<u8> = vec![0; capacity];
    let mut context = LzfseContext::new();
    match context.decompress(data, &mut buffer) {
        Ok(()) => Some((buffer, context.uncompressed_data_size)),
        Err(_) => None,
    }
}

/// Decompresses data with `keramics_compression::ZlibContext::decompress`. What the buffer holds
/// after the call, how many bytes the context counts, and whether the call succeeds depend on the
/// data and the size of the buffer alone.
#[verifier::external_body]
fn zlib_decompress(data: &[u8], capacity: usize) -> (result: Option<(Vec<u8>, usize)>)
    ensures
        match result {
            Some((buffer, count)) => {
                &&& buffer@.len() == capacity
                &&& zlib_decompressed(data@, capacity as nat) == Some((buffer@, count as nat))
            },
            None => zlib_decompressed(data@, capacity as nat) is None,
        },
{
    let mut buffer: Vec<u8> = vec![0; capacity];
    let mut context = ZlibContext::new();
    match context.decompress(data, &mut buffer) {
        Ok(()) => Some((buffer, context.uncompressed_data_size)),
        Err(_) => None,
    }
}

/// Decompresses LZFSE data into a buffer of the given size.
fn decompress_lzfse(data: &[u8], capacity: usize) -> (result: Option<(Vec<u8>, usize)>)
    ensures
        match result {
            Some((buffer, count)) => {
                &&& buffer@.len() == capacity
                &&& lzfse_outcome(data@, capacity as nat) == Some((buffer@, count as nat))
            },
            None => lzfse_outcome(data@, capacity as nat) is None,
        },
{
    let end: usize = lzfse_blocks::find_sound_end(data);
    let sound: &[u8] = vstd::slice::slice_subrange(data, 0, end);
    assert(sound@ =~= data@.take(end as int));
    if lzfse_blocks::find_sound_end(sound) != end {
        return None;
    }
    match lzfse_decompress(sound, capacity) {
        Some((buffer, count)) => if end == data.len() || count >= capacity {
            Some((buffer, count))
        } else {
            None
        },
        None => None,
    }
}

/// Decompresses data into a buffer of the given size.
pub fn decompress(method: CompressionMethod, data: &[u8], capacity: usize) -> (result: Option<
    (Vec<u8>, usize),
>)
    ensures
        match result {
            Some((buffer, count)) => {
                &&& buffer@.len() == capacity
                &&& decompressed(method, data@, capacity as nat) == Some((buffer@, count as nat))
            },
            None => decompressed(method, data@, capacity as nat) is None,
        },
{
    match method {
        CompressionMethod::Adc => adc_decompress(data, capacity),
        CompressionMethod::Bzip2 => if bzip2_blocks::check_blocks(data) {
            bzip2_decompress(data, capacity)
        } else {
            None
        },
        CompressionMethod::Lzfse => decompress_lzfse(data, capacity),
        CompressionMethod::Zlib => zlib_decompress(data, capacity),
    }
}

} // verus!
