//! Samples: 24-bit signed integers, stored in three bytes with the least
//! significant byte first.

use crate::error::BdfError;
use byteorder::{ByteOrder, LittleEndian};
use vstd::prelude::*;

verus! {

/// The number of bytes that hold one sample.
pub const SAMPLE_WIDTH: usize = 3;

/// The least value that a sample can have.
pub const SAMPLE_MIN: i32 = -8_388_608;

/// The greatest value that a sample can have.
pub const SAMPLE_MAX: i32 = 8_388_607;

/// The value of the first three bytes of `bytes`, read as a two's-complement
/// integer of 24 bits with the least significant byte first.
pub open spec fn sample24_le(bytes: Seq<u8>) -> int {
    let unsigned = bytes[0] as int + 0x100 * bytes[1] as int + 0x1_0000 * bytes[2] as int;
    if unsigned < 0x80_0000 {
        unsigned
    } else {
        unsigned - 0x100_0000
    }
}

/// The three bytes that store `v` as a two's-complement integer of 24 bits
/// with the least significant byte first.
pub open spec fn le24_bytes(v: int) -> Seq<u8> {
    seq![(v % 0x100) as u8, ((v / 0x100) % 0x100) as u8, ((v / 0x1_0000) % 0x100) as u8]
}

/// What a sample field holds: it must be exactly three bytes wide.
pub open spec fn sample_field(bytes: Seq<u8>) -> Result<i32, BdfError> {
    if bytes.len() == SAMPLE_WIDTH {
        Ok(sample24_le(bytes) as i32)
    } else {
        Err(BdfError::InvalidLength)
    }
}

/// Three bytes always denote a value in the range of a sample.
pub proof fn lemma_sample24_range(bytes: Seq<u8>)
    ensures
        SAMPLE_MIN <= sample24_le(bytes) <= SAMPLE_MAX,
{
}

/// Storing a value in the range of a sample and decoding the bytes gives the
/// value back.
pub proof fn lemma_sample24_round_trip(v: int)
    requires
        SAMPLE_MIN <= v <= SAMPLE_MAX,
    ensures
        le24_bytes(v).len() == SAMPLE_WIDTH,
        sample24_le(le24_bytes(v)) == v,
        sample_field(le24_bytes(v)) == Ok::<i32, BdfError>(v as i32),
{
    let bytes = le24_bytes(v);
    assert(bytes[0] == v % 0x100);
    assert(bytes[1] == (v / 0x100) % 0x100);
    assert(bytes[2] == (v / 0x1_0000) % 0x100);
}

/// Decoding three bytes and storing the value gives the bytes back.
pub proof fn lemma_sample24_bytes_round_trip(bytes: Seq<u8>)
    requires
        bytes.len() == SAMPLE_WIDTH,
    ensures
        le24_bytes(sample24_le(bytes)) == bytes,
{
    assert(le24_bytes(sample24_le(bytes)) =~= bytes);
}

/// `byteorder::ByteOrder::read_i24` of `LittleEndian`: the first three bytes
/// of the buffer as a signed integer of 24 bits, least significant byte
/// first, widened to `i32` with its sign. It panics on a shorter buffer.
#[verifier::external_body]
fn read_i24_le(bytes: &[u8]) -> (v: i32)
    requires
        bytes@.len() >= 3,
    ensures
        v == sample24_le(bytes@),
{
    LittleEndian::read_i24(bytes)
}

/// Decodes one sample from exactly three bytes. The result is
/// `InvalidLength` where there are fewer or more.
pub fn decode_sample_24le(bytes: &[u8]) -> (r: Result<i32, BdfError>)
    ensures
        r == sample_field(bytes@),
        r matches Ok(v) ==> SAMPLE_MIN <= v <= SAMPLE_MAX,
{
    if bytes.len() == SAMPLE_WIDTH {
        Ok(read_i24_le(bytes))
    } else {
        Err(BdfError::InvalidLength)
    }
}

} // verus!
