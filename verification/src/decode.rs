//! Recovering a payload from the lowest bits of a carrier buffer.
//!
//! The lowest bits of the first thirty-two carrier bytes give the payload's
//! bit count, most significant bit first. The lowest bits of as many carrier
//! bytes after them are the payload's bits, which are packed into bytes.

use crate::bit_utils::{lsb_bits, packed_bytes, value_of, BitUtils};
use vstd::prelude::*;
use vstd::slice::{slice_subrange, slice_to_vec};

verus! {

/// Why no payload could be recovered.
#[derive(Debug, Clone, Copy, PartialEq, Eq, Structural)]
pub enum DecodeError {
    /// The carrier has fewer than thirty-two bytes, so it holds no header.
    TruncatedHeader,
    /// The header declares more payload bits than the carrier has bytes
    /// after the header. One carrier byte holds one bit, so such a payload
    /// cannot be read in full.
    TruncatedPayload,
}

/// The payload bit count that the header of `carrier` declares.
pub open spec fn declared_bits(carrier: Seq<u8>) -> nat
    recommends
        carrier.len() >= 32,
{
    value_of(lsb_bits(carrier.subrange(0, 32)), 32)
}

/// What reading `carrier` gives: the declared number of lowest bits after
/// the header, packed into bytes, or the error that stops the reading.
pub open spec fn decoded(carrier: Seq<u8>) -> Result<Seq<u8>, DecodeError> {
    if carrier.len() < 32 {
        Err(DecodeError::TruncatedHeader)
    } else if declared_bits(carrier) > carrier.len() - 32 {
        Err(DecodeError::TruncatedPayload)
    } else {
        Ok(packed_bytes(lsb_bits(carrier.subrange(32, 32 + declared_bits(carrier) as int))))
    }
}

/// Recovers the payload hidden in the lowest bits of `carrier`.
///
/// Fails with `TruncatedHeader` exactly when the carrier has fewer than
/// thirty-two bytes, and with `TruncatedPayload` exactly when it has a header
/// that declares more bits than there are bytes after it.
pub fn decode(carrier: &[u8]) -> (result: Result<Vec<u8>, DecodeError>)
    ensures
        match result {
            Ok(payload) => decoded(carrier@) == Ok::<Seq<u8>, DecodeError>(payload@),
            Err(e) => decoded(carrier@) == Err::<Seq<u8>, DecodeError>(e),
        },
        result == Err::<Vec<u8>, DecodeError>(DecodeError::TruncatedHeader) <==> carrier@.len()
            < 32,
        result == Err::<Vec<u8>, DecodeError>(DecodeError::TruncatedPayload) <==> carrier@.len()
            >= 32 && declared_bits(carrier@) > carrier@.len() - 32,
{
    if carrier.len() < 32 {
        return Err(DecodeError::TruncatedHeader);
    }
    let header = BitUtils::read_lsb(slice_to_vec(slice_subrange(carrier, 0, 32)));
    let message_len = BitUtils::byte_u32_to_decimal(header) as usize;
    if message_len > carrier.len() - 32 {
        return Err(DecodeError::TruncatedPayload);
    }
    let message_bits = BitUtils::read_lsb(
        slice_to_vec(slice_subrange(carrier, 32, 32 + message_len)),
    );
    Ok(BitUtils::bits_to_bytes(message_bits))
}

} // verus!
