//! Hiding a payload in the lowest bits of a carrier buffer.
//!
//! The payload is framed as its bit count, written as a 32-bit number most
//! significant bit first, followed by its bits. Bit `i` of the frame becomes
//! the lowest bit of carrier byte `i`; no other bit of the carrier changes.

use crate::bit_utils::{bits_of, bytes_bits, BitUtils};
use vstd::prelude::*;
use vstd::slice::slice_to_vec;

verus! {

/// Why a payload could not be hidden.
#[derive(Debug, Clone, Copy, PartialEq, Eq, Structural)]
pub enum EncodeError {
    /// The frame has more bits than the carrier has bytes. `required` is the
    /// frame's length in bits, `available` the carrier's length in bytes.
    InsufficientCapacity { required: u64, available: u64 },
}

/// A payload's bit count must fit in the 32-bit header.
pub open spec fn valid_payload(payload: Seq<u8>) -> bool {
    8 * payload.len() <= u32::MAX
}

/// The frame of a payload: thirty-two bits that hold the payload's bit
/// count, then the payload's bits.
pub open spec fn frame_bits(payload: Seq<u8>) -> Seq<u8> {
    bits_of(8 * payload.len(), 32) + bytes_bits(payload)
}

/// `byte` moved by at most one so that its lowest bit is `bit`: up when it
/// is even and the bit is 1, down when it is odd and the bit is 0.
pub open spec fn with_lsb(byte: u8, bit: u8) -> u8 {
    if bit == 1 && byte % 2 == 0 {
        (byte + 1) as u8
    } else if bit == 0 && byte % 2 == 1 {
        (byte - 1) as u8
    } else {
        byte
    }
}

/// The carrier with `bits` written into the lowest bits of its first
/// `bits.len()` bytes and the rest of it untouched.
pub open spec fn embedded(carrier: Seq<u8>, bits: Seq<u8>) -> Seq<u8> {
    Seq::new(
        carrier.len(),
        |i: int|
            if i < bits.len() {
                with_lsb(carrier[i], bits[i])
            } else {
                carrier[i]
            },
    )
}

/// Whether the frame of a payload of `payload_len` bytes fits in a carrier
/// of `available` bytes, and the error that says so when it does not.
pub open spec fn capacity_checked(payload_len: nat, available: nat) -> Result<(), EncodeError> {
    if 32 + 8 * payload_len > available {
        Err(
            EncodeError::InsufficientCapacity {
                required: (32 + 8 * payload_len) as u64,
                available: available as u64,
            },
        )
    } else {
        Ok(())
    }
}

/// What hiding `payload` in `carrier` gives: the carrier with the frame
/// embedded, or the capacity error when the frame does not fit.
pub open spec fn encoded(payload: Seq<u8>, carrier: Seq<u8>) -> Result<Seq<u8>, EncodeError> {
    match capacity_checked(payload.len(), carrier.len()) {
        Ok(()) => Ok(embedded(carrier, frame_bits(payload))),
        Err(e) => Err(e),
    }
}

/// Checks that a carrier of `available` bytes can hold the frame of a
/// payload of `payload_len` bytes, before any carrier is at hand.
///
/// Fails exactly when `available` is less than `32 + 8 * payload_len`.
pub fn check_capacity(payload_len: usize, available: usize) -> (result: Result<(), EncodeError>)
    requires
        8 * payload_len <= u32::MAX,
    ensures
        result == capacity_checked(payload_len as nat, available as nat),
        result is Err <==> available < 32 + 8 * payload_len,
{
    let required: u64 = 32 + 8 * (payload_len as u64);
    let available: u64 = available as u64;
    if required > available {
        Err(EncodeError::InsufficientCapacity { required, available })
    } else {
        Ok(())
    }
}

/// Hides `payload` in the lowest bits of `carrier`, in place.
///
/// Fails, leaving the carrier as it was, exactly when the carrier has fewer
/// than `32 + 8 * payload.len()` bytes. Otherwise each of the first
/// `32 + 8 * payload.len()` carrier bytes moves by at most one to take its
/// frame bit as lowest bit, and the bytes after them keep their values.
pub fn encode(payload: &[u8], carrier: &mut Vec<u8>) -> (result: Result<(), EncodeError>)
    requires
        valid_payload(payload@),
    ensures
        match result {
            Ok(()) => encoded(payload@, old(carrier)@) == Ok::<Seq<u8>, EncodeError>(
                final(carrier)@,
            ),
            Err(e) => encoded(payload@, old(carrier)@) == Err::<Seq<u8>, EncodeError>(e)
                && final(carrier)@ == old(carrier)@,
        },
        result is Err <==> old(carrier)@.len() < 32 + 8 * payload@.len(),
        final(carrier)@.len() == old(carrier)@.len(),
        result is Ok ==> forall|i: int|
            0 <= i < 32 + 8 * payload@.len() ==> {
                &&& #[trigger] final(carrier)@[i] % 2 == frame_bits(payload@)[i]
                &&& -1 <= final(carrier)@[i] - old(carrier)@[i] <= 1
            },
        result is Ok ==> forall|i: int|
            32 + 8 * payload@.len() <= i < old(carrier)@.len() ==> #[trigger] final(carrier)@[i]
                == old(carrier)@[i],
{
    match check_capacity(payload.len(), carrier.len()) {
        Ok(()) => {},
        Err(e) => {
            return Err(e);
        },
    }
    let mut message_bits = BitUtils::make_bits(slice_to_vec(payload));
    let mut frame = BitUtils::byte_u32_to_bit(message_bits.len() as u32);
    frame.append(&mut message_bits);
    let mut i: usize = 0;
    while i < frame.len()
        invariant
            i <= frame@.len() <= carrier@.len(),
            frame@ == frame_bits(payload@),
            carrier@.len() == old(carrier)@.len(),
            forall|k: int| 0 <= k < i ==> carrier@[k] == with_lsb(old(carrier)@[k], frame@[k]),
            forall|k: int| i <= k < carrier@.len() ==> carrier@[k] == old(carrier)@[k],
        decreases frame@.len() - i,
    {
        let bit = frame[i];
        let byte = carrier[i];
        if bit == 1 && byte % 2 == 0 {
            carrier[i] = byte + 1;
        } else if bit == 0 && byte % 2 != 0 {
            carrier[i] = byte - 1;
        }
        i = i + 1;
    }
    assert(carrier@ =~= embedded(old(carrier)@, frame_bits(payload@)));
    Ok(())
}

} // verus!
