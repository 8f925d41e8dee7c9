//! What hiding and recovering do together.

use crate::bit_utils::{
    bits_of, bytes_bits, lemma_bits_round_trip, lemma_pack_unpack, lsb_bits, value_of,
};
use crate::decode::{declared_bits, decoded, DecodeError};
use crate::encode::{embedded, encoded, frame_bits, valid_payload};
use vstd::arithmetic::power2::lemma2_to64;
use vstd::prelude::*;

verus! {

/// A carrier that holds the frame of a payload declares the payload's bit
/// count and carries the payload's bits right after its header.
pub proof fn lemma_frame_read_back(payload: Seq<u8>, carrier: Seq<u8>)
    requires
        valid_payload(payload),
        carrier.len() >= 32 + 8 * payload.len(),
    ensures
        declared_bits(embedded(carrier, frame_bits(payload))) == 8 * payload.len(),
        lsb_bits(
            embedded(carrier, frame_bits(payload)).subrange(32, 32 + 8 * payload.len() as int),
        ) == bytes_bits(payload),
{
    let hidden = embedded(carrier, frame_bits(payload));
    let header = bits_of(8 * payload.len(), 32);
    assert(lsb_bits(hidden.subrange(0, 32)) =~= header);
    lemma2_to64();
    lemma_bits_round_trip(8 * payload.len(), 32);
    assert(lsb_bits(hidden.subrange(32, 32 + 8 * payload.len() as int)) =~= bytes_bits(payload));
}

/// Whatever the carrier held before, a payload hidden in a carrier of at
/// least `32 + 8 * payload.len()` bytes is recovered from it unchanged.
pub proof fn lemma_round_trip(payload: Seq<u8>, carrier: Seq<u8>)
    requires
        valid_payload(payload),
        carrier.len() >= 32 + 8 * payload.len(),
    ensures
        encoded(payload, carrier) matches Ok(hidden) && decoded(hidden) == Ok::<
            Seq<u8>,
            DecodeError,
        >(payload),
{
    lemma_frame_read_back(payload, carrier);
    lemma_pack_unpack(payload);
}

/// Hiding the empty payload in a carrier of at least thirty-two bytes gives
/// a carrier whose header declares zero bits and from which the empty
/// payload is recovered.
pub proof fn lemma_empty_payload(carrier: Seq<u8>)
    requires
        carrier.len() >= 32,
    ensures
        encoded(Seq::<u8>::empty(), carrier) matches Ok(hidden) && {
            &&& value_of(lsb_bits(hidden.take(32)), 32) == 0
            &&& decoded(hidden) == Ok::<Seq<u8>, DecodeError>(Seq::<u8>::empty())
        },
{
    let payload = Seq::<u8>::empty();
    let hidden = embedded(carrier, frame_bits(payload));
    lemma_round_trip(payload, carrier);
    lemma_frame_read_back(payload, carrier);
    assert(hidden.take(32) =~= hidden.subrange(0, 32));
}

} // verus!
