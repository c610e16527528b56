use vstd::prelude::*;

verus! {

/// The wire encoding of a list of selectively acknowledged sequence numbers.
pub uninterp spec fn acks_encoding(s: Seq<u64>) -> Seq<u8>;

/// The list of sequence numbers that a payload decodes to, if it decodes.
pub uninterp spec fn acks_decoding(b: Seq<u8>) -> Option<Seq<u64>>;

/// Relies on `stdcode::serialize`: bincode with variable-length integers
/// and no size limit encodes the list; a `Vec<u64>` has a known length and
/// no failing element, so the result is always `Some`, and
/// `stdcode::deserialize`, with the same options, reads the list back.
#[verifier::external_body]
pub(crate) fn encode_acks(seqnos: &Vec<u64>) -> (r: Option<Vec<u8>>)
    ensures
        r is Some,
        r matches Some(b) ==> b@ == acks_encoding(seqnos@),
        r matches Some(b) ==> acks_decoding(b@) == Some(seqnos@),
{
    stdcode::serialize(seqnos).ok()
}

/// Relies on `stdcode::deserialize`: the result depends on the bytes alone,
/// and is an error on bytes that are not the encoding of a list of `u64`.
#[verifier::external_body]
pub(crate) fn decode_acks(payload: &[u8]) -> (r: Option<Vec<u64>>)
    ensures
        match r {
            Some(v) => acks_decoding(payload@) == Some(v@),
            None => acks_decoding(payload@) is None,
        },
{
    stdcode::deserialize::<Vec<u64>>(payload).ok()
}

/// The payload of an acknowledgement that lists `seqnos`.
pub fn ack_payload(seqnos: &Vec<u64>) -> (r: Vec<u8>)
    ensures
        r@ == acks_encoding(seqnos@),
        ack_list_of(r@) == seqnos@,
{
    match encode_acks(seqnos) {
        Some(b) => b,
        None => Vec::new(),
    }
}

/// The sequence numbers that an acknowledgement payload lists: none where it
/// does not decode.
pub open spec fn ack_list_of(payload: Seq<u8>) -> Seq<u64> {
    match acks_decoding(payload) {
        Some(s) => s,
        None => Seq::<u64>::empty(),
    }
}

/// The sequence numbers that an acknowledgement payload lists; none where it
/// does not decode, since the list is only a hint beside the cumulative number.
pub fn acked_list(payload: &[u8]) -> (r: Vec<u64>)
    ensures
        r@ == ack_list_of(payload@),
{
    match decode_acks(payload) {
        Some(v) => v,
        None => Vec::new(),
    }
}

} // verus!
