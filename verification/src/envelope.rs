//! The event envelope: the structured message exchanged between publishers,
//! the proxy, and subscribers, together with its wire format.
use vstd::prelude::*;
use crate::codec::{append_bytes, copy_range, le_bytes, le_val, lemma_le_bytes_le_val,
    lemma_le_bytes_len, lemma_le_val_bound, lemma_le_val_le_bytes, lemma_pow256_8, push_le,
    read_le};

verus! {

/// One event message: who published it, which logical service it concerns,
/// a producer-assigned timestamp, and an opaque payload.
#[derive(Debug)]
pub struct Envelope {
    pub member_id: Vec<u8>,
    pub service: Vec<u8>,
    pub timestamp: u64,
    pub payload: Vec<u8>,
}

/// The mathematical model of an envelope.
pub struct EnvelopeModel {
    pub member_id: Seq<u8>,
    pub service: Seq<u8>,
    pub timestamp: u64,
    pub payload: Seq<u8>,
}

impl View for Envelope {
    type V = EnvelopeModel;

    open spec fn view(&self) -> EnvelopeModel {
        EnvelopeModel {
            member_id: self.member_id@,
            service: self.service@,
            timestamp: self.timestamp,
            payload: self.payload@,
        }
    }
}

/// Why a byte string failed to decode as an envelope.
#[derive(Debug, PartialEq, Eq, Structural, Clone, Copy)]
pub enum DecodeError {
    /// Shorter than the fixed timestamp-and-member-length header.
    HeaderTruncated,
    /// The member identity runs past the end of the message.
    MemberTruncated,
    /// No room for the service length after the member identity.
    ServiceHeaderTruncated,
    /// The service name runs past the end of the message.
    ServiceTruncated,
}

/// An envelope whose variable-length fields fit their four-byte length
/// prefixes, so that it has a wire form at all.
pub open spec fn wf_envelope(e: EnvelopeModel) -> bool {
    &&& e.member_id.len() < 0x1_0000_0000
    &&& e.service.len() < 0x1_0000_0000
}

/// The wire form of an envelope: an eight-byte little-endian timestamp, the
/// length-prefixed member identity, the length-prefixed service name, and the
/// payload running to the end of the message.
pub open spec fn spec_encode(e: EnvelopeModel) -> Seq<u8> {
    le_bytes(e.timestamp as nat, 8) + le_bytes(e.member_id.len(), 4) + e.member_id + le_bytes(
        e.service.len(),
        4,
    ) + e.service + e.payload
}

/// The envelope a byte string denotes, or why it denotes none.
pub open spec fn spec_decode(b: Seq<u8>) -> Result<EnvelopeModel, DecodeError> {
    if b.len() < 12 {
        Err(DecodeError::HeaderTruncated)
    } else {
        let mlen = le_val(b.subrange(8, 12)) as int;
        if b.len() < 12 + mlen {
            Err(DecodeError::MemberTruncated)
        } else if b.len() < 16 + mlen {
            Err(DecodeError::ServiceHeaderTruncated)
        } else {
            let slen = le_val(b.subrange(12 + mlen, 16 + mlen)) as int;
            if b.len() < 16 + mlen + slen {
                Err(DecodeError::ServiceTruncated)
            } else {
                Ok(
                    EnvelopeModel {
                        timestamp: le_val(b.subrange(0, 8)) as u64,
                        member_id: b.subrange(12, 12 + mlen),
                        service: b.subrange(16 + mlen, 16 + mlen + slen),
                        payload: b.subrange(16 + mlen + slen, b.len() as int),
                    },
                )
            }
        }
    }
}

/// Produces the wire form of an envelope.
pub fn encode(e: &Envelope) -> (r: Vec<u8>)
    requires
        wf_envelope(e@),
    ensures
        r@ == spec_encode(e@),
{
    let mut out: Vec<u8> = Vec::new();
    push_le(&mut out, e.timestamp, 8);
    push_le(&mut out, e.member_id.len() as u64, 4);
    append_bytes(&mut out, &e.member_id);
    push_le(&mut out, e.service.len() as u64, 4);
    append_bytes(&mut out, &e.service);
    append_bytes(&mut out, &e.payload);
    proof {
        assert(out@ =~= spec_encode(e@));
    }
    out
}

/// Parses a wire message into an envelope, or reports how it is malformed.
pub fn decode(b: &Vec<u8>) -> (r: Result<Envelope, DecodeError>)
    ensures
        r matches Ok(env) ==> spec_decode(b@) == Ok::<EnvelopeModel, DecodeError>(env@),
        r matches Err(er) ==> spec_decode(b@) == Err::<EnvelopeModel, DecodeError>(er),
{
    let blen: usize = b.len();
    if blen < 12 {
        return Err(DecodeError::HeaderTruncated);
    }
    let ts: u64 = read_le(b, 0, 8);
    let mlen64: u64 = read_le(b, 8, 4);
    proof {
        lemma_le_val_bound(b@.subrange(8, 12));
        lemma_pow256_8();
    }
    if (blen as u64) < 12 + mlen64 {
        return Err(DecodeError::MemberTruncated);
    }
    let mlen: usize = mlen64 as usize;
    if (blen as u64) < 16 + mlen64 {
        return Err(DecodeError::ServiceHeaderTruncated);
    }
    let slen64: u64 = read_le(b, 12 + mlen, 4);
    proof {
        lemma_le_val_bound(b@.subrange(12 + mlen as int, 16 + mlen as int));
    }
    if (blen as u64) < 16 + mlen64 + slen64 {
        return Err(DecodeError::ServiceTruncated);
    }
    let slen: usize = slen64 as usize;
    let member_id = copy_range(b, 12, 12 + mlen);
    let service = copy_range(b, 16 + mlen, 16 + mlen + slen);
    let payload = copy_range(b, 16 + mlen + slen, blen);
    Ok(Envelope { member_id, service, timestamp: ts, payload })
}

/// Decoding inverts encoding: every well-formed envelope's wire form decodes
/// back to the envelope itself.
pub proof fn lemma_decode_encode(e: EnvelopeModel)
    requires
        wf_envelope(e),
    ensures
        spec_decode(spec_encode(e)) == Ok::<EnvelopeModel, DecodeError>(e),
{
    let b = spec_encode(e);
    let m = e.member_id.len() as int;
    let s = e.service.len() as int;
    lemma_le_bytes_len(e.timestamp as nat, 8);
    lemma_le_bytes_len(e.member_id.len(), 4);
    lemma_le_bytes_len(e.service.len(), 4);
    assert(b.len() == 16 + m + s + e.payload.len());
    lemma_pow256_8();
    assert(b.subrange(0, 8) =~= le_bytes(e.timestamp as nat, 8));
    lemma_le_val_le_bytes(e.timestamp as nat, 8);
    assert(b.subrange(8, 12) =~= le_bytes(e.member_id.len(), 4));
    lemma_le_val_le_bytes(e.member_id.len(), 4);
    assert(b.subrange(12, 12 + m) =~= e.member_id);
    assert(b.subrange(12 + m, 16 + m) =~= le_bytes(e.service.len(), 4));
    lemma_le_val_le_bytes(e.service.len(), 4);
    assert(b.subrange(16 + m, 16 + m + s) =~= e.service);
    assert(b.subrange(16 + m + s, b.len() as int) =~= e.payload);
}

/// Encoding inverts decoding: a byte string that decodes at all is exactly
/// the wire form of the envelope it decodes to.
pub proof fn lemma_encode_decode(b: Seq<u8>, e: EnvelopeModel)
    requires
        spec_decode(b) == Ok::<EnvelopeModel, DecodeError>(e),
    ensures
        spec_encode(e) == b,
        wf_envelope(e),
{
    let m = le_val(b.subrange(8, 12)) as int;
    let s = le_val(b.subrange(12 + m, 16 + m)) as int;
    lemma_le_val_bound(b.subrange(8, 12));
    lemma_le_val_bound(b.subrange(12 + m, 16 + m));
    lemma_le_val_bound(b.subrange(0, 8));
    lemma_pow256_8();
    assert(e.member_id.len() == m && e.service.len() == s);
    lemma_le_bytes_le_val(b.subrange(0, 8));
    assert(e.timestamp as nat == le_val(b.subrange(0, 8)));
    assert(le_bytes(e.timestamp as nat, 8) == b.subrange(0, 8));
    lemma_le_bytes_le_val(b.subrange(8, 12));
    assert(le_bytes(e.member_id.len(), 4) == b.subrange(8, 12));
    lemma_le_bytes_le_val(b.subrange(12 + m, 16 + m));
    assert(le_bytes(e.service.len(), 4) == b.subrange(12 + m, 16 + m));
    assert(spec_encode(e) =~= b);
}

/// The wire form is injective: distinct well-formed envelopes have distinct
/// encodings.
pub proof fn lemma_encode_injective(e1: EnvelopeModel, e2: EnvelopeModel)
    requires
        wf_envelope(e1),
        wf_envelope(e2),
        spec_encode(e1) == spec_encode(e2),
    ensures
        e1 == e2,
{
    lemma_decode_encode(e1);
    lemma_decode_encode(e2);
}

} // verus!
