//! Events submitted to the kernel and the payloads they carry.
use vstd::prelude::*;
use vstd::string::*;
use vstd::utf8::encode_utf8;
use crate::hashing::{extend_bytes, push_u16_le, push_u64_le, sha256, sha256_spec, u16_le, u64_le};
use crate::kernel::types::{EventHash, EventId, PayloadHash, StateHash, TransitionId, ActorId, PROTOCOL_VERSION, transition_id_code};

verus! {

/// An event: its identity, the state it claims to extend, the hash of its
/// payload and its logical time.
#[derive(Debug, Clone)]
pub struct EventEnvelope {
    pub event_id: EventId,
    pub parent_state_hash: StateHash,
    pub payload_hash: PayloadHash,
    pub logical_time: u64,
}

/// The bytes that identify an event before truncation: protocol version,
/// parent, actor name, timestamp, payload hash and transition code.
pub open spec fn event_id_preimage(
    parent: Seq<u8>,
    actor: Seq<u8>,
    timestamp: u64,
    payload_hash: Seq<u8>,
    transition_id: TransitionId,
) -> Seq<u8> {
    u16_le(PROTOCOL_VERSION) + parent + actor + u64_le(timestamp) + payload_hash + seq![
        transition_id_code(transition_id),
    ]
}

/// The bytes hashed to give an event's hash: identity, parent, payload
/// hash and logical time.
pub open spec fn event_preimage(e: EventEnvelope) -> Seq<u8> {
    e.event_id@ + e.parent_state_hash@ + e.payload_hash@ + u64_le(e.logical_time)
}

/// The hash of an event.
pub open spec fn event_hash_spec(e: EventEnvelope) -> Seq<u8> {
    sha256_spec(event_preimage(e))
}

impl EventEnvelope {
    /// Builds an event from its payload: the payload hash is SHA-256 of the
    /// payload, and the event identity is the first 16 bytes of SHA-256 over
    /// the protocol version, parent, actor, timestamp, payload hash and
    /// transition code.
    pub fn new(
        parent_state_hash: StateHash,
        actor: ActorId,
        timestamp: u64,
        transition_id: TransitionId,
        payload: Vec<u8>,
    ) -> (e: Self)
        ensures
            e.parent_state_hash == parent_state_hash,
            e.logical_time == timestamp,
            e.payload_hash@ == sha256_spec(payload@),
            e.event_id@ == sha256_spec(
                event_id_preimage(
                    parent_state_hash@,
                    encode_utf8(actor.0@),
                    timestamp,
                    sha256_spec(payload@),
                    transition_id,
                ),
            ).subrange(0, 16),
    {
        let payload_hash = sha256(payload.as_slice());
        let mut msg: Vec<u8> = Vec::new();
        push_u16_le(&mut msg, PROTOCOL_VERSION);
        extend_bytes(&mut msg, &parent_state_hash);
        extend_bytes(&mut msg, actor.0.as_str().as_bytes());
        push_u64_le(&mut msg, timestamp);
        extend_bytes(&mut msg, &payload_hash);
        msg.push(transition_id.code());
        assert(msg@ == event_id_preimage(
            parent_state_hash@,
            encode_utf8(actor.0@),
            timestamp,
            sha256_spec(payload@),
            transition_id,
        ));
        let full = sha256(msg.as_slice());
        let mut event_id: EventId = [0u8; 16];
        let mut i: usize = 0;
        while i < 16
            invariant
                i <= 16,
                full@.len() == 32,
                event_id@.len() == 16,
                forall|j: int| 0 <= j < i ==> event_id@[j] == full@[j],
            decreases 16 - i,
        {
            event_id[i] = full[i];
            i = i + 1;
        }
        assert(event_id@ =~= full@.subrange(0, 16));
        EventEnvelope { event_id, parent_state_hash, payload_hash, logical_time: timestamp }
    }

    /// The hash of the event: SHA-256 over its identity, parent, payload
    /// hash and logical time (little-endian).
    pub fn hash(&self) -> (h: EventHash)
        ensures
            h@ == event_hash_spec(*self),
    {
        let mut msg: Vec<u8> = Vec::new();
        extend_bytes(&mut msg, &self.event_id);
        extend_bytes(&mut msg, &self.parent_state_hash);
        extend_bytes(&mut msg, &self.payload_hash);
        push_u64_le(&mut msg, self.logical_time);
        sha256(msg.as_slice())
    }
}

/// The payload of a claim-creation event.
#[derive(Debug, Clone)]
pub struct ClaimCreatedPayload {
    pub claim_id: String,
    pub content_hash: [u8; 32],
}

/// The payload of a claim-verification event.
#[derive(Debug, Clone)]
pub struct ClaimVerifiedPayload {
    pub claim_id: String,
    pub evidence_hash: [u8; 32],
    pub score: u8,
}

} // verus!
