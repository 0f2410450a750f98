//! Kernel vocabulary: hashes, versions, transition kinds, errors and the
//! transition receipt.
use vstd::prelude::*;
use crate::hashing::{blake3, blake3_spec, extend_bytes, push_u16_le, u16_le};

verus! {

pub type StateHash = [u8; 32];
pub type EventId = [u8; 16];
pub type PayloadHash = [u8; 32];
pub type EventHash = [u8; 32];
pub type TransitionHash = [u8; 32];
pub type KernelVersion = u16;

/// The version of the rule set a kernel runs.
#[derive(Debug, Clone, Copy, PartialEq, Eq, Structural)]
pub struct RulesetVersion(pub u16);

/// The identity of an actor that submits events.
#[derive(Debug, Clone)]
pub struct ActorId(pub String);

/// The transitions an event can request.
#[derive(Debug, Clone, Copy, PartialEq, Eq, Hash, Structural)]
pub enum TransitionId {
    ClaimCreated,
    ClaimVerified,
}

impl TransitionId {
    /// The wire code of the transition (1 and 2).
    pub fn code(&self) -> (c: u8)
        ensures
            c == transition_id_code(*self),
    {
        match self {
            TransitionId::ClaimCreated => 1,
            TransitionId::ClaimVerified => 2,
        }
    }
}

pub open spec fn transition_id_code(t: TransitionId) -> u8 {
    match t {
        TransitionId::ClaimCreated => 1,
        TransitionId::ClaimVerified => 2,
    }
}

/// The kind a receipt records for a transition.
#[derive(Debug, Clone, Copy, PartialEq, Eq, Structural)]
pub enum TransitionKind {
    ClaimCreated,
    ClaimVerified,
}

pub open spec fn kind_code(k: TransitionKind) -> u8 {
    match k {
        TransitionKind::ClaimCreated => 1,
        TransitionKind::ClaimVerified => 2,
    }
}

/// Why a transition was refused.
#[derive(Debug)]
pub enum TransitionError {
    InvalidParent,
    InvalidParentState { expected: StateHash, actual: StateHash },
    UnsupportedTransition(TransitionId),
    Serialization(String),
    NonDeterministic,
}

pub const PROTOCOL_VERSION: u16 = 1;
pub const GENESIS_STATE: StateHash = [0, 0, 0, 0, 0, 0, 0, 0, 0, 0, 0, 0, 0, 0, 0, 0, 0, 0, 0, 0, 0, 0, 0, 0, 0, 0, 0, 0, 0, 0, 0, 0];

/// The all-zero state hash every chain starts from.
pub open spec fn genesis() -> Seq<u8> {
    Seq::new(32, |i: int| 0u8)
}

/// The record of one transition (a frozen protocol boundary).
#[derive(Debug, Clone, PartialEq, Eq)]
pub struct TransitionReceipt {
    pub parent_state_hash: StateHash,
    pub event_hash: EventHash,
    pub child_state_hash: StateHash,
    pub kernel_version: KernelVersion,
    pub kind: TransitionKind,
}

/// The domain-separation tag `TSCP_TRANSITION_RECEIPT_V1`.
pub open spec fn receipt_tag() -> Seq<u8> {
    seq![84u8, 83, 67, 80, 95, 84, 82, 65, 78, 83, 73, 84, 73, 79, 78, 95, 82, 69, 67, 69, 73, 80, 84, 95, 86, 49]
}

/// The bytes hashed to identify a receipt:
/// tag, kernel version (LE), parent, event, child, kind code.
pub open spec fn receipt_preimage(r: TransitionReceipt) -> Seq<u8> {
    receipt_tag() + u16_le(r.kernel_version) + r.parent_state_hash@ + r.event_hash@
        + r.child_state_hash@ + seq![kind_code(r.kind)]
}

/// The identity hash of a receipt.
pub open spec fn receipt_hash_spec(r: TransitionReceipt) -> Seq<u8> {
    blake3_spec(receipt_preimage(r))
}

impl TransitionKind {
    /// The wire code of the kind (1 and 2).
    pub fn code(&self) -> (c: u8)
        ensures
            c == kind_code(*self),
    {
        match self {
            TransitionKind::ClaimCreated => 1,
            TransitionKind::ClaimVerified => 2,
        }
    }
}

impl TransitionReceipt {
    /// Domain-separated hash of the receipt:
    /// BLAKE3("TSCP_TRANSITION_RECEIPT_V1", kernel_version, parent, event, child, kind).
    pub fn hash(&self) -> (h: TransitionHash)
        ensures
            h@ == receipt_hash_spec(*self),
    {
        let tag: [u8; 26] = [84, 83, 67, 80, 95, 84, 82, 65, 78, 83, 73, 84, 73, 79, 78, 95, 82, 69, 67, 69, 73, 80, 84, 95, 86, 49];
        let mut msg: Vec<u8> = Vec::new();
        extend_bytes(&mut msg, &tag);
        push_u16_le(&mut msg, self.kernel_version);
        extend_bytes(&mut msg, &self.parent_state_hash);
        extend_bytes(&mut msg, &self.event_hash);
        extend_bytes(&mut msg, &self.child_state_hash);
        msg.push(self.kind.code());
        assert(tag@ == receipt_tag());
        assert(msg@ == receipt_preimage(*self));
        blake3(msg.as_slice())
    }
}

/// Byte-wise equality of two 32-byte hashes.
pub fn hash_eq(a: &[u8; 32], b: &[u8; 32]) -> (r: bool)
    ensures
        r == (a@ == b@),
{
    let mut i: usize = 0;
    while i < 32
        invariant
            i <= 32,
            forall|j: int| 0 <= j < i ==> a@[j] == b@[j],
        decreases 32 - i,
    {
        if a[i] != b[i] {
            return false;
        }
        i = i + 1;
    }
    assert(a@ =~= b@);
    true
}

} // verus!
