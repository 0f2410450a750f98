//! One step of the kernel: checking an event against the current state and
//! producing the next state and its receipt.
use vstd::prelude::*;
use crate::hashing::{blake3, blake3_spec, extend_bytes, push_u64_le, u64_le};
use crate::kernel::event::{event_hash_spec, EventEnvelope};
use crate::kernel::state::State;
use crate::kernel::types::{
    hash_eq, KernelVersion, RulesetVersion, StateHash, TransitionError, TransitionKind,
    TransitionReceipt,
};

verus! {

/// What the kernel knows besides the state while it applies an event.
#[derive(Debug, Clone)]
pub struct ExecutionContext {
    pub ruleset_version: RulesetVersion,
    pub logical_time: u64,
}

/// The child state hash after a transition: BLAKE3 over the parent state
/// hash, the event hash and the new version counter (little-endian).
pub open spec fn child_hash_spec(parent: Seq<u8>, event_hash: Seq<u8>, counter: u64) -> Seq<u8> {
    blake3_spec(parent + event_hash + u64_le(counter))
}

/// Transitions alternate by counter parity: odd counters record a claim
/// creation, even ones a verification.
pub open spec fn kind_for(counter: u64) -> TransitionKind {
    if counter % 2 == 1 {
        TransitionKind::ClaimCreated
    } else {
        TransitionKind::ClaimVerified
    }
}

/// The receipt of applying `event` on a state with version `version` and
/// hash `state_hash`, under kernel version `kv`.
pub open spec fn receipt_spec(version: u64, state_hash: Seq<u8>, event: EventEnvelope, kv: KernelVersion) -> TransitionReceipt
    recommends
        version < u64::MAX,
{
    let counter = (version + 1) as u64;
    TransitionReceipt {
        parent_state_hash: arr32(state_hash),
        event_hash: arr32(event_hash_spec(event)),
        child_state_hash: arr32(child_hash_spec(state_hash, event_hash_spec(event), counter)),
        kernel_version: kv,
        kind: kind_for(counter),
    }
}

/// The 32-byte array holding the sequence `s` (of length 32).
pub open spec fn arr32(s: Seq<u8>) -> [u8; 32] {
    choose|a: [u8; 32]| a@ == s
}

pub proof fn lemma_arr32(a: [u8; 32])
    ensures
        arr32(a@) == a,
{
    let b = arr32(a@);
    assert(exists|x: [u8; 32]| x@ == a@);
    assert(b@ == a@);
    assert(b =~= a) by {
        assert forall|i: int| 0 <= i < 32 implies b[i] == a[i] by {
            assert(b@[i] == a@[i]);
        }
    }
}

/// Applies `event` on `state`: refuses an event whose parent is not the
/// current state hash; otherwise returns the state with its version bumped
/// and the receipt that records the transition.
pub fn dispatch_event(
    state: &State,
    state_hash: StateHash,
    event: &EventEnvelope,
    context: &ExecutionContext,
) -> (r: Result<(State, TransitionReceipt), TransitionError>)
    requires
        state.wf(),
        state.version < u64::MAX,
    ensures
        event.parent_state_hash@ != state_hash@ <==> r matches Err(TransitionError::InvalidParent),
        r is Err ==> r matches Err(TransitionError::InvalidParent),
        r matches Ok((s, rc)) ==> {
            &&& s.wf()
            &&& s.version == state.version + 1
            &&& s.claims_view() == state.claims_view()
            &&& rc == receipt_spec(state.version, state_hash@, *event, context.ruleset_version.0)
        },
{
    if !hash_eq(&event.parent_state_hash, &state_hash) {
        return Err(TransitionError::InvalidParent);
    }
    let mut new_state = state.duplicate();
    new_state.version = new_state.version + 1;

    let event_hash = event.hash();
    let mut msg: Vec<u8> = Vec::new();
    extend_bytes(&mut msg, &state_hash);
    extend_bytes(&mut msg, &event_hash);
    push_u64_le(&mut msg, new_state.version);
    let child_hash = blake3(msg.as_slice());

    let kind = if new_state.version % 2 == 1 {
        TransitionKind::ClaimCreated
    } else {
        TransitionKind::ClaimVerified
    };

    let receipt = TransitionReceipt {
        parent_state_hash: state_hash,
        event_hash,
        child_state_hash: child_hash,
        kernel_version: context.ruleset_version.0,
        kind,
    };
    proof {
        lemma_arr32(state_hash);
        lemma_arr32(event_hash);
        lemma_arr32(child_hash);
    }
    Ok((new_state, receipt))
}

/// The message whose BLAKE3 digest is the child state hash: the parent
/// state hash, the event hash and the new version counter (eight bytes,
/// least significant first).
pub open spec fn child_message(version: u64, state_hash: Seq<u8>, event: EventEnvelope) -> Seq<u8> {
    state_hash + event_hash_spec(event) + u64_le((version + 1) as u64)
}

/// The child state hash of a receipt is the BLAKE3 digest of the parent
/// state hash, the hash of the applied event and the new version counter in
/// little-endian order (for a digest of 32 bytes, as BLAKE3's is).
pub proof fn lemma_child_hash_formula(version: u64, state_hash: Seq<u8>, event: EventEnvelope, kv: KernelVersion)
    requires
        blake3_spec(state_hash + event_hash_spec(event) + u64_le((version + 1) as u64)).len() == 32,
    ensures
        receipt_spec(version, state_hash, event, kv).child_state_hash@ == blake3_spec(
            state_hash + event_hash_spec(event) + u64_le((version + 1) as u64),
        ),
        child_message(version, state_hash, event) == state_hash + event_hash_spec(event) + u64_le(
            (version + 1) as u64,
        ),
{
    lemma_arr32_of(blake3_spec(state_hash + event_hash_spec(event) + u64_le((version + 1) as u64)));
}

/// Every 32-byte sequence is held by some 32-byte array.
proof fn lemma_arr32_of(d: Seq<u8>)
    requires
        d.len() == 32,
    ensures
        arr32(d)@ == d,
{
    let x: [u8; 32] = [d[0], d[1], d[2], d[3], d[4], d[5], d[6], d[7], d[8], d[9], d[10], d[11], d[12],
        d[13], d[14], d[15], d[16], d[17], d[18], d[19], d[20], d[21], d[22], d[23], d[24], d[25], d[26],
        d[27], d[28], d[29], d[30], d[31]];
    assert(x@ =~= d);
}

/// The child state hash commits to the transition: applying two events with
/// different hashes, or applying events to two different parent states, at
/// the same version gives different child state hashes, wherever BLAKE3
/// has no collision between the two messages (and gives 32-byte digests).
pub proof fn lemma_child_hash_commits(
    version: u64,
    h1: Seq<u8>,
    e1: EventEnvelope,
    h2: Seq<u8>,
    e2: EventEnvelope,
    kv: KernelVersion,
)
    requires
        h1.len() == h2.len(),
        event_hash_spec(e1).len() == event_hash_spec(e2).len(),
        h1 != h2 || event_hash_spec(e1) != event_hash_spec(e2),
        blake3_spec(child_message(version, h1, e1)).len() == 32,
        blake3_spec(child_message(version, h2, e2)).len() == 32,
        blake3_spec(child_message(version, h1, e1)) == blake3_spec(child_message(version, h2, e2))
            ==> child_message(version, h1, e1) == child_message(version, h2, e2),
    ensures
        receipt_spec(version, h1, e1, kv).child_state_hash != receipt_spec(
            version,
            h2,
            e2,
            kv,
        ).child_state_hash,
{
    let m1 = child_message(version, h1, e1);
    let m2 = child_message(version, h2, e2);
    lemma_child_hash_formula(version, h1, e1, kv);
    lemma_child_hash_formula(version, h2, e2, kv);
    if m1 == m2 {
        let n = h1.len() as int;
        let k = event_hash_spec(e1).len() as int;
        assert(m1.subrange(0, n) =~= h1);
        assert(m2.subrange(0, n) =~= h2);
        assert(m1.subrange(n, n + k) =~= event_hash_spec(e1));
        assert(m2.subrange(n, n + k) =~= event_hash_spec(e2));
    }
}

} // verus!
