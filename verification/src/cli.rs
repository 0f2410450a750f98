//! The computations behind the command-line tool: the synthetic event
//! stream it produces, and the witness difference it reports per applied
//! event.
use vstd::prelude::*;
use vstd::arithmetic::power2::pow2;
use crate::kernel::event::EventEnvelope;
use crate::kernel::replay::ReplayEngine;
use crate::kernel::types::genesis;

verus! {

/// Event `i` of the stream produced from `seed`: identity and payload bytes
/// `seed + i` (wrapping), the genesis state as parent, logical time `i`.
pub open spec fn produced_event(e: EventEnvelope, seed: u8, i: int) -> bool {
    let b = ((seed + i) % 256) as u8;
    &&& e.event_id@ == Seq::new(16, |k: int| b)
    &&& e.payload_hash@ == Seq::new(32, |k: int| b)
    &&& e.parent_state_hash@ == genesis()
    &&& e.logical_time == i
}

/// The synthetic stream of `count` events from `seed`. Every event names
/// the state of a fresh engine (the genesis state) as its parent.
pub fn produce_events(count: usize, seed: u8) -> (events: Vec<EventEnvelope>)
    ensures
        events@.len() == count,
        forall|i: int| 0 <= i < count ==> produced_event(#[trigger] events@[i], seed, i),
{
    let engine = ReplayEngine::new(1);
    let mut events: Vec<EventEnvelope> = Vec::new();
    let mut i: usize = 0;
    while i < count
        invariant
            engine.hash_view() == genesis(),
            i <= count,
            events@.len() == i,
            forall|j: int| 0 <= j < i ==> produced_event(#[trigger] events@[j], seed, j),
        decreases count - i,
    {
        let b: u8 = seed.wrapping_add((i % 256) as u8);
        proof {
            assert(b == ((seed + i) % 256) as u8);
        }
        let event = EventEnvelope {
            event_id: [b; 16],
            parent_state_hash: engine.current_hash(),
            payload_hash: [b; 32],
            logical_time: i as u64,
        };
        assert(event.event_id@ =~= Seq::new(16, |k: int| b));
        assert(event.payload_hash@ =~= Seq::new(32, |k: int| b));
        events.push(event);
        i = i + 1;
    }
    events
}

/// The little-endian bytes of `t`.
pub open spec fn le_bytes_u64(t: u64) -> Seq<u8> {
    Seq::new(8, |k: int| ((t as nat / pow2((8 * k) as nat)) % 256) as u8)
}

/// The witness difference reported for an event at logical time `t`: its
/// little-endian bytes, twice.
pub fn engine_witness_diff(t: u64) -> (diff: Vec<u8>)
    ensures
        diff@ == le_bytes_u64(t) + le_bytes_u64(t),
{
    let mut le: Vec<u8> = Vec::new();
    let mut v: u64 = t;
    let mut k: usize = 0;
    proof {
        vstd::arithmetic::power2::lemma2_to64();
        assert(pow2(0) == 1);
        assert(t as nat / 1 == t as nat);
        assert((8 * 0) as nat == 0);
    }
    while k < 8
        invariant
            k <= 8,
            le@.len() == k,
            v as nat == t as nat / pow2((8 * k) as nat),
            forall|j: int| 0 <= j < k ==> #[trigger] le@[j] == ((t as nat / pow2((8 * j) as nat)) % 256) as u8,
        decreases 8 - k,
    {
        le.push((v % 256) as u8);
        proof {
            vstd::arithmetic::power2::lemma_pow2_adds((8 * k) as nat, 8);
            vstd::arithmetic::power2::lemma_pow2_pos((8 * k) as nat);
            vstd::arithmetic::power2::lemma2_to64();
            vstd::arithmetic::div_mod::lemma_div_denominator(t as int, pow2((8 * k) as nat) as int, 256);
            assert((8 * (k + 1)) as nat == (8 * k) as nat + 8);
        }
        v = v / 256;
        k = k + 1;
    }
    let mut diff: Vec<u8> = Vec::new();
    let mut j: usize = 0;
    while j < 16
        invariant
            le@.len() == 8,
            j <= 16,
            diff@.len() == j,
            forall|m: int| 0 <= m < j ==> #[trigger] diff@[m] == le@[m % 8],
        decreases 16 - j,
    {
        diff.push(le[j % 8]);
        j = j + 1;
    }
    assert(le@ =~= le_bytes_u64(t));
    assert(diff@ =~= le_bytes_u64(t) + le_bytes_u64(t));
    diff
}

} // verus!
