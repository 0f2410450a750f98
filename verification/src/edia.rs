//! EDIA: the prover's load telemetry ring buffer and the admission rule it
//! feeds.
use vstd::prelude::*;
use std::collections::VecDeque;
use std::sync::Arc;
use std::sync::atomic::AtomicU64;

verus! {

/// A point-in-time view of the prover's load.
#[derive(Clone, Copy, Debug)]
pub struct EdiaSnapshot {
    pub pending_requests: u64,
    pub completed_proofs: u64,
    pub avg_proof_ms: u64,
    pub last_proof_ms: u64,
    pub invariant_holds: bool,
}

/// Whether a request is admitted, and why.
#[derive(Clone, Debug)]
pub struct AdmissionDecision {
    pub admitted: bool,
    pub reason: &'static str,
}

/// Admits requests while the prover is healthy, has room in flight and is
/// within its latency budget.
pub struct AdmissionController {
    pub max_inflight: u64,
    pub max_avg_proof_ms: u64,
}

/// The reason the admission rule gives for a snapshot.
pub open spec fn admission_reason(c: AdmissionController, s: EdiaSnapshot) -> Seq<char> {
    if !s.invariant_holds {
        "invariant_failure"@
    } else if s.pending_requests >= c.max_inflight {
        "backpressure"@
    } else if s.avg_proof_ms > c.max_avg_proof_ms {
        "latency_budget"@
    } else {
        "healthy"@
    }
}

/// A request is admitted exactly when the invariant holds, fewer than
/// `max_inflight` requests are pending and the average proof time is within
/// budget.
pub open spec fn is_admitted(c: AdmissionController, s: EdiaSnapshot) -> bool {
    s.invariant_holds && s.pending_requests < c.max_inflight && s.avg_proof_ms <= c.max_avg_proof_ms
}

impl AdmissionController {
    pub fn new(max_inflight: u64, max_avg_proof_ms: u64) -> (c: Self)
        ensures
            c.max_inflight == max_inflight,
            c.max_avg_proof_ms == max_avg_proof_ms,
    {
        Self { max_inflight, max_avg_proof_ms }
    }

    /// Decides on a snapshot: a broken invariant, backpressure and a blown
    /// latency budget refuse, checked in that order; otherwise admit.
    pub fn decide(&self, snapshot: &EdiaSnapshot) -> (d: AdmissionDecision)
        ensures
            d.admitted == is_admitted(*self, *snapshot),
            d.reason@ == admission_reason(*self, *snapshot),
    {
        if !snapshot.invariant_holds {
            return AdmissionDecision { admitted: false, reason: "invariant_failure" };
        }
        if snapshot.pending_requests >= self.max_inflight {
            return AdmissionDecision { admitted: false, reason: "backpressure" };
        }
        if snapshot.avg_proof_ms > self.max_avg_proof_ms {
            return AdmissionDecision { admitted: false, reason: "latency_budget" };
        }
        AdmissionDecision { admitted: true, reason: "healthy" }
    }
}

/// The telemetry agent: a ring buffer of sample timestamps drained at a
/// fixed rate, and a shared count of in-flight proving operations.
pub struct EdiaAgent {
    pub ring_buffer: VecDeque<u64>,
    pub drain_rate_tps: u32,
    /// Tracks active, in-flight proving operations.
    pub pending_requests: Arc<AtomicU64>,
}

/// Calls `SystemTime::now()` and reads the nanoseconds elapsed since the
/// UNIX epoch (truncated to 64 bits), or 0 when the clock reads before the
/// epoch. The value is unconstrained: it is the machine's clock.
#[verifier::external_body]
fn unix_time_nanos() -> u64 {
    std::time::SystemTime::now().duration_since(std::time::UNIX_EPOCH).map_or(0, |d| d.as_nanos() as u64)
}

impl EdiaAgent {
    pub fn new(capacity: usize) -> (a: Self)
        ensures
            a.ring_buffer@.len() == 0,
            a.drain_rate_tps == 1,
    {
        Self {
            ring_buffer: VecDeque::with_capacity(capacity),
            drain_rate_tps: 1,
            pending_requests: Arc::new(AtomicU64::new(0)),
        }
    }

    /// Records one telemetry sample: the current time (nanoseconds since the
    /// UNIX epoch, read from the machine's clock) is appended to the ring
    /// buffer by `record_sample`. Never fails.
    pub fn ingest_telemetry(&mut self) -> (r: Result<(), String>)
        ensures
            r is Ok,
            final(self).ring_buffer@.len() == old(self).ring_buffer@.len() + 1,
            final(self).ring_buffer@.drop_last() == old(self).ring_buffer@,
            final(self).drain_rate_tps == old(self).drain_rate_tps,
            final(self).pending_requests == old(self).pending_requests,
    {
        let ts = unix_time_nanos();
        self.record_sample(ts);
        Ok(())
    }

    /// Appends the sample timestamp `ts` to the ring buffer.
    pub fn record_sample(&mut self, ts: u64)
        ensures
            final(self).ring_buffer@ == old(self).ring_buffer@.push(ts),
            final(self).drain_rate_tps == old(self).drain_rate_tps,
            final(self).pending_requests == old(self).pending_requests,
    {
        self.ring_buffer.push_back(ts);
    }

    /// One control step: drains up to `drain_rate_tps` samples from the
    /// front; once the buffer is empty the drain rate resets to one.
    pub fn step(&mut self)
        ensures
            ({
                let n = old(self).drain_rate_tps as int;
                let len = old(self).ring_buffer@.len() as int;
                let k = if n < len { n } else { len };
                final(self).ring_buffer@ == old(self).ring_buffer@.subrange(k, len)
            }),
            final(self).ring_buffer@.len() == remaining_after(
                old(self).ring_buffer@.len(),
                old(self).drain_rate_tps as nat,
                1,
            ),
            final(self).ring_buffer@.len() == 0 ==> final(self).drain_rate_tps == 1,
            final(self).ring_buffer@.len() != 0 ==> final(self).drain_rate_tps
                == old(self).drain_rate_tps,
            final(self).pending_requests == old(self).pending_requests,
    {
        let n = self.drain_rate_tps as usize;
        let len = self.ring_buffer.len();
        let k = if n < len { n } else { len };
        let mut i: usize = 0;
        while i < k
            invariant
                k <= len,
                len == old(self).ring_buffer@.len(),
                i <= k,
                self.ring_buffer@ == old(self).ring_buffer@.subrange(i as int, len as int),
                self.drain_rate_tps == old(self).drain_rate_tps,
                self.pending_requests == old(self).pending_requests,
            decreases k - i,
        {
            let _ = self.ring_buffer.pop_front();
            i = i + 1;
        }
        if self.ring_buffer.len() == 0 {
            self.drain_rate_tps = 1;
        }
        proof {
            reveal_with_fuel(remaining_after, 2);
        }
    }
}

/// After at least `ceil(len / rate)` steps the buffer is empty and
/// the drain rate is one: every step removes `min(rate, len)` samples, so
/// the ring buffer shrinks until it is drained. This is the step rule
/// applied `steps` times from a buffer of `len` samples at rate `rate`.
pub open spec fn remaining_after(len: nat, rate: nat, steps: nat) -> nat
    decreases steps,
{
    if steps == 0 {
        len
    } else {
        let r = if rate < len { (len - rate) as nat } else { 0nat };
        let next_rate = if r == 0 { 1nat } else { rate };
        remaining_after(r, next_rate, (steps - 1) as nat)
    }
}

/// The control loop converges: with a positive drain rate, a buffer of
/// `len` samples is empty after `len` steps.
pub proof fn lemma_control_loop_converges(len: nat, rate: nat, steps: nat)
    requires
        rate > 0,
        steps >= len,
    ensures
        remaining_after(len, rate, steps) == 0,
    decreases steps,
{
    if steps > 0 {
        let r = if rate < len { (len - rate) as nat } else { 0nat };
        let next_rate = if r == 0 { 1nat } else { rate };
        lemma_control_loop_converges(r, next_rate, (steps - 1) as nat);
    }
}

/// The count of in-flight requests after one is released: one less,
/// never below zero.
pub fn pending_after_release(v: u64) -> (r: u64)
    ensures
        r == (if v == 0 { 0 } else { v - 1 }),
{
    if v == 0 {
        0
    } else {
        v - 1
    }
}

/// The count of in-flight requests after one is acquired (wrapping, as the
/// atomic increment does).
pub fn pending_after_acquire(v: u64) -> (r: u64)
    ensures
        r == (if v == u64::MAX { 0 } else { v + 1 }),
{
    v.wrapping_add(1)
}

} // verus!
