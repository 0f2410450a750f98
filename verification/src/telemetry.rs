//! Request tracing: a context per request, the events a prover records
//! per phase, and the bounded log they are kept in.
use vstd::prelude::*;

verus! {

/// The tracing context of one prover request.
#[derive(Clone, Debug)]
pub struct TraceContext {
    pub request_id: String,
}

/// `Uuid::new_v4().to_string()`: a fresh random identifier in the
/// hyphenated form, 36 characters. Nothing else is promised: it is random.
#[verifier::external_body]
fn random_request_id() -> (s: String)
    ensures
        s@.len() == 36,
{
    uuid::Uuid::new_v4().to_string()
}

impl TraceContext {
    /// A context with a fresh random request id.
    pub fn new() -> (c: Self)
        ensures
            c.request_id@.len() == 36,
    {
        TraceContext { request_id: random_request_id() }
    }
}

/// One timed phase of one request.
#[derive(Clone, Debug)]
pub struct ProverEvent {
    pub request_id: String,
    pub phase: String,
    pub duration_ms: u128,
    pub trace_size: Option<usize>,
    pub constraint_count: Option<usize>,
}

/// The most events the log holds before it drops its oldest.
pub const EVENT_LOG_LIMIT: usize = 2048;

/// How many of the oldest events are dropped when the log overflows.
pub const EVENT_LOG_DROP: usize = 512;

/// The log after recording `event`: appended, then, past the limit, with
/// its oldest `EVENT_LOG_DROP` events dropped.
pub open spec fn log_after(log: Seq<ProverEvent>, event: ProverEvent) -> Seq<ProverEvent> {
    let pushed = log.push(event);
    if pushed.len() > EVENT_LOG_LIMIT {
        pushed.subrange(EVENT_LOG_DROP as int, pushed.len() as int)
    } else {
        pushed
    }
}

/// Record an event in a bounded log.
pub fn record_event(log: &mut Vec<ProverEvent>, event: ProverEvent)
    requires
        old(log)@.len() < usize::MAX,
    ensures
        final(log)@ == log_after(old(log)@, event),
{
    log.push(event);
    if log.len() > EVENT_LOG_LIMIT {
        let rest = log.split_off(EVENT_LOG_DROP);
        *log = rest;
    }
}

} // verus!
