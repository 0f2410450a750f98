use std::sync::Arc;
use tscp::adversarial::AdversarialLoadGenerator;
use tscp::api::{ProofRequest, ProofResponse};
use tscp::cli::{engine_witness_diff, produce_events};
use tscp::debugger::{reverse_trace_debug, str_contains};
use tscp::edia::{pending_after_acquire, pending_after_release};
use tscp::kernel::types::GENESIS_STATE;
use tscp::oracle::MleOracle;
use tscp::poly_ir::{Constraint, Expr, PolyIR};
use tscp::telemetry::{record_event, ProverEvent, TraceContext};
use tscp::trace_provider::{TraceProvider, VecTraceProvider};

#[test]
fn vec_trace_provider_preserves_layout_and_consistency() {
    let trace = vec![vec![1u32, 0], vec![0u32, 1]];

    let provider = VecTraceProvider::new(&trace);

    assert_eq!(provider.row(0), &trace[0][..]);
    assert_eq!(provider.row(1), &trace[1][..]);
    assert_eq!(provider.width(), 2);
    assert_eq!(provider.height(), 2);
    assert!((0..provider.height()).all(|i| provider.row(i).len() == provider.width()));
}

#[test]
fn empty_trace_has_no_width() {
    let trace: Vec<Vec<u32>> = vec![];
    let provider = VecTraceProvider::new(&trace);
    assert_eq!(provider.width(), 0);
    assert_eq!(provider.height(), 0);
}

#[test]
fn test_m7_semantic_correctness() {
    let ir = PolyIR { version: "m7.1".into(), constraints: vec![] };

    assert!(ir.verify_schema().is_ok());
}

#[test]
fn test_trace_rejects_invalid_transition() {
    let ir = PolyIR { version: "".into(), constraints: vec![] };

    assert!(ir.verify_schema().is_err());
}

#[test]
fn schema_error_names_the_missing_version() {
    let expr = Expr::Add {
        left: Box::new(Expr::Var { name: "x".into() }),
        right: Box::new(Expr::Mul { left: Box::new(Expr::Const { value: -2 }), right: Box::new(Expr::Var { name: "y".into() }) }),
    };
    let ir = PolyIR { version: String::new(), constraints: vec![Constraint { name: "c0".into(), expr }] };
    assert_eq!(ir.verify_schema(), Err("missing version".to_string()));
}

#[test]
fn dense_trace_rows_are_multiples() {
    let g = AdversarialLoadGenerator::new(8, 40);
    let t = g.high_density_trace(100);
    assert_eq!(t.width, 4);
    assert_eq!(t.values.len(), 32);
    assert_eq!(&t.values[12..16], &[3, 9, 21, 33]);
    let small = g.high_density_trace(2);
    assert_eq!(small.values, vec![0, 0, 0, 0, 1, 3, 7, 11]);
    let cols = g.high_arity_columns(Arc::clone(&t));
    assert_eq!(cols.len(), 32);
    assert_eq!(cols[1].values, vec![0, 3, 6, 9, 12, 15, 18, 21]);
    assert_eq!(cols[5].values, cols[1].values);
    assert_eq!(cols[0].n_vars(), 3);
    let few = AdversarialLoadGenerator::new(8, 3).high_arity_columns(t);
    assert_eq!(few.len(), 3);
}

fn ev(phase: &str, id: &str) -> ProverEvent {
    ProverEvent { request_id: id.to_string(), phase: phase.to_string(), duration_ms: 5, trace_size: None, constraint_count: None }
}

#[test]
fn reverse_debug_reports_the_last_suspect_phase() {
    let events = vec![ev("commit", "a"), ev("sumcheck_round", "b"), ev("deep_ali", "c"), ev("finalize", "d")];
    assert_eq!(
        reverse_trace_debug(&events),
        Some("First divergence likely in phase 'deep_ali' (request_id: c)".to_string())
    );
    assert_eq!(reverse_trace_debug(&[ev("commit", "a"), ev("finalize", "b")]), None);
    assert_eq!(reverse_trace_debug(&[]), None);
    let folding = vec![ev("fri_folding", "z")];
    assert_eq!(
        reverse_trace_debug(&folding),
        Some("First divergence likely in phase 'fri_folding' (request_id: z)".to_string())
    );
}

#[test]
fn substring_search() {
    assert!(str_contains("pre-sumcheck-post", "sumcheck"));
    assert!(str_contains("deep", "deep"));
    assert!(str_contains("abc", ""));
    assert!(!str_contains("dee", "deep"));
    assert!(!str_contains("folded", "folding"));
}

#[test]
fn event_log_drops_its_oldest_past_the_limit() {
    let mut log: Vec<ProverEvent> = Vec::new();
    for i in 0..2048u128 {
        let mut e = ev("p", "r");
        e.duration_ms = i;
        record_event(&mut log, e);
    }
    assert_eq!(log.len(), 2048);
    let mut e = ev("p", "r");
    e.duration_ms = 2048;
    record_event(&mut log, e);
    assert_eq!(log.len(), 2049 - 512);
    assert_eq!(log[0].duration_ms, 512);
    assert_eq!(log[log.len() - 1].duration_ms, 2048);
}

#[test]
fn trace_context_ids_are_fresh_uuids() {
    let a = TraceContext::new();
    let b = TraceContext::new();
    assert_eq!(a.request_id.len(), 36);
    assert_ne!(a.request_id, b.request_id);
}

#[test]
fn api_messages_hold_their_fields() {
    let req = ProofRequest { job_id: "j".into(), public_inputs: vec![1, 2], claim: vec![3] };
    let resp = ProofResponse { job_id: req.job_id.clone(), proof: vec![9], status: "ok".into() };
    assert_eq!(resp.job_id, "j");
    assert_eq!(req.clone().claim, vec![3]);
}

#[test]
fn produced_events_all_extend_genesis() {
    let events = produce_events(3, 254);
    assert_eq!(events.len(), 3);
    assert_eq!(events[0].event_id, [254; 16]);
    assert_eq!(events[1].payload_hash, [255; 32]);
    assert_eq!(events[2].event_id, [0; 16]);
    assert!(events.iter().all(|e| e.parent_state_hash == GENESIS_STATE));
    assert_eq!(events[2].logical_time, 2);
}

#[test]
fn witness_diff_is_the_time_twice() {
    let d = engine_witness_diff(0x0102030405060708);
    let le = 0x0102030405060708u64.to_le_bytes();
    assert_eq!(&d[..8], &le);
    assert_eq!(&d[8..], &le);
}

#[test]
fn pending_counts_saturate_and_wrap() {
    assert_eq!(pending_after_release(0), 0);
    assert_eq!(pending_after_release(5), 4);
    assert_eq!(pending_after_acquire(5), 6);
    assert_eq!(pending_after_acquire(u64::MAX), 0);
}
