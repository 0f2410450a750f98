use std::sync::atomic::Ordering;
use tscp::edia::{AdmissionController, EdiaAgent, EdiaSnapshot};

#[test]
fn rejects_backpressure() {
    let c = AdmissionController::new(4, 1000);

    let s = EdiaSnapshot {
        pending_requests: 4,
        completed_proofs: 0,
        avg_proof_ms: 0,
        last_proof_ms: 0,
        invariant_holds: true,
    };

    assert!(!c.decide(&s).admitted);
}

#[test]
fn rejects_invariant_break() {
    let c = AdmissionController::new(4, 1000);

    let s = EdiaSnapshot {
        pending_requests: 0,
        completed_proofs: 0,
        avg_proof_ms: 0,
        last_proof_ms: 0,
        invariant_holds: false,
    };

    assert!(!c.decide(&s).admitted);
}

#[test]
fn admits_healthy_state() {
    let c = AdmissionController::new(4, 1000);

    let s = EdiaSnapshot {
        pending_requests: 0,
        completed_proofs: 0,
        avg_proof_ms: 10,
        last_proof_ms: 10,
        invariant_holds: true,
    };

    assert!(c.decide(&s).admitted);
}

#[test]
fn admission_reasons_follow_check_order() {
    let c = AdmissionController::new(4, 1000);
    let broken = EdiaSnapshot {
        pending_requests: 9,
        completed_proofs: 0,
        avg_proof_ms: 5000,
        last_proof_ms: 0,
        invariant_holds: false,
    };
    assert_eq!(c.decide(&broken).reason, "invariant_failure");
    let busy = EdiaSnapshot { invariant_holds: true, ..broken };
    assert_eq!(c.decide(&busy).reason, "backpressure");
    let slow = EdiaSnapshot { pending_requests: 3, ..busy };
    let d = c.decide(&slow);
    assert!(!d.admitted);
    assert_eq!(d.reason, "latency_budget");
    let ok = EdiaSnapshot { avg_proof_ms: 1000, ..slow };
    let d = c.decide(&ok);
    assert!(d.admitted);
    assert_eq!(d.reason, "healthy");
}

#[test]
fn backpressure_control_loop_converges() {
    let mut agent = EdiaAgent::new(16);
    for _ in 0..7 {
        agent.ingest_telemetry().unwrap();
    }
    for _ in 0..20 {
        agent.step();
    }
    assert!(agent.ring_buffer.len() < 7);
    // Verify the new field initializes cleanly
    assert_eq!(agent.pending_requests.load(Ordering::Acquire), 0);
}

#[test]
fn step_drains_at_rate_and_resets_rate_when_empty() {
    let mut agent = EdiaAgent::new(8);
    for _ in 0..5 {
        agent.ingest_telemetry().unwrap();
    }
    agent.drain_rate_tps = 2;
    agent.step();
    assert_eq!(agent.ring_buffer.len(), 3);
    assert_eq!(agent.drain_rate_tps, 2);
    agent.step();
    agent.step();
    assert_eq!(agent.ring_buffer.len(), 0);
    assert_eq!(agent.drain_rate_tps, 1);
}

#[test]
fn sanity_wire_test() {
    let mut agent = EdiaAgent::new(10);
    assert!(agent.ingest_telemetry().is_ok());
}

#[test]
fn recorded_samples_are_appended_in_order() {
    let mut agent = EdiaAgent::new(4);
    agent.record_sample(11);
    agent.record_sample(7);
    agent.record_sample(42);
    assert_eq!(agent.ring_buffer.iter().copied().collect::<Vec<u64>>(), vec![11, 7, 42]);
    assert_eq!(agent.drain_rate_tps, 1);
    agent.step();
    assert_eq!(agent.ring_buffer.iter().copied().collect::<Vec<u64>>(), vec![7, 42]);
}
