use tscp::kernel::event::EventEnvelope;
use tscp::kernel::replay::ReplayEngine;
use tscp::kernel::state::{ClaimStatus, State};
use tscp::kernel::types::{StateHash, TransitionError, TransitionKind, TransitionReceipt, GENESIS_STATE};

fn ev(parent: StateHash, id: u8, payload: u8, time: u64) -> EventEnvelope {
    EventEnvelope {
        event_id: [id; 16],
        parent_state_hash: parent,
        payload_hash: [payload; 32],
        logical_time: time,
    }
}

#[test]
fn test_deterministic_replay() {
    let mut eng = ReplayEngine::new(1);
    let e1 = ev(GENESIS_STATE, 1, 2, 1);
    eng.apply(&e1).unwrap();
    let h1 = eng.current_hash();
    let e2 = ev(h1, 2, 3, 2);
    eng.apply(&e2).unwrap();

    let events = vec![e1, e2];
    let r1 = ReplayEngine::replay(&events, 1).unwrap();
    let r2 = ReplayEngine::replay(&events, 1).unwrap();
    let r3 = ReplayEngine::replay(&events, 1).unwrap();

    assert_eq!(r1[1].child_state_hash, r2[1].child_state_hash);
    assert_eq!(r2[1].hash(), r3[1].hash());
}

#[test]
fn test_invalid_parent_rejected() {
    let mut eng = ReplayEngine::new(1);
    let bad = ev([99u8; 32], 9, 5, 1);
    assert!(matches!(
        eng.apply(&bad),
        Err(TransitionError::InvalidParent)
    ));
}

#[test]
fn test_child_mutation_rejected() {
    let r1 = TransitionReceipt {
        parent_state_hash: [1; 32],
        event_hash: [2; 32],
        child_state_hash: [0; 32],
        kernel_version: 1,
        kind: TransitionKind::ClaimCreated,
    };
    let mut r2 = r1.clone();
    r2.child_state_hash = [99; 32];
    assert_ne!(r1.hash(), r2.hash());
}

#[test]
fn test_domain_separation() {
    let r = TransitionReceipt {
        parent_state_hash: [42; 32],
        event_hash: [2; 32],
        child_state_hash: [3; 32],
        kernel_version: 1,
        kind: TransitionKind::ClaimVerified,
    };
    let h = r.hash();
    assert_ne!(h, [42; 32]);
    assert_ne!(h, [2; 32]);
}

#[test]
fn replay_chains_receipts_and_alternates_kinds() {
    let mut eng = ReplayEngine::new(7);
    let mut parent = GENESIS_STATE;
    let mut events = Vec::new();
    for i in 0..4u8 {
        let e = ev(parent, i, i, i as u64);
        let rc = eng.apply(&e).unwrap().clone();
        assert_eq!(rc.parent_state_hash, parent);
        assert_eq!(rc.kernel_version, 7);
        assert_eq!(rc.event_hash, e.hash());
        let expected_kind = if i % 2 == 0 { TransitionKind::ClaimCreated } else { TransitionKind::ClaimVerified };
        assert_eq!(rc.kind, expected_kind);
        parent = rc.child_state_hash;
        events.push(e);
    }
    assert_eq!(eng.current_hash(), parent);
    let replayed = ReplayEngine::replay(&events, 7).unwrap();
    assert_eq!(replayed.as_slice(), eng.receipts());
}

#[test]
fn rejected_event_leaves_engine_unchanged() {
    let mut eng = ReplayEngine::new(1);
    eng.apply(&ev(GENESIS_STATE, 1, 1, 0)).unwrap();
    let before = eng.current_hash();
    assert!(eng.apply(&ev(GENESIS_STATE, 2, 2, 1)).is_err());
    assert_eq!(eng.current_hash(), before);
    assert_eq!(eng.receipts().len(), 1);
    let events = vec![ev(GENESIS_STATE, 1, 1, 0), ev(GENESIS_STATE, 2, 2, 1)];
    assert!(matches!(ReplayEngine::replay(&events, 1), Err(TransitionError::InvalidParent)));
}

#[test]
fn claims_are_created_and_verified() {
    let mut s = State::default();
    s.apply_claim_created("c1".to_string(), [5; 32]);
    s.apply_claim_created("c2".to_string(), [6; 32]);
    assert_eq!(s.version, 2);
    s.apply_claim_verified("c1".to_string(), "alice".to_string(), 9);
    assert_eq!(s.version, 3);
    let c1 = s.claims.iter().find(|e| e.claim_id == "c1").unwrap();
    assert_eq!(c1.claim.status, ClaimStatus::Verified);
    assert_eq!(c1.claim.verified_by.as_deref(), Some("alice"));
    assert_eq!(c1.claim.score, Some(9));
    assert_eq!(c1.claim.content_hash, [5; 32]);
    s.apply_claim_verified("missing".to_string(), "bob".to_string(), 1);
    assert_eq!(s.version, 3);
    s.apply_claim_created("c1".to_string(), [7; 32]);
    assert_eq!(s.claims.len(), 2);
    let c1 = s.claims.iter().find(|e| e.claim_id == "c1").unwrap();
    assert_eq!(c1.claim.status, ClaimStatus::Created);
    assert_eq!(c1.claim.content_hash, [7; 32]);
}

#[test]
fn replay_equals_applying_one_by_one() {
    let mut eng = ReplayEngine::new(3);
    let mut events = Vec::new();
    let mut parent = GENESIS_STATE;
    for i in 0..3u8 {
        let e = ev(parent, i + 10, i, i as u64);
        parent = eng.apply(&e).unwrap().child_state_hash;
        events.push(e);
    }
    assert_eq!(ReplayEngine::replay(&events, 3).unwrap().as_slice(), eng.receipts());
    // a foreign event in the middle: replay fails as the apply of it does
    let mut bad = events.clone();
    bad.insert(1, ev([7u8; 32], 1, 1, 1));
    let mut eng2 = ReplayEngine::new(3);
    eng2.apply(&bad[0]).unwrap();
    assert!(matches!(eng2.apply(&bad[1]), Err(TransitionError::InvalidParent)));
    assert!(matches!(ReplayEngine::replay(&bad, 3), Err(TransitionError::InvalidParent)));
}

#[test]
fn engine_receipts_form_a_hash_chain() {
    let mut eng = ReplayEngine::new(1);
    assert_eq!(eng.current_hash(), GENESIS_STATE);
    for i in 0..5u8 {
        let h = eng.current_hash();
        eng.apply(&ev(h, i, 2 * i, i as u64)).unwrap();
    }
    let rs = eng.receipts();
    assert_eq!(rs[0].parent_state_hash, GENESIS_STATE);
    for i in 0..rs.len() - 1 {
        assert_eq!(rs[i + 1].parent_state_hash, rs[i].child_state_hash);
    }
    assert_eq!(eng.current_hash(), rs[rs.len() - 1].child_state_hash);
}
