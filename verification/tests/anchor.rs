use tscp::anchor::{Anchor, BatchAnchor};
use tscp::kernel::event::EventEnvelope;
use tscp::kernel::replay::ReplayEngine;
use tscp::kernel::types::GENESIS_STATE;

#[test]
fn test_batch_10() {
    let mut engine = ReplayEngine::new(1);
    let mut batch = BatchAnchor::new();
    let mut parent = GENESIS_STATE;

    for i in 0..10 {
        let e = EventEnvelope {
            event_id: [i; 16],
            parent_state_hash: parent,
            payload_hash: [i + 1; 32],
            logical_time: i as u64,
        };
        let receipt = engine.apply(&e).unwrap().clone();
        parent = receipt.child_state_hash;
        batch.add(Anchor::anchor_receipt(receipt));
    }

    let root = batch.merkle_root();
    println!("Batch of {} anchored", batch.len());
    println!("Merkle root: {:x?}", &root[..8]);
    assert_eq!(batch.len(), 10);
}

#[test]
fn test_1000_events() {
    let mut engine = ReplayEngine::new(1);
    let mut parent = GENESIS_STATE;
    for i in 0..1000 {
        let e = EventEnvelope {
            event_id: [(i % 256) as u8; 16],
            parent_state_hash: parent,
            payload_hash: [((i + 1) % 256) as u8; 32],
            logical_time: i,
        };
        let receipt = engine.apply(&e).unwrap();
        parent = receipt.child_state_hash;
        let anchored = Anchor::anchor_receipt(receipt.clone());
        assert!(anchored.verify());
        if i % 100 == 0 {
            println!("{} events chained, still hot!", i);
        }
    }
    println!("1000 events — Japan money!");
}

#[test]
fn test_kernel_to_anchor() {
    let e1 = EventEnvelope {
        event_id: [1; 16],
        parent_state_hash: GENESIS_STATE,
        payload_hash: [2; 32],
        logical_time: 1,
    };
    let mut eng = ReplayEngine::new(1);
    let receipt = eng.apply(&e1).unwrap().clone();

    let anchored = Anchor::anchor_receipt(receipt.clone());
    assert_eq!(anchored.receipt_hash, receipt.hash());
    assert!(anchored.verify(), "STARK proof should verify");
    println!("✓ Receipt anchored with proof: {:x?}", &anchored.stark_proof[..8]);
}

#[test]
fn tampered_anchor_proof_fails() {
    let mut eng = ReplayEngine::new(1);
    let e = EventEnvelope { event_id: [3; 16], parent_state_hash: GENESIS_STATE, payload_hash: [4; 32], logical_time: 0 };
    let receipt = eng.apply(&e).unwrap().clone();
    let mut anchored = Anchor::anchor_receipt(receipt);
    anchored.stark_proof[0] ^= 1;
    assert!(!anchored.verify());
}

#[test]
fn batch_root_depends_on_order() {
    let mut eng = ReplayEngine::new(1);
    let e1 = EventEnvelope { event_id: [1; 16], parent_state_hash: GENESIS_STATE, payload_hash: [1; 32], logical_time: 0 };
    let r1 = eng.apply(&e1).unwrap().clone();
    let e2 = EventEnvelope { event_id: [2; 16], parent_state_hash: r1.child_state_hash, payload_hash: [2; 32], logical_time: 1 };
    let r2 = eng.apply(&e2).unwrap().clone();
    let mut a = BatchAnchor::new();
    a.add(Anchor::anchor_receipt(r1.clone()));
    a.add(Anchor::anchor_receipt(r2.clone()));
    let mut b = BatchAnchor::new();
    b.add(Anchor::anchor_receipt(r2));
    b.add(Anchor::anchor_receipt(r1));
    assert_ne!(a.merkle_root(), b.merkle_root());
}
