use serde::ser::SerializeStruct;
use tscp::kernel::serialization::{from_cbor, to_canonical_cbor, to_cbor};
use tscp::kernel::types::{TransitionError, TransitionKind, TransitionReceipt};

// ─── Helper ──────────────────────────────────────────────────────────────

fn sample_receipt() -> TransitionReceipt {
    TransitionReceipt {
        parent_state_hash: [0xAB; 32],
        event_hash: [0xCD; 32],
        child_state_hash: [0xEF; 32],
        kernel_version: 1,
        kind: TransitionKind::ClaimCreated,
    }
}

fn receipt_hash(r: &TransitionReceipt) -> [u8; 32] {
    r.hash()
}

// ─── Predicate 1: Schema Compliance ──────────────────────────────────────

/// #1 positive: valid schema accepted — a well-formed TransitionReceipt
/// serializes and deserializes cleanly.
#[test]
fn test_valid_schema_accepted() {
    let r = sample_receipt();
    let bytes = to_cbor(&r).expect("serialize should succeed");
    let r2: TransitionReceipt = from_cbor(&bytes).expect("deserialize should succeed");
    assert_eq!(r, r2, "round-trip must preserve all fields");
}

/// #1 negative: invalid schema rejected — truncated / corrupt CBOR is rejected.
#[test]
fn test_invalid_schema_rejected() {
    let r = sample_receipt();
    let mut bytes = to_cbor(&r).expect("serialize");
    // Truncate to corrupt the CBOR structure
    bytes.truncate(bytes.len() / 2);
    let result: Result<TransitionReceipt, _> = from_cbor(&bytes);
    assert!(result.is_err(), "truncated CBOR must be rejected");

    // Also test with garbage bytes
    let garbage = [0xFFu8; 10];
    let result2: Result<TransitionReceipt, _> = from_cbor(&garbage);
    assert!(result2.is_err(), "garbage bytes must be rejected");
}

// ─── Predicate 2: Canonical Encoding ─────────────────────────────────────

/// #2 positive: equivalent objects produce identical canonical bytes.
/// Two TransitionReceipts with identical field values must serialize to
/// byte-identical CBOR.
#[test]
fn test_equivalent_json_canonical_bytes() {
    let r1 = sample_receipt();
    let r2 = sample_receipt(); // same values

    let b1 = to_cbor(&r1).unwrap();
    let b2 = to_cbor(&r2).unwrap();

    assert_eq!(b1, b2, "equivalent objects must produce identical bytes");
}

/// #2 negative: non-canonical encoding rejected — a byte-level modification
/// that doesn't change the logical value still produces a different
/// serialized form (proving determinism, not just correctness).
#[test]
fn test_non_canonical_rejected() {
    let r = sample_receipt();
    let b1 = to_cbor(&r).unwrap();

    // Flip a bit in the serialized form
    let mut b2 = b1.clone();
    b2[10] ^= 0x01;

    // The modified bytes should NOT deserialize to the same object
    let result: Result<TransitionReceipt, _> = from_cbor(&b2);
    if let Ok(r2) = result {
        assert_ne!(r, r2, "modified bytes must not produce equivalent object");
    }
    // If deserialization fails, that's also acceptable — the mutation was detected
}

// ─── Predicate 3: Hash Stability ──────────────────────────────────────────

/// #3 positive: serialize → deserialize → re-serialize → same bytes,
/// and the hash is stable across all cycles.
#[test]
fn test_round_trip_hash_stability() {
    let r = sample_receipt();
    let h_before = receipt_hash(&r);

    let b1 = to_cbor(&r).unwrap();
    let r2: TransitionReceipt = from_cbor(&b1).unwrap();
    let h_after = receipt_hash(&r2);

    let b2 = to_cbor(&r2).unwrap();

    assert_eq!(b1, b2, "re-serialized bytes must be identical");
    assert_eq!(h_before, h_after, "hash must be stable across round-trip");

    // Multiple round-trips
    let r3: TransitionReceipt = from_cbor(&b2).unwrap();
    let b3 = to_cbor(&r3).unwrap();
    assert_eq!(b1, b3, "hash must be stable across multiple round-trips");
    assert_eq!(h_before, receipt_hash(&r3), "hash must be stable across N round-trips");
}

// ─── Predicate 4: Mutation Sensitivity ─────────────────────────────────────

/// #4 positive: any single-bit change in the receipt produces a changed
/// identity hash (deterministic avalanche).
#[test]
fn test_mutation_changes_hash() {
    let r = sample_receipt();
    let h_original = receipt_hash(&r);

    // Flip each bit in each field, verify hash changes
    for byte_idx in 0..32 {
        let mut r2 = r.clone();
        r2.parent_state_hash[byte_idx] ^= 0x01;
        assert_ne!(
            h_original, receipt_hash(&r2),
            "parent_state_hash bit {} flip must change hash", byte_idx * 8
        );
    }

    for byte_idx in 0..32 {
        let mut r2 = r.clone();
        r2.event_hash[byte_idx] ^= 0x01;
        assert_ne!(
            h_original, receipt_hash(&r2),
            "event_hash bit {} flip must change hash", byte_idx * 8
        );
    }

    for byte_idx in 0..32 {
        let mut r2 = r.clone();
        r2.child_state_hash[byte_idx] ^= 0x01;
        assert_ne!(
            h_original, receipt_hash(&r2),
            "child_state_hash bit {} flip must change hash", byte_idx * 8
        );
    }

    // kernel_version change
    let mut r2 = r.clone();
    r2.kernel_version = 2;
    assert_ne!(h_original, receipt_hash(&r2), "kernel_version change must change hash");

    // kind change
    let mut r2 = r.clone();
    r2.kind = TransitionKind::ClaimVerified;
    assert_ne!(h_original, receipt_hash(&r2), "kind change must change hash");
}

/// #4 negative: mutation detection is always enforced — no mutation
/// escapes detection. Exhaustive check across all single-byte mutations
/// of all 96 hash bytes + metadata.
#[test]
fn test_mutation_always_detected() {
    let r = sample_receipt();
    let h_original = receipt_hash(&r);

    // Exhaustive single-byte mutation across all 96 bytes of hash fields
    let fields: [(&str, usize); 3] = [
        ("parent", 32),
        ("event", 32),
        ("child", 32),
    ];

    for (field_name, len) in &fields {
        for byte_idx in 0..*len {
            for bit in 0..8 {
                let mut r2 = r.clone();
                let mask = 1u8 << bit;
                match *field_name {
                    "parent" => r2.parent_state_hash[byte_idx] ^= mask,
                    "event" => r2.event_hash[byte_idx] ^= mask,
                    "child" => r2.child_state_hash[byte_idx] ^= mask,
                    _ => unreachable!(),
                }
                assert_ne!(
                    h_original, receipt_hash(&r2),
                    "undetected mutation: field={}, byte={}, bit={}",
                    field_name, byte_idx, bit
                );
            }
        }
    }
}

// ─── Predicate 5: Context Isolation ────────────────────────────────────────

/// #5 positive: different TSCP domains produce different hashes.
/// The domain-separation tag in the hash function ensures no cross-domain
/// collision.
#[test]
fn test_different_domains_different_hashes() {
    let r = sample_receipt();
    let h = receipt_hash(&r);

    // The hash must not equal any input component
    assert_ne!(h, r.parent_state_hash, "hash must not equal parent_state_hash");
    assert_ne!(h, r.event_hash, "hash must not equal event_hash");
    assert_ne!(h, r.child_state_hash, "hash must not equal child_state_hash");

    // Different kernel versions must produce different hashes
    let mut r2 = r.clone();
    r2.kernel_version = 2;
    assert_ne!(h, receipt_hash(&r2), "different kernel_version must produce different hash");

    let mut r3 = r.clone();
    r3.kernel_version = 999;
    assert_ne!(h, receipt_hash(&r3), "different kernel_version (999) must produce different hash");
}

/// #5 negative: cross-domain no collision — two receipts that differ only
/// in their domain context (kernel_version) never produce the same hash.
#[test]
fn test_cross_domain_no_collision() {
    let r = sample_receipt();

    // Generate hashes for kernel_version 1..256, verify all distinct
    let mut hashes: Vec<[u8; 32]> = Vec::new();
    for kv in 1u16..=256 {
        let mut r2 = r.clone();
        r2.kernel_version = kv;
        let h = receipt_hash(&r2);

        for (idx, prev) in hashes.iter().enumerate() {
            assert_ne!(
                h, *prev,
                "collision: kernel_version={} collided with kernel_version={}",
                kv, idx + 1
            );
        }
        hashes.push(h);
    }

    // Also verify that different kind values produce different hashes
    let h_created = {
        let mut r2 = r.clone();
        r2.kind = TransitionKind::ClaimCreated;
        receipt_hash(&r2)
    };
    let h_verified = {
        let mut r2 = r.clone();
        r2.kind = TransitionKind::ClaimVerified;
        receipt_hash(&r2)
    };
    assert_ne!(h_created, h_verified, "different kind must produce different hash");
}

// ─── Predicate 6: Toolchain Reproducibility ───────────────────────────────

/// #6: toolchain reproducibility — the same source compiled with the same
/// toolchain produces bitwise-identical serialized output.
/// This test verifies that serialization is deterministic within the
/// current toolchain environment.
#[test]
fn test_reproducible_build() {
    let r = sample_receipt();

    // Serialize 1000 times, verify identical output every time
    let baseline = to_cbor(&r).unwrap();
    for i in 0..1000 {
        let bytes = to_cbor(&r).unwrap();
        assert_eq!(
            bytes, baseline,
            "serialization non-deterministic at iteration {}", i
        );
    }

    // Also verify hash is deterministic
    let h_baseline = receipt_hash(&r);
    for i in 0..1000 {
        let h = receipt_hash(&r);
        assert_eq!(h, h_baseline, "hash non-deterministic at iteration {}", i);
    }
}

// ─── Predicate 7: Authority Boundary Preservation ────────────────────────

/// #7 positive: authority boundary compile — the EvidenceArtifact type
/// does not contain custody-related fields. This is a compile-time
/// guarantee enforced by the type system.
///
/// We verify that the TransitionReceipt (an evidence record) contains only
/// data fields and no custody decision fields (no "promote", "reject",
/// "approve", "custody" fields).
#[test]
fn test_authority_boundary_compile() {
    let r = sample_receipt();
    let bytes = to_cbor(&r).unwrap();

    // The serialized form must NOT contain custody decision keywords
    // This is a structural check — the type itself has no such fields,
    // but we verify the serialized form doesn't accidentally include them
    let serialized_str = String::from_utf8_lossy(&bytes);

    assert!(!serialized_str.contains("promote"), "evidence record must not contain 'promote'");
    assert!(!serialized_str.contains("reject"), "evidence record must not contain 'reject'");
    assert!(!serialized_str.contains("approve"), "evidence record must not contain 'approve'");
    assert!(!serialized_str.contains("custody"), "evidence record must not contain 'custody'");

    // Verify the type only has the expected fields
    let r2: TransitionReceipt = from_cbor(&bytes).unwrap();
    // Access all fields to confirm they're the only ones
    let _ = r2.parent_state_hash;
    let _ = r2.event_hash;
    let _ = r2.child_state_hash;
    let _ = r2.kernel_version;
    let _ = r2.kind;
}

/// #7 negative: custody expression blocked — verify that attempting to
/// construct a custody-like structure from serialized evidence is rejected
/// by the type system. The TransitionReceipt has no fields for custody
/// decisions, so any such data would be rejected during deserialization.
#[test]
fn test_custody_expression_blocked() {
    // Attempt to inject custody-like data into the CBOR stream
    // by creating a modified CBOR map with extra fields.
    let r = sample_receipt();
    let bytes = to_cbor(&r).unwrap();

    // The decoder accepts exactly the canonical five-field map: a map with
    // a sixth entry is refused (see the test below), so no custody data
    // can travel inside a receipt.

    // Verify by round-tripping
    let r2: TransitionReceipt = from_cbor(&bytes).unwrap();
    assert_eq!(r, r2, "round-trip must preserve only the defined fields");

    // The type's field count is fixed at 5 — there's no 6th field for custody
    // This is enforced at compile time by the struct definition.
    // We verify the hash doesn't change if we add noise:
    let h1 = receipt_hash(&r);
    let h2 = receipt_hash(&r2);
    assert_eq!(h1, h2, "hash must be stable — no custody expression possible");
}

#[test]
fn encoding_has_the_canonical_layout() {
    let r = sample_receipt();
    let b = to_cbor(&r).unwrap();
    // map of five entries, then the text key "parent_state_hash"
    assert_eq!(b[0], 0xA5);
    assert_eq!(b[1], 0x60 + 17);
    assert_eq!(&b[2..19], b"parent_state_hash");
    // an array of 32 one-byte integers (0xAB needs the 0x18 prefix)
    assert_eq!(b[19], 0x98);
    assert_eq!(b[20], 32);
    assert_eq!(b[21], 0x18);
    assert_eq!(b[22], 0xAB);
    // version 1 and the kind name close the map
    let mut want: Vec<u8> = vec![0x6E];
    want.extend_from_slice(b"kernel_version");
    want.push(0x01);
    want.push(0x64);
    want.extend_from_slice(b"kind");
    want.push(0x6C);
    want.extend_from_slice(b"ClaimCreated");
    assert_eq!(&b[b.len() - want.len()..], &want[..]);
    assert_eq!(b.len(), 1 + 18 + 66 + 11 + 66 + 17 + 66 + 15 + 1 + 5 + 13);
}

#[test]
fn large_versions_and_verified_kind_round_trip() {
    for kv in [0u16, 23, 24, 255, 256, 999, 65535] {
        let mut r = sample_receipt();
        r.kernel_version = kv;
        r.kind = TransitionKind::ClaimVerified;
        r.event_hash[3] = 7;
        let b = to_cbor(&r).unwrap();
        let r2 = from_cbor(&b).unwrap();
        assert_eq!(r, r2);
    }
}

#[test]
fn trailing_bytes_and_non_shortest_integers_are_rejected() {
    let r = sample_receipt();
    let mut b = to_cbor(&r).unwrap();
    b.push(0);
    assert!(matches!(from_cbor(&b), Err(TransitionError::Serialization(_))));
    // version 1 written with a one-byte argument is not canonical
    let b = to_cbor(&r).unwrap();
    let pos = b.len() - 19;
    assert_eq!(b[pos], 0x01);
    let mut long: Vec<u8> = b[..pos].to_vec();
    long.push(0x18);
    long.extend_from_slice(&b[pos..]);
    assert!(from_cbor(&long).is_err());
    // an empty input is no receipt
    assert!(from_cbor(&[]).is_err());
}

#[test]
fn extra_map_entries_are_refused() {
    let r = sample_receipt();
    let mut b = to_cbor(&r).unwrap();
    // claim six entries and append a text key "custody" with the value 1
    b[0] = 0xA6;
    b.push(0x67);
    b.extend_from_slice(b"custody");
    b.push(0x01);
    assert!(matches!(from_cbor(&b), Err(TransitionError::Serialization(_))));
}

// ─── Agreement with serde's CBOR form ────────────────────────────────────

/// The receipt as serde sees a plain struct of its five fields.
struct SerdeReceipt<'a>(&'a TransitionReceipt);

/// The kind as serde sees a unit-only enum.
struct SerdeKind(TransitionKind);

impl serde::Serialize for SerdeKind {
    fn serialize<S: serde::Serializer>(&self, s: S) -> Result<S::Ok, S::Error> {
        match self.0 {
            TransitionKind::ClaimCreated => s.serialize_unit_variant("TransitionKind", 0, "ClaimCreated"),
            TransitionKind::ClaimVerified => s.serialize_unit_variant("TransitionKind", 1, "ClaimVerified"),
        }
    }
}

impl<'a> serde::Serialize for SerdeReceipt<'a> {
    fn serialize<S: serde::Serializer>(&self, s: S) -> Result<S::Ok, S::Error> {
        let mut st = s.serialize_struct("TransitionReceipt", 5)?;
        st.serialize_field("parent_state_hash", &self.0.parent_state_hash)?;
        st.serialize_field("event_hash", &self.0.event_hash)?;
        st.serialize_field("child_state_hash", &self.0.child_state_hash)?;
        st.serialize_field("kernel_version", &self.0.kernel_version)?;
        st.serialize_field("kind", &SerdeKind(self.0.kind))?;
        st.end()
    }
}

fn varied_receipt() -> TransitionReceipt {
    let mut parent = [0u8; 32];
    let mut event = [0u8; 32];
    let mut child = [0u8; 32];
    for i in 0..32 {
        parent[i] = (i * 9) as u8;
        event[i] = (255 - i * 7) as u8;
        child[i] = (i * 31 % 256) as u8;
    }
    TransitionReceipt {
        parent_state_hash: parent,
        event_hash: event,
        child_state_hash: child,
        kernel_version: 300,
        kind: TransitionKind::ClaimVerified,
    }
}

#[test]
fn test_encoding_matches_serde_cbor() {
    for r in [sample_receipt(), varied_receipt()] {
        let ours = to_cbor(&r).expect("serialize");
        let serde_bytes = serde_cbor::to_vec(&SerdeReceipt(&r)).expect("serde_cbor");
        assert_eq!(ours, serde_bytes, "canonical bytes must be serde_cbor's");
        let back = from_cbor(&serde_bytes).expect("serde_cbor bytes decode");
        assert_eq!(back, r);
    }
}

#[test]
fn test_canonical_encoding_matches_serde_cbor() {
    for r in [sample_receipt(), varied_receipt()] {
        let ours = to_canonical_cbor(&r).expect("serialize");
        let serde_bytes = serde_cbor::to_vec(&SerdeReceipt(&r)).expect("serde_cbor");
        assert_eq!(ours, serde_bytes);
    }
}

#[test]
fn test_every_truncation_is_rejected() {
    for r in [sample_receipt(), varied_receipt()] {
        let bytes = to_canonical_cbor(&r).expect("serialize");
        for k in 0..bytes.len() {
            assert!(matches!(from_cbor(&bytes[..k]), Err(TransitionError::Serialization(_))), "cut at {k}");
        }
        assert_eq!(from_cbor(&bytes).expect("full"), r);
    }
}
