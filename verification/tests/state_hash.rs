use serde::ser::SerializeStruct;
use std::collections::BTreeMap;
use tscp::kernel::state::{ClaimState, ClaimStatus, State};
use tscp::kernel::state_encoding::encode_state;

/// A claim as serde sees a plain struct of its four fields.
struct SerdeClaim<'a>(&'a ClaimState);

/// The state as serde sees a struct of a version and a sorted map of claims.
struct SerdeState<'a>(&'a State);

impl<'a> serde::Serialize for SerdeClaim<'a> {
    fn serialize<S: serde::Serializer>(&self, s: S) -> Result<S::Ok, S::Error> {
        let mut st = s.serialize_struct("ClaimState", 4)?;
        st.serialize_field("content_hash", &self.0.content_hash)?;
        match self.0.status {
            ClaimStatus::Created => st.serialize_field("status", "Created")?,
            ClaimStatus::Verified => st.serialize_field("status", "Verified")?,
        }
        st.serialize_field("verified_by", &self.0.verified_by)?;
        st.serialize_field("score", &self.0.score)?;
        st.end()
    }
}

impl<'a> serde::Serialize for SerdeState<'a> {
    fn serialize<S: serde::Serializer>(&self, s: S) -> Result<S::Ok, S::Error> {
        let mut claims = BTreeMap::new();
        for e in self.0.claims.iter() {
            claims.insert(e.claim_id.clone(), SerdeClaim(&e.claim));
        }
        let mut st = s.serialize_struct("State", 2)?;
        st.serialize_field("version", &self.0.version)?;
        st.serialize_field("claims", &claims)?;
        st.end()
    }
}

fn serde_bytes(s: &State) -> Vec<u8> {
    serde_cbor::to_vec(&SerdeState(s)).expect("serde_cbor")
}

#[test]
fn empty_state_encodes_and_hashes_as_serde_cbor_and_blake3() {
    let s = State::default();
    let bytes = serde_bytes(&s);
    assert_eq!(encode_state(&s), bytes);
    assert_eq!(s.hash(), *blake3::hash(&bytes).as_bytes());
}

#[test]
fn claims_are_encoded_in_identifier_order() {
    let mut s = State::default();
    s.apply_claim_created("zeta".to_string(), [1; 32]);
    s.apply_claim_created("alpha".to_string(), [200; 32]);
    s.apply_claim_created("mid-\u{fc}".to_string(), [3; 32]);
    s.apply_claim_created("x".repeat(300), [4; 32]);
    s.apply_claim_verified("alpha".to_string(), "verifier-x".to_string(), 200);
    s.apply_claim_verified("zeta".to_string(), "v".to_string(), 7);
    let bytes = serde_bytes(&s);
    assert_eq!(encode_state(&s), bytes);
    assert_eq!(s.hash(), *blake3::hash(&bytes).as_bytes());
    // the insertion order does not matter
    let mut t = State::default();
    t.apply_claim_created("x".repeat(300), [4; 32]);
    t.apply_claim_created("mid-\u{fc}".to_string(), [3; 32]);
    t.apply_claim_created("alpha".to_string(), [200; 32]);
    t.apply_claim_created("zeta".to_string(), [1; 32]);
    t.apply_claim_verified("zeta".to_string(), "v".to_string(), 7);
    t.apply_claim_verified("alpha".to_string(), "verifier-x".to_string(), 200);
    assert_eq!(t.hash(), s.hash());
}

#[test]
fn large_versions_use_long_heads() {
    let mut s = State::default();
    for v in [23u64, 24, 255, 256, 65535, 65536, 4294967295, 4294967296, u64::MAX] {
        s.version = v;
        assert_eq!(encode_state(&s), serde_bytes(&s));
    }
    let a = State::default();
    let mut b = State::default();
    b.version = 1;
    assert_ne!(a.hash(), b.hash());
}
