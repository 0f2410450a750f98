use tscp::proof_envelope::{ProofEnvelope, ProofError, ProofVersion};

#[test]
fn test_062_envelope_opens_on_062() {
    let env = ProofEnvelope::seal_062(294373, vec![42, 99]);

    assert_eq!(env.version, ProofVersion::V0_6_2);
    assert!(env.open(ProofVersion::V0_6_2).is_ok());
    assert!(env.verify_golden().is_ok());
}

#[test]
fn test_062_rejected_by_061_verifier() {
    let env = ProofEnvelope::seal_062(294373, vec![]);

    let err = env.open(ProofVersion::V0_6_1).unwrap_err();

    assert!(err.message().contains("Unsupported proof version"));
}

#[test]
fn envelope_open_returns_payload_and_semver() {
    let env = ProofEnvelope::seal_061(7, vec![0xDE, 0xAD, 0xBE, 0xEF]);
    assert_eq!(env.plonky3_semver, [0, 6, 1]);
    assert_eq!(env.open(ProofVersion::CURRENT).unwrap(), &[0xDE, 0xAD, 0xBE, 0xEF][..]);
    let err = env.open(ProofVersion::V0_6_2).unwrap_err();
    assert_eq!(
        err.message(),
        "Unsupported proof version: got V0_6_1, expected V0_6_2 — proof envelope version does not match verifier version"
    );
}

#[test]
fn golden_mismatch_reports_both_claims() {
    let env = ProofEnvelope::seal_062(42, vec![1]);
    let err = env.verify_golden().unwrap_err();
    assert!(matches!(err, ProofError::GoldenMismatch { expected: 294373, got: 42 }));
    assert_eq!(err.message(), "Golden corpus mismatch: expected claim 294373, got 42");
}
