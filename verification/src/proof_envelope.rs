//! The versioned envelope a proof travels in, and the checks a verifier
//! applies before reading it.
use vstd::prelude::*;
use vstd::string::*;
use crate::text::{append_decimal, decimal};

verus! {

/// The proof-system versions an envelope can carry.
#[derive(Debug, Clone, Copy, PartialEq, Eq, Structural)]
pub enum ProofVersion {
    /// h(0), h(2): current.
    V0_6_1,
    /// h(0), h(inf): upcoming.
    V0_6_2,
}

impl ProofVersion {
    /// The version new proofs are sealed with (flips to `V0_6_2` after the
    /// migration completes).
    pub const CURRENT: ProofVersion = ProofVersion::V0_6_1;

    /// The version's wire code (1 and 2).
    pub fn code(&self) -> (c: u16)
        ensures
            c == (if *self == ProofVersion::V0_6_1 { 1u16 } else { 2u16 }),
    {
        match self {
            ProofVersion::V0_6_1 => 1,
            ProofVersion::V0_6_2 => 2,
        }
    }

    /// The version's name.
    pub fn name(&self) -> (s: &'static str)
        ensures
            s@ == version_name(*self),
    {
        match self {
            ProofVersion::V0_6_1 => "V0_6_1",
            ProofVersion::V0_6_2 => "V0_6_2",
        }
    }
}

pub open spec fn version_name(v: ProofVersion) -> Seq<char> {
    match v {
        ProofVersion::V0_6_1 => "V0_6_1"@,
        ProofVersion::V0_6_2 => "V0_6_2"@,
    }
}

/// The claim every golden-corpus proof must carry (the Fibonacci terminal
/// value).
pub const GOLDEN_CLAIM: u64 = 294373;

/// A proof with the version it was produced under.
pub struct ProofEnvelope {
    pub version: ProofVersion,
    pub plonky3_semver: [u8; 3],
    /// The Fibonacci terminal claim checked against the golden corpus.
    pub claim: u64,
    pub payload: Vec<u8>,
}

/// Why an envelope was refused.
#[derive(Debug)]
pub enum ProofError {
    UnsupportedVersion { got: ProofVersion, expected: ProofVersion, reason: &'static str },
    GoldenMismatch { expected: u64, got: u64 },
}

/// The reason given when envelope and verifier versions differ.
pub open spec fn version_mismatch_reason() -> Seq<char> {
    "proof envelope version does not match verifier version"@
}

/// The human-readable text of an error.
pub open spec fn proof_error_message(e: ProofError) -> Seq<char> {
    match e {
        ProofError::UnsupportedVersion { got, expected, reason } => "Unsupported proof version: got "@
            + version_name(got) + ", expected "@ + version_name(expected) + " — "@ + reason@,
        ProofError::GoldenMismatch { expected, got } => "Golden corpus mismatch: expected claim "@
            + decimal(expected as nat) + ", got "@ + decimal(got as nat),
    }
}

impl ProofError {
    /// The error's message.
    pub fn message(&self) -> (s: String)
        ensures
            s@ == proof_error_message(*self),
    {
        match self {
            ProofError::UnsupportedVersion { got, expected, reason } => {
                let mut s = String::from_str("Unsupported proof version: got ");
                s.append(got.name());
                s.append(", expected ");
                s.append(expected.name());
                s.append(" — ");
                s.append(reason);
                s
            },
            ProofError::GoldenMismatch { expected, got } => {
                let mut s = String::from_str("Golden corpus mismatch: expected claim ");
                append_decimal(&mut s, *expected);
                s.append(", got ");
                append_decimal(&mut s, *got);
                s
            },
        }
    }
}

impl ProofEnvelope {
    /// Seals `payload` as a version 0.6.1 proof.
    pub fn seal_061(claim: u64, payload: Vec<u8>) -> (e: Self)
        ensures
            e.version == ProofVersion::V0_6_1,
            e.plonky3_semver@ == seq![0u8, 6, 1],
            e.claim == claim,
            e.payload@ == payload@,
    {
        let e = ProofEnvelope { version: ProofVersion::V0_6_1, plonky3_semver: [0, 6, 1], claim, payload };
        assert(e.plonky3_semver@ =~= seq![0u8, 6, 1]);
        e
    }

    /// Seals `payload` as a version 0.6.2 proof.
    pub fn seal_062(claim: u64, payload: Vec<u8>) -> (e: Self)
        ensures
            e.version == ProofVersion::V0_6_2,
            e.plonky3_semver@ == seq![0u8, 6, 2],
            e.claim == claim,
            e.payload@ == payload@,
    {
        let e = ProofEnvelope { version: ProofVersion::V0_6_2, plonky3_semver: [0, 6, 2], claim, payload };
        assert(e.plonky3_semver@ =~= seq![0u8, 6, 2]);
        e
    }

    /// Opens the envelope for a verifier of `verifier_version`. Envelope and
    /// verifier versions must match exactly: no implicit cross-version
    /// acceptance.
    pub fn open(&self, verifier_version: ProofVersion) -> (r: Result<&[u8], ProofError>)
        ensures
            self.version == verifier_version <==> r is Ok,
            r matches Ok(p) ==> p@ == self.payload@,
            r matches Err(e) ==> e matches ProofError::UnsupportedVersion { got, expected, reason }
                && got == self.version && expected == verifier_version
                && reason@ == version_mismatch_reason(),
    {
        match (self.version, verifier_version) {
            (ProofVersion::V0_6_1, ProofVersion::V0_6_1) => Ok(self.payload.as_slice()),
            (ProofVersion::V0_6_2, ProofVersion::V0_6_2) => Ok(self.payload.as_slice()),
            (got, expected) => Err(ProofError::UnsupportedVersion {
                got,
                expected,
                reason: "proof envelope version does not match verifier version",
            }),
        }
    }

    /// The golden-corpus gate: the claim must be the golden terminal value.
    pub fn verify_golden(&self) -> (r: Result<(), ProofError>)
        ensures
            r is Ok <==> self.claim == GOLDEN_CLAIM,
            r matches Err(e) ==> e matches ProofError::GoldenMismatch { expected, got }
                && expected == GOLDEN_CLAIM && got == self.claim,
    {
        if self.claim != GOLDEN_CLAIM {
            return Err(ProofError::GoldenMismatch { expected: GOLDEN_CLAIM, got: self.claim });
        }
        Ok(())
    }
}

} // verus!
