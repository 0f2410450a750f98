//! The request and response a prover service exchanges.
use vstd::prelude::*;

verus! {

/// A request to prove a claim over public inputs.
#[derive(Debug, Clone)]
pub struct ProofRequest {
    pub job_id: String,
    pub public_inputs: Vec<u64>,
    pub claim: Vec<u64>,
}

/// The answer to a request: the proof bytes and a status.
#[derive(Debug, Clone)]
pub struct ProofResponse {
    pub job_id: String,
    pub proof: Vec<u8>,
    pub status: String,
}

} // verus!
