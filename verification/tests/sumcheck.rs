use tscp::field::P;
use tscp::folded::{FoldedOracle, FoldedOracleBuilder};
use tscp::oracle::MleOracle;
use tscp::sumcheck::{prove_sumcheck, prover_round, sumcheck_verify, SumcheckProof};
use tscp::transcript::Transcript;

fn run_prover(col0: Vec<u32>, col1: Vec<u32>, alpha: u32) -> SumcheckProof {
    let mut challenger = Transcript::new();
    let (proof, _oracle) = prove_sumcheck(&col0, &col1, alpha, &mut challenger);
    proof
}

fn make_oracle(col0: Vec<u32>, col1: Vec<u32>, alpha: u32) -> FoldedOracle {
    let n_vars = col0.len().ilog2() as usize;
    FoldedOracleBuilder::new(vec![col0, col1], n_vars)
        .absorb_challenge(alpha)
        .build()
}

fn seeded(first: &[u32], second: &[u32]) -> Transcript {
    let mut t = Transcript::new();
    for &v in first {
        t.observe(v);
    }
    for &v in second {
        t.observe(v);
    }
    t
}

#[test]
fn honest_proof_verifies() {
    let proof = run_prover(vec![1, 2, 3, 4], vec![5, 6, 7, 8], 3);
    let oracle = make_oracle(vec![1, 2, 3, 4], vec![5, 6, 7, 8], 3);
    let mut verifier_challenger = seeded(&[1, 2, 3, 4], &[5, 6, 7, 8]);
    assert!(
        sumcheck_verify(&proof, &mut verifier_challenger, &oracle),
        "an honestly generated sumcheck proof must verify against a freshly-seeded transcript"
    );
}

#[test]
fn tampered_round_message_fails_verification() {
    let mut proof = run_prover(vec![1, 2, 3, 4], vec![5, 6, 7, 8], 3);
    proof.rounds[0].0 = (proof.rounds[0].0 + 1) % P;
    let mut verifier_challenger = seeded(&[1, 2, 3, 4], &[5, 6, 7, 8]);
    let oracle = make_oracle(vec![1, 2, 3, 4], vec![5, 6, 7, 8], 3);
    assert!(
        !sumcheck_verify(&proof, &mut verifier_challenger, &oracle),
        "a tampered round message must break the g(0)+g(1) == running_claim invariant and fail"
    );
}

#[test]
fn wrong_claimed_sum_fails_verification() {
    let mut proof = run_prover(vec![1, 2, 3, 4], vec![5, 6, 7, 8], 3);
    proof.claimed_sum = (proof.claimed_sum + 1) % P;
    let mut verifier_challenger = seeded(&[1, 2, 3, 4], &[5, 6, 7, 8]);
    let oracle = make_oracle(vec![1, 2, 3, 4], vec![5, 6, 7, 8], 3);
    assert!(
        !sumcheck_verify(&proof, &mut verifier_challenger, &oracle),
        "a claimed_sum that doesn't match round 0's g(0)+g(1) must fail immediately"
    );
}

#[test]
fn verifier_with_wrong_transcript_seed_fails() {
    let proof = run_prover(vec![1, 2, 3, 4], vec![5, 6, 7, 8], 3);
    let mut wrong_challenger = seeded(&[99, 98, 97, 96], &[5, 6, 7, 8]);
    let oracle = make_oracle(vec![1, 2, 3, 4], vec![5, 6, 7, 8], 3);
    assert!(
        !sumcheck_verify(&proof, &mut wrong_challenger, &oracle),
        "a verifier seeded with different public inputs must reject"
    );
}

#[test]
fn claimed_sum_is_the_folded_total() {
    // folded table: col0 + 3 * col1 = [16, 20, 24, 28]; total 88
    let proof = run_prover(vec![1, 2, 3, 4], vec![5, 6, 7, 8], 3);
    assert_eq!(proof.claimed_sum, 88);
    assert_eq!(proof.rounds.len(), 2);
    // first round: the low coordinate fixed to 0 gives 16 + 24, to 1 gives 20 + 28
    assert_eq!(proof.rounds[0], (40, 48));
}

#[test]
fn prover_round_sums_the_remaining_cube() {
    let oracle = make_oracle(vec![1, 2, 3, 4], vec![5, 6, 7, 8], 3);
    assert_eq!(oracle.n_vars(), 2);
    let g = prover_round(&oracle, &vec![]);
    assert_eq!(g, [40, 48]);
    let g = prover_round(&oracle, &vec![1]);
    // with the low coordinate at 1: entries 20 and 28
    assert_eq!(g, [20, 28]);
}

#[test]
fn columns_of_other_lengths_use_their_power_of_two_prefix() {
    // six rows: two variables over the first four; the transcript absorbs all six
    let mut t = Transcript::new();
    let (proof, oracle) = prove_sumcheck(&vec![1, 2, 3, 4, 5, 6], &vec![5, 6, 7], 3, &mut t);
    assert_eq!(oracle.n_vars, 2);
    // fold of [1, 2, 3, 4] and [5, 6, 7, 0]: [16, 20, 24, 4]
    assert_eq!(oracle.values, vec![16, 20, 24, 4]);
    assert_eq!(proof.claimed_sum, 64);
    let mut v = seeded(&[1, 2, 3, 4, 5, 6], &[5, 6, 7]);
    assert!(sumcheck_verify(&proof, &mut v, &oracle));
    let mut w = seeded(&[1, 2, 3, 4], &[5, 6, 7]);
    assert!(!sumcheck_verify(&proof, &mut w, &oracle));
}
