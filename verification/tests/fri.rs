use tscp::fft::Radix2Interpolator;
use tscp::field::{fe_add, fe_mul, fe_neg, fe_pow, P};
use tscp::fri::{fold_domain, fri_fold_step};
use tscp::fri_protocol::{fri_commit, fri_verify_commitment};
use tscp::fri_query::{fri_prove, fri_query_round, fri_verify, verify_fri_query_round};
use tscp::merkle::{verify_opening, Digest, MerkleTree};
use tscp::transcript::Transcript;

fn omega(n: u64) -> u32 {
    fe_pow(31, (P as u64 - 1) / n)
}

fn negation_closed_domain(w: u32, n: usize) -> Vec<u32> {
    let half = n / 2;
    let mut d: Vec<u32> = (0..half as u64).map(|i| fe_pow(w, i)).collect();
    let negs: Vec<u32> = d.iter().map(|&x| fe_neg(x)).collect();
    d.extend(negs);
    d
}

fn evals_of(coeffs: &Vec<u32>, domain: &[u32]) -> Vec<u32> {
    domain.iter().map(|&x| Radix2Interpolator::evaluate_coeffs(coeffs, x)).collect()
}

fn digest(v: u32) -> Digest {
    [v, 0, 0, 0, 0, 0, 0, 0]
}

#[test]
fn fold_step_of_linear_polynomial_is_constant() {
    // p(x) = 3 + 5x: p_even = 3, p_odd = 5, fold = 3 + beta * 5
    let w = omega(4);
    let domain = negation_closed_domain(w, 4);
    let evals = evals_of(&vec![3, 5], &domain);
    let folded = fri_fold_step(&evals, &domain, 7);
    assert_eq!(folded, vec![38, 38]);
}

#[test]
fn fold_domain_squares_the_first_half() {
    assert_eq!(fold_domain(&vec![2, 3, 5, 7]), vec![4, 9]);
    assert_eq!(fold_domain(&vec![2, 3, 5]), vec![4]);
}

#[test]
fn fold_step_matches_even_plus_beta_odd() {
    let w = omega(8);
    let domain = negation_closed_domain(w, 8);
    let coeffs = vec![1, 2, 3, 4, 0, 0, 0, 0];
    let evals = evals_of(&coeffs, &domain);
    let beta = 10;
    let folded = fri_fold_step(&evals, &domain, beta);
    let next_domain = fold_domain(&domain);
    // p_even = 1 + 3y, p_odd = 2 + 4y
    let expect = Radix2Interpolator::evaluate_coeffs(&vec![fe_add(1, fe_mul(beta, 2)), fe_add(3, fe_mul(beta, 4))], next_domain[0]);
    assert_eq!(folded[0], expect);
}

#[test]
fn commit_on_constant_polynomial_ends_at_that_constant() {
    let w = omega(8);
    let domain = negation_closed_domain(w, 8);
    let evals = vec![7u32; 8];
    let betas = vec![3, 5, 11];
    let commitment = fri_commit(evals, domain, &betas);
    assert_eq!(commitment.final_value, 7, "a constant polynomial must fold down to its own constant value");
    assert_eq!(commitment.roots.len(), 4, "must have 1 initial + 3 round roots for n=8");
}

#[test]
fn commit_matches_independent_recomputation() {
    let w = omega(8);
    let domain = negation_closed_domain(w, 8);
    let coeffs = vec![1, 2, 3, 4, 0, 0, 0, 0];
    let evals = evals_of(&coeffs, &domain);
    let betas = vec![10, 20, 30];
    let commitment = fri_commit(evals.clone(), domain.clone(), &betas);
    assert!(fri_verify_commitment(evals, domain, &betas, &commitment), "independently recomputing the same commit phase must match exactly");
}

#[test]
fn different_betas_produce_different_roots_and_final_value() {
    let w = omega(8);
    let domain = negation_closed_domain(w, 8);
    let coeffs = vec![1, 2, 3, 4, 0, 0, 0, 0];
    let evals = evals_of(&coeffs, &domain);
    let commit_a = fri_commit(evals.clone(), domain.clone(), &vec![1, 1, 1]);
    let commit_b = fri_commit(evals, domain, &vec![2, 2, 2]);
    assert_ne!(commit_a.final_value, commit_b.final_value, "different challenge sequences must produce different final values");
}

#[test]
fn tampering_with_evaluations_changes_the_initial_root_and_propagates() {
    let w = omega(8);
    let domain = negation_closed_domain(w, 8);
    let coeffs = vec![1, 2, 3, 4, 0, 0, 0, 0];
    let evals_honest = evals_of(&coeffs, &domain);
    let mut evals_tampered = evals_honest.clone();
    evals_tampered[3] = 999999;
    let betas = vec![7, 7, 7];
    let commit_honest = fri_commit(evals_honest, domain.clone(), &betas);
    let commit_tampered = fri_commit(evals_tampered, domain, &betas);
    assert_ne!(commit_honest.roots[0], commit_tampered.roots[0], "tampering with input evaluations must change the initial commitment root");
    assert_ne!(commit_honest.final_value, commit_tampered.final_value, "tampering must also generally change the final folded value");
}

#[test]
fn tampered_claim_is_rejected_by_recomputation() {
    let w = omega(8);
    let domain = negation_closed_domain(w, 8);
    let evals = evals_of(&vec![1, 2, 3, 4, 0, 0, 0, 0], &domain);
    let betas = vec![10, 20, 30];
    let mut commitment = fri_commit(evals.clone(), domain.clone(), &betas);
    commitment.final_value = fe_add(commitment.final_value, 1);
    assert!(!fri_verify_commitment(evals, domain, &betas, &commitment));
}

#[test]
fn root_is_deterministic_shape() {
    let leaves: Vec<u32> = vec![1, 2, 3, 4];
    let tree = MerkleTree::build(leaves.clone());
    let root = tree.root();
    for i in 0..4 {
        let opening = tree.open(i);
        assert!(verify_opening(&root, 4, &opening), "leaf {i} must verify against its own tree's root");
    }
    assert_eq!(MerkleTree::build(leaves).root(), root, "the fixed permutation makes the root a function of the leaves");
}

#[test]
fn tampered_leaf_value_fails_verification() {
    let leaves: Vec<u32> = (1..=4).collect();
    let tree = MerkleTree::build(leaves);
    let root = tree.root();
    let mut opening = tree.open(1);
    opening.leaf_value = 999;
    assert!(!verify_opening(&root, 4, &opening), "a tampered leaf value must NOT verify against the real root");
}

#[test]
fn wrong_commitment_fails_verification() {
    let tree_a = MerkleTree::build((1..=4).collect());
    let tree_b = MerkleTree::build((5..=8).collect());
    let opening = tree_a.open(0);
    assert!(!verify_opening(&tree_b.root(), 4, &opening), "an opening from one tree must not verify against a different tree's commitment");
}

#[test]
fn valid_opening_verifies_for_every_leaf() {
    let tree = MerkleTree::build((1..=8).collect());
    let root = tree.root();
    for i in 0..8 {
        let opening = tree.open(i);
        assert_eq!(opening.leaf_value, (i + 1) as u32);
        assert!(verify_opening(&root, 8, &opening), "leaf {i}'s opening must verify");
    }
}

fn setup_one_round() -> (MerkleTree, MerkleTree, Vec<u32>, u32) {
    let w = omega(8);
    let domain = negation_closed_domain(w, 8);
    let evals = evals_of(&vec![1, 2, 3, 4, 0, 0, 0, 0], &domain);
    let beta = 10;
    let folded = fri_fold_step(&evals, &domain, beta);
    (MerkleTree::build(evals), MerkleTree::build(folded), domain, beta)
}

#[test]
fn honest_query_verifies_for_every_index() {
    let (current_tree, next_tree, domain, beta) = setup_one_round();
    let root_current = current_tree.root();
    let root_next = next_tree.root();
    for idx in 0..4 {
        let query = fri_query_round(&current_tree, &next_tree, idx);
        let x = domain[idx];
        assert!(verify_fri_query_round(&root_current, &root_next, 8, x, beta, &query), "honest query at index {idx} must verify");
    }
}

#[test]
fn tampered_folded_value_fails_verification() {
    let (current_tree, next_tree, domain, beta) = setup_one_round();
    let mut query = fri_query_round(&current_tree, &next_tree, 0);
    query.opening_folded.leaf_value = 999999;
    assert!(!verify_fri_query_round(&current_tree.root(), &next_tree.root(), 8, domain[0], beta, &query));
}

#[test]
fn wrong_beta_fails_verification() {
    let (current_tree, next_tree, domain, beta) = setup_one_round();
    let query = fri_query_round(&current_tree, &next_tree, 0);
    assert!(!verify_fri_query_round(&current_tree.root(), &next_tree.root(), 8, domain[0], fe_add(beta, 1), &query));
}

#[test]
fn mismatched_x_and_neg_x_openings_fails_verification() {
    let (current_tree, next_tree, domain, beta) = setup_one_round();
    let mut query = fri_query_round(&current_tree, &next_tree, 0);
    query.opening_neg_x = current_tree.open(2);
    assert!(!verify_fri_query_round(&current_tree.root(), &next_tree.root(), 8, domain[0], beta, &query));
}

#[test]
fn forged_opening_with_wrong_root_fails_even_with_correct_arithmetic() {
    let (current_tree, next_tree, _domain, beta) = setup_one_round();
    let bogus_root_current = digest(123456789);
    let query = fri_query_round(&current_tree, &next_tree, 0);
    assert!(!verify_fri_query_round(&bogus_root_current, &next_tree.root(), 8, 1, beta, &query));
}

fn domain16() -> Vec<u32> {
    negation_closed_domain(omega(16), 16)
}

#[test]
fn full_protocol_honest_proof_verifies() {
    let domain = domain16();
    let coeffs = vec![1, 2, 3, 4, 5, 6, 7, 8, 0, 0, 0, 0, 0, 0, 0, 0];
    let evals = evals_of(&coeffs, &domain);
    let num_queries = 5;
    let mut prover_challenger = Transcript::new();
    let proof = fri_prove(evals, domain.clone(), &mut prover_challenger, num_queries);
    let mut verifier_challenger = Transcript::new();
    assert!(fri_verify(&domain, &proof, &mut verifier_challenger, num_queries), "an honestly generated proof must verify against a freshly-seeded transcript");
}

#[test]
fn full_protocol_tampered_query_opening_fails_verification() {
    let domain = domain16();
    let coeffs = vec![2, 0, 1, 3, 0, 0, 0, 0, 0, 0, 0, 0, 0, 0, 0, 0];
    let evals = evals_of(&coeffs, &domain);
    let num_queries = 4;
    let mut prover_challenger = Transcript::new();
    let mut proof = fri_prove(evals, domain.clone(), &mut prover_challenger, num_queries);
    proof.query_proofs[0][0].opening_x.leaf_value = 7777777;
    let mut verifier_challenger = Transcript::new();
    assert!(!fri_verify(&domain, &proof, &mut verifier_challenger, num_queries), "a tampered query opening must cause verification to fail");
}

#[test]
fn full_protocol_wrong_query_indices_fail_verification() {
    let domain = domain16();
    let coeffs = vec![1, 1, 1, 1, 0, 0, 0, 0, 0, 0, 0, 0, 0, 0, 0, 0];
    let evals = evals_of(&coeffs, &domain);
    let num_queries = 4;
    let mut prover_challenger = Transcript::new();
    let mut proof = fri_prove(evals, domain.clone(), &mut prover_challenger, num_queries);
    proof.query_indices[0] = (proof.query_indices[0] + 1) % 8;
    let mut verifier_challenger = Transcript::new();
    assert!(!fri_verify(&domain, &proof, &mut verifier_challenger, num_queries), "substituting a different query index than the transcript-derived one must fail verification");
}

#[test]
fn fri_prove_does_not_panic_and_returns_proof() {
    let n = 1024u32;
    let evals: Vec<u32> = (1..=n).collect();
    let domain: Vec<u32> = (1..=n).map(|i| i * 5 + 1).collect();
    let mut challenger = Transcript::new();
    let proof = fri_prove(evals, domain, &mut challenger, 20);
    assert_eq!(proof.query_indices.len(), 20);
    assert_eq!(proof.commitment.roots.len(), 11);
}

#[test]
fn verifier_rejects_a_proof_without_rounds() {
    let domain = domain16();
    let evals = evals_of(&vec![1, 2], &domain);
    let mut prover_challenger = Transcript::new();
    let mut proof = fri_prove(evals, domain.clone(), &mut prover_challenger, 2);
    proof.commitment.roots.truncate(1);
    let mut verifier_challenger = Transcript::new();
    assert!(!fri_verify(&domain, &proof, &mut verifier_challenger, 2));
}
