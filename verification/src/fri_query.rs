//! The FRI query phase and the whole protocol driven by a transcript: the
//! prover commits round by round (challenges drawn from the transcript),
//! then samples query indices and opens every round at them; the verifier
//! re-derives the challenges and indices and checks every opening and every
//! fold.
use vstd::prelude::*;
use crate::field::{P, all_fe, fe_add, fe_sub, fe_mul, fe_inv, lemma_two_inv, TWO_INV, fadd, fsub, fmul, finv, modulus, lemma_mod_range, lemma_fe_eq};
use crate::fft::is_pow2;
use crate::oracle::{log2, ilog2, lemma_log2_pow2};
use crate::fri::{fold_value, fold_step_spec, first_half_nonzero, fri_fold_step, fold_domain};
use crate::fri_protocol::{FriCommitment, fri_domain_after, fri_evals_after, fri_domain_ok, roots_view, lemma_fri_lengths, lemma_fri_all_fe};
use crate::merkle::{Digest, MerkleTree, MerkleOpening, verify_opening, merkle_root_spec, merkle_path_spec, merkle_check_spec, path_view, opening_is_honest};
use crate::transcript::{Transcript, transcript_log, duplex16_sample, observe_all};

verus! {

/// The openings that check one round at one query: the current round at
/// `idx` and at `idx + half`, and the next round at `idx`.
#[derive(Clone, Debug)]
pub struct FriQueryRound {
    pub opening_x: MerkleOpening,
    pub opening_neg_x: MerkleOpening,
    pub opening_folded: MerkleOpening,
}

/// A complete proof: the commitment, and for each query index the openings
/// of every round.
#[derive(Clone, Debug)]
pub struct FriProof {
    pub commitment: FriCommitment,
    pub query_proofs: Vec<Vec<FriQueryRound>>,
    pub query_indices: Vec<usize>,
}

/// The honest opening of leaf `index` of a column.
pub open spec fn honest_opening(o: MerkleOpening, leaves: Seq<u32>, index: int) -> bool {
    &&& o.leaf_index == index
    &&& o.leaf_value == leaves[index]
    &&& path_view(o.proof@) == merkle_path_spec(leaves, index as nat)
}

/// The honest openings of a round whose values are `cur` (and `next` after
/// folding) at query index `q`.
pub open spec fn honest_round(round: FriQueryRound, cur: Seq<u32>, next: Seq<u32>, q: int) -> bool {
    let half = cur.len() / 2;
    let idx = q % (half as int);
    &&& honest_opening(round.opening_x, cur, idx)
    &&& honest_opening(round.opening_neg_x, cur, idx + half)
    &&& honest_opening(round.opening_folded, next, idx)
}

/// The openings for one round at query index `query_index`.
pub fn fri_query_round(current_tree: &MerkleTree, next_tree: &MerkleTree, query_index: usize) -> (r: FriQueryRound)
    requires
        current_tree.wf(),
        next_tree.wf(),
        current_tree.contents().len() >= 2,
        next_tree.contents().len() >= current_tree.contents().len() / 2,
    ensures
        honest_round(r, current_tree.contents(), next_tree.contents(), query_index as int),
{
    let half = current_tree.leaf_count() / 2;
    let idx = query_index % half;
    FriQueryRound {
        opening_x: current_tree.open(idx),
        opening_neg_x: current_tree.open(idx + half),
        opening_folded: next_tree.open(idx),
    }
}

/// What checking one round accepts: the three openings verify, and the
/// folded value is the fold of the two values at `x` and `-x`.
pub open spec fn round_accepts(
    root_current: Seq<u32>,
    root_next: Seq<u32>,
    leaf_count: nat,
    x: int,
    beta: int,
    q: FriQueryRound,
) -> bool {
    &&& merkle_check_spec(root_current, leaf_count, q.opening_x.leaf_index as nat, q.opening_x.leaf_value, path_view(q.opening_x.proof@))
    &&& merkle_check_spec(root_current, leaf_count, q.opening_neg_x.leaf_index as nat, q.opening_neg_x.leaf_value, path_view(q.opening_neg_x.proof@))
    &&& merkle_check_spec(root_next, leaf_count / 2, q.opening_folded.leaf_index as nat, q.opening_folded.leaf_value, path_view(q.opening_folded.proof@))
    &&& q.opening_folded.leaf_value == fold_value(q.opening_x.leaf_value as int, q.opening_neg_x.leaf_value as int, x, beta)
}

/// The leaf values of a round's openings are field elements.
pub open spec fn round_values_fe(q: FriQueryRound) -> bool {
    q.opening_x.leaf_value < P && q.opening_neg_x.leaf_value < P && q.opening_folded.leaf_value < P
}

/// The openings `q` of one round are the honest ones, at query index
/// `qidx`, of the committed values `cur` (the roots and counts being theirs)
/// and of `next`, whose entry there is the fold at `x` with `beta`.
pub open spec fn round_is_honest(
    cur: Seq<u32>,
    next: Seq<u32>,
    root_current: Seq<u32>,
    root_next: Seq<u32>,
    leaf_count: nat,
    x: int,
    beta: int,
    q: FriQueryRound,
    qidx: int,
) -> bool {
    let half = leaf_count / 2;
    &&& is_pow2(leaf_count)
    &&& leaf_count >= 2
    &&& cur.len() == leaf_count
    &&& next.len() == half
    &&& root_current == merkle_root_spec(cur)
    &&& root_next == merkle_root_spec(next)
    &&& 0 <= qidx
    &&& honest_round(q, cur, next, qidx)
    &&& next[qidx % (half as int)] == fold_value(
        cur[qidx % (half as int)] as int,
        cur[qidx % (half as int) + half] as int,
        x,
        beta,
    )
}

/// An honest round is accepted: when the next layer is the fold of the
/// current one with challenge `beta` on `domain`, the openings of query
/// `idx` (below half the layer) taken from the two committed layers form
/// an honest round at `x = domain[idx]`, which `verify_fri_query_round`
/// accepts against the two roots.
pub proof fn lemma_honest_round(cur: Seq<u32>, domain: Seq<u32>, beta: int, idx: int, q: FriQueryRound)
    requires
        is_pow2(cur.len()),
        cur.len() >= 2,
        domain.len() == cur.len(),
        0 <= idx < cur.len() / 2,
        honest_round(q, cur, fold_step_spec(cur, domain, beta), idx),
    ensures
        round_is_honest(
            cur,
            fold_step_spec(cur, domain, beta),
            merkle_root_spec(cur),
            merkle_root_spec(fold_step_spec(cur, domain, beta)),
            cur.len(),
            domain[idx] as int,
            beta,
            q,
            idx,
        ),
{
    let half = cur.len() / 2;
    let v = fold_value(cur[idx] as int, cur[idx + half] as int, domain[idx] as int, beta);
    assert(idx % (half as int) == idx) by {
        vstd::arithmetic::div_mod::lemma_small_mod(idx as nat, half as nat);
    }
    assert(0 <= v < modulus()) by {
        lemma_mod_range(fmul(fadd(cur[idx] as int, cur[idx + half] as int), TWO_INV as int)
            + fmul(beta, fmul(fmul(fsub(cur[idx] as int, cur[idx + half] as int), TWO_INV as int), finv(domain[idx] as int))));
    }
    assert(fold_step_spec(cur, domain, beta)[idx] == v as u32);
}

/// The fold binds the challenge: at a nonzero point, two different
/// challenges fold two different values `px != pnx` to different results.
pub proof fn lemma_fold_binds_beta(px: int, pnx: int, x: int, b1: int, b2: int)
    requires
        0 <= px < modulus(),
        0 <= pnx < modulus(),
        px != pnx,
        0 < x < modulus(),
        0 <= b1 < modulus(),
        0 <= b2 < modulus(),
        b1 != b2,
    ensures
        fold_value(px, pnx, x, b1) != fold_value(px, pnx, x, b2),
{
    let m = modulus();
    let a = fmul(fadd(px, pnx), TWO_INV as int);
    let d = fsub(px, pnx);
    let g = fmul(d, TWO_INV as int);
    let f = finv(x);
    let c = fmul(g, f);
    lemma_mod_range(px - pnx);
    if d == 0 {
        assert((px - pnx) % m == 0);
        lemma_fe_eq(px, pnx);
    }
    vstd::arithmetic::div_mod::lemma_small_mod(d as nat, m as nat);
    vstd::arithmetic::div_mod::lemma_small_mod(TWO_INV as nat, m as nat);
    crate::field::lemma_no_zero_divisors(d, TWO_INV as int);
    lemma_mod_range(d * TWO_INV);
    vstd::arithmetic::div_mod::lemma_small_mod(g as nat, m as nat);
    crate::field::lemma_finv_inverse(x);
    if f == 0 {
        assert(x * f == 0);
    }
    vstd::arithmetic::div_mod::lemma_small_mod(f as nat, m as nat);
    crate::field::lemma_no_zero_divisors(g, f);
    lemma_mod_range(g * f);
    vstd::arithmetic::div_mod::lemma_small_mod(c as nat, m as nat);
    if fold_value(px, pnx, x, b1) == fold_value(px, pnx, x, b2) {
        let u = fmul(b1, c);
        let v = fmul(b2, c);
        lemma_mod_range(a + u - m);
        lemma_mod_range(b1 * c);
        lemma_mod_range(b2 * c);
        lemma_mod_range(px + pnx);
        lemma_mod_range(fadd(px, pnx) * TWO_INV);
        assert((a + u) % m == (a + v) % m);
        vstd::arithmetic::div_mod::lemma_mod_equivalence(a + u, a + v, m);
        assert(a + u - (a + v) == u - v);
        lemma_fe_eq(u, v);
        vstd::arithmetic::div_mod::lemma_mod_equivalence(b1 * c, b2 * c, m);
        assert(b1 * c - b2 * c == (b1 - b2) * c) by (nonlinear_arith);
        if (b1 - b2) % m == 0 {
            lemma_fe_eq(b1, b2);
        }
        crate::field::lemma_no_zero_divisors(b1 - b2, c);
    }
}

/// A round accepted with one challenge is refused with any other when the
/// two opened values differ: the folded value pins the challenge down.
pub proof fn lemma_round_binds_beta(
    root_current: Seq<u32>,
    root_next: Seq<u32>,
    leaf_count: nat,
    x: int,
    b1: int,
    b2: int,
    q: FriQueryRound,
)
    requires
        0 < x < P,
        0 <= b1 < P,
        0 <= b2 < P,
        b1 != b2,
        round_values_fe(q),
        q.opening_x.leaf_value != q.opening_neg_x.leaf_value,
    ensures
        !(round_accepts(root_current, root_next, leaf_count, x, b1, q) && round_accepts(
            root_current,
            root_next,
            leaf_count,
            x,
            b2,
            q,
        )),
{
    lemma_fold_binds_beta(
        q.opening_x.leaf_value as int,
        q.opening_neg_x.leaf_value as int,
        x,
        b1,
        b2,
    );
}

/// Half of a power of two of at least two is a power of two.
pub proof fn lemma_pow2_half(n: nat)
    requires
        is_pow2(n),
        n >= 2,
    ensures
        is_pow2(n / 2),
{
}

/// Check one round of one query against the roots of this round (over
/// `leaf_count` leaves) and the next.
pub fn verify_fri_query_round(
    root_current: &Digest,
    root_next: &Digest,
    leaf_count: usize,
    x: u32,
    beta: u32,
    query: &FriQueryRound,
) -> (ok: bool)
    requires
        0 < x < P,
        beta < P,
        round_values_fe(*query),
    ensures
        ok == round_accepts(root_current@, root_next@, leaf_count as nat, x as int, beta as int, *query),
        (exists|cur: Seq<u32>, next: Seq<u32>, qidx: int| #[trigger] round_is_honest(
            cur,
            next,
            root_current@,
            root_next@,
            leaf_count as nat,
            x as int,
            beta as int,
            *query,
            qidx,
        )) ==> ok,
{
    let ghost honest = exists|cur: Seq<u32>, next: Seq<u32>, qidx: int| #[trigger] round_is_honest(
        cur,
        next,
        root_current@,
        root_next@,
        leaf_count as nat,
        x as int,
        beta as int,
        *query,
        qidx,
    );
    proof {
        if honest {
            let (cur, next, qidx) = choose|cur: Seq<u32>, next: Seq<u32>, qidx: int| #[trigger] round_is_honest(
                cur,
                next,
                root_current@,
                root_next@,
                leaf_count as nat,
                x as int,
                beta as int,
                *query,
                qidx,
            );
            let half = (leaf_count / 2) as int;
            let i = qidx % half;
            lemma_pow2_half(leaf_count as nat);
            assert(opening_is_honest(cur, root_current@, leaf_count as nat, i as nat, query.opening_x.leaf_value, path_view(query.opening_x.proof@)));
            assert(opening_is_honest(cur, root_current@, leaf_count as nat, (i + half) as nat, query.opening_neg_x.leaf_value, path_view(query.opening_neg_x.proof@)));
            assert(opening_is_honest(next, root_next@, (leaf_count / 2) as nat, i as nat, query.opening_folded.leaf_value, path_view(query.opening_folded.proof@)));
        }
    }
    if !verify_opening(root_current, leaf_count, &query.opening_x) {
        return false;
    }
    if !verify_opening(root_current, leaf_count, &query.opening_neg_x) {
        return false;
    }
    if !verify_opening(root_next, leaf_count / 2, &query.opening_folded) {
        return false;
    }
    let two_inv = fe_inv(2);
    proof {
        lemma_two_inv();
    }
    let p_x = query.opening_x.leaf_value;
    let p_neg_x = query.opening_neg_x.leaf_value;
    let even_part = fe_mul(fe_add(p_x, p_neg_x), two_inv);
    let odd_part = fe_mul(fe_mul(fe_sub(p_x, p_neg_x), two_inv), fe_inv(x));
    let expected_folded = fe_add(even_part, fe_mul(beta, odd_part));
    query.opening_folded.leaf_value == expected_folded
}

/// The transcript after observing `d`'s elements.
pub open spec fn observe_digest(log: Seq<Option<u32>>, d: Seq<u32>) -> Seq<Option<u32>> {
    observe_all(log, d)
}

/// The transcript of the commit phase after the first root and `r` rounds
/// (each round: a sample, then the next root), the roots being `roots`.
pub open spec fn commit_log(log0: Seq<Option<u32>>, roots: Seq<Seq<u32>>, r: nat) -> Seq<Option<u32>>
    decreases r,
{
    if r == 0 {
        observe_digest(log0, roots[0])
    } else {
        observe_digest(commit_log(log0, roots, (r - 1) as nat).push(None), roots[r as int])
    }
}

/// The challenges drawn during the commit phase with roots `roots`.
pub open spec fn commit_betas(log0: Seq<Option<u32>>, roots: Seq<Seq<u32>>, rounds: nat) -> Seq<u32> {
    Seq::new(rounds, |r: int| duplex16_sample(commit_log(log0, roots, r as nat)))
}

/// `k` samples after `log`.
pub open spec fn after_samples16(log: Seq<Option<u32>>, k: nat) -> Seq<Option<u32>> {
    log + Seq::new(k, |i: int| None::<u32>)
}

/// The prover's challenges: each drawn after observing the roots so far,
/// the roots being those of the values folded with the earlier challenges.
pub open spec fn prover_betas(log0: Seq<Option<u32>>, evals: Seq<u32>, domain: Seq<u32>, r: nat) -> Seq<u32>
    decreases r,
{
    if r == 0 {
        Seq::empty()
    } else {
        let b = prover_betas(log0, evals, domain, (r - 1) as nat);
        b.push(duplex16_sample(commit_log(log0, prover_roots(log0, evals, domain, b, (r - 1) as nat), (r - 1) as nat)))
    }
}

/// The roots of rounds `0 ..= r` for the values folded with `betas`.
pub open spec fn prover_roots(log0: Seq<Option<u32>>, evals: Seq<u32>, domain: Seq<u32>, betas: Seq<u32>, r: nat) -> Seq<Seq<u32>> {
    Seq::new(r + 1, |k: int| merkle_root_spec(fri_evals_after(evals, domain, betas, k as nat)))
}

/// Query `q`'s index: a sample after the commit phase and `q` earlier
/// samples, reduced modulo the number of leaves.
pub open spec fn query_index(log: Seq<Option<u32>>, q: nat, n: nat) -> nat {
    (duplex16_sample(after_samples16(log, q)) as nat) % n
}

/// Every round of one query checks out.
pub open spec fn rounds_ok(domain: Seq<u32>, roots: Seq<Seq<u32>>, betas: Seq<u32>, index: int, rp: Seq<FriQueryRound>) -> bool {
    forall|j: int| 0 <= j < rp.len() ==> round_accepts(
        roots[j],
        roots[j + 1],
        fri_domain_after(domain, j as nat).len(),
        fri_domain_after(domain, j as nat)[index % (fri_domain_after(domain, j as nat).len() / 2) as int] as int,
        betas[j] as int,
        #[trigger] rp[j],
    )
}

/// Query `q` of a proof checks out: its index is the one the transcript
/// gives, and it has one checked opening set per round.
pub open spec fn query_ok(
    domain: Seq<u32>,
    proof: FriProof,
    roots: Seq<Seq<u32>>,
    betas: Seq<u32>,
    log: Seq<Option<u32>>,
    rounds: nat,
    q: int,
) -> bool {
    &&& proof.query_indices@[q] == query_index(log, q as nat, domain.len())
    &&& proof.query_proofs@[q]@.len() == rounds
    &&& rounds_ok(domain, roots, betas, proof.query_indices@[q] as int, proof.query_proofs@[q]@)
}

/// What the verifier accepts.
pub open spec fn fri_accepts(domain: Seq<u32>, proof: FriProof, log0: Seq<Option<u32>>, num_queries: nat) -> bool {
    let roots = roots_view(proof.commitment.roots@);
    let rounds = (roots.len() - 1) as nat;
    &&& roots.len() >= 2
    &&& proof.query_indices@.len() == num_queries
    &&& proof.query_proofs@.len() == num_queries
    &&& forall|q: int| 0 <= q < num_queries ==> #[trigger] query_ok(
        domain,
        proof,
        roots,
        commit_betas(log0, roots, rounds),
        commit_log(log0, roots, rounds),
        rounds,
        q,
    )
}

/// Query positions are bound to the commitments: two proofs with the same
/// Merkle roots that place some query at different positions are not both
/// accepted on the same transcript, so moving a query of an accepted proof
/// makes it rejected.
pub proof fn lemma_fri_query_positions_bound(
    domain: Seq<u32>,
    p1: FriProof,
    p2: FriProof,
    log0: Seq<Option<u32>>,
    num_queries: nat,
    q: int,
)
    requires
        roots_view(p1.commitment.roots@) == roots_view(p2.commitment.roots@),
        0 <= q < num_queries,
        p1.query_indices@.len() == num_queries,
        p2.query_indices@.len() == num_queries,
        p1.query_indices@[q] != p2.query_indices@[q],
    ensures
        !(fri_accepts(domain, p1, log0, num_queries) && fri_accepts(domain, p2, log0, num_queries)),
{
    let roots = roots_view(p1.commitment.roots@);
    let rounds = (roots.len() - 1) as nat;
    if fri_accepts(domain, p1, log0, num_queries) && fri_accepts(domain, p2, log0, num_queries) {
        assert(query_ok(domain, p1, roots, commit_betas(log0, roots, rounds), commit_log(log0, roots, rounds), rounds, q));
        assert(query_ok(domain, p2, roots, commit_betas(log0, roots, rounds), commit_log(log0, roots, rounds), rounds, q));
    }
}

/// The values after `k` rounds depend only on the first `k` challenges.
pub proof fn lemma_evals_prefix(evals: Seq<u32>, domain: Seq<u32>, b1: Seq<u32>, b2: Seq<u32>, k: nat)
    requires
        k <= b1.len(),
        k <= b2.len(),
        forall|i: int| 0 <= i < k ==> b1[i] == b2[i],
    ensures
        fri_evals_after(evals, domain, b1, k) == fri_evals_after(evals, domain, b2, k),
    decreases k,
{
    if k > 0 {
        lemma_evals_prefix(evals, domain, b1, b2, (k - 1) as nat);
    }
}

/// The prover draws `r` challenges.
pub proof fn lemma_prover_betas_len(log0: Seq<Option<u32>>, evals: Seq<u32>, domain: Seq<u32>, r: nat)
    ensures
        prover_betas(log0, evals, domain, r).len() == r,
        forall|k: nat| k <= r ==> #[trigger] prover_betas(log0, evals, domain, k) == prover_betas(log0, evals, domain, r).take(k as int),
    decreases r,
{
    if r > 0 {
        lemma_prover_betas_len(log0, evals, domain, (r - 1) as nat);
        let b = prover_betas(log0, evals, domain, (r - 1) as nat);
        let full = prover_betas(log0, evals, domain, r);
        assert(full == b.push(duplex16_sample(commit_log(log0, prover_roots(log0, evals, domain, b, (r - 1) as nat), (r - 1) as nat))));
        assert forall|k: nat| k <= r implies #[trigger] prover_betas(log0, evals, domain, k) == full.take(k as int) by {
            if k == r {
                assert(full.take(k as int) =~= full);
            } else {
                assert(full.take(k as int) =~= b.take(k as int));
            }
        }
    }
}

/// The commit log for rounds up to `r` depends only on the first `r + 1`
/// roots.
pub proof fn lemma_commit_log_prefix(log0: Seq<Option<u32>>, r1: Seq<Seq<u32>>, r2: Seq<Seq<u32>>, r: nat)
    requires
        r < r1.len(),
        r < r2.len(),
        forall|i: int| 0 <= i <= r ==> r1[i] == r2[i],
    ensures
        commit_log(log0, r1, r) == commit_log(log0, r2, r),
    decreases r,
{
    if r > 0 {
        lemma_commit_log_prefix(log0, r1, r2, (r - 1) as nat);
    }
}

/// The verifier re-derives the prover's challenges from the prover's roots.
pub proof fn lemma_prover_betas_match(log0: Seq<Option<u32>>, evals: Seq<u32>, domain: Seq<u32>, rounds: nat)
    ensures
        commit_betas(
            log0,
            prover_roots(log0, evals, domain, prover_betas(log0, evals, domain, rounds), rounds),
            rounds,
        ) == prover_betas(log0, evals, domain, rounds),
{
    let b = prover_betas(log0, evals, domain, rounds);
    let roots = prover_roots(log0, evals, domain, b, rounds);
    lemma_prover_betas_len(log0, evals, domain, rounds);
    assert forall|r: int| 0 <= r < rounds implies #[trigger] commit_betas(log0, roots, rounds)[r] == b[r] by {
        let br = prover_betas(log0, evals, domain, r as nat);
        let br1 = prover_betas(log0, evals, domain, (r + 1) as nat);
        assert(br1 == b.take(r + 1));
        assert(br == b.take(r));
        let rr = prover_roots(log0, evals, domain, br, r as nat);
        assert(br1 == br.push(duplex16_sample(commit_log(log0, rr, r as nat))));
        assert(b[r] == br1[r]);
        // the roots up to r agree
        assert forall|i: int| 0 <= i <= r implies rr[i] == roots[i] by {
            lemma_evals_prefix(evals, domain, br, b, i as nat);
        }
        lemma_commit_log_prefix(log0, rr, roots, r as nat);
    }
    assert(commit_betas(log0, roots, rounds) =~= b);
}

/// The proof `fri_prove` gives for `evals` on `domain` from the transcript
/// state `log0`.
pub open spec fn fri_honest(evals: Seq<u32>, domain: Seq<u32>, log0: Seq<Option<u32>>, num_queries: nat, proof: FriProof) -> bool {
    let rounds = log2(evals.len());
    let b = prover_betas(log0, evals, domain, rounds);
    let roots = prover_roots(log0, evals, domain, b, rounds);
    let log = commit_log(log0, roots, rounds);
    &&& roots_view(proof.commitment.roots@) == roots
    &&& proof.commitment.final_value == fri_evals_after(evals, domain, b, rounds)[0]
    &&& proof.query_indices@.len() == num_queries
    &&& proof.query_proofs@.len() == num_queries
    &&& forall|q: int| 0 <= q < num_queries ==> {
        &&& #[trigger] proof.query_indices@[q] == query_index(log, q as nat, evals.len())
        &&& proof.query_proofs@[q]@.len() == rounds
        &&& forall|r: int| 0 <= r < rounds ==> honest_round(
            #[trigger] proof.query_proofs@[q]@[r],
            fri_evals_after(evals, domain, b, r as nat),
            fri_evals_after(evals, domain, b, (r + 1) as nat),
            proof.query_indices@[q] as int,
        )
    }
}

/// An honest proof meets the verifier's preconditions, given that its roots
/// are field elements.
proof fn lemma_honest_proof_inputs_ok(evals: Seq<u32>, domain: Seq<u32>, log0: Seq<Option<u32>>, num_queries: nat, proof: FriProof)
    requires
        is_pow2(evals.len()),
        domain.len() == evals.len(),
        all_fe(evals),
        all_fe(domain),
        fri_domain_ok(domain, log2(evals.len())),
        fri_honest(evals, domain, log0, num_queries, proof),
        forall|k: int, i: int| 0 <= k < proof.commitment.roots@.len() && 0 <= i < 8 ==> #[trigger] proof.commitment.roots@[k]@[i] < P,
    ensures
        fri_verify_inputs_ok(domain, proof),
{
    let rounds = log2(evals.len());
    let b = prover_betas(log0, evals, domain, rounds);
    assert(roots_view(proof.commitment.roots@).len() == rounds + 1);
    assert(proof.commitment.roots@.len() == rounds + 1);
    assert forall|r: nat| r < rounds implies #[trigger] fri_domain_after(domain, r).len() >= 2
        && first_half_nonzero(fri_domain_after(domain, r)) by {
        lemma_fri_lengths(evals, domain, b, r);
    }
    assert forall|q: int, r: int| 0 <= q < proof.query_proofs@.len() && 0 <= r < proof.query_proofs@[q]@.len()
        implies round_values_fe(#[trigger] proof.query_proofs@[q]@[r]) by {
        let roots = prover_roots(log0, evals, domain, b, rounds);
        assert(proof.query_indices@[q] == query_index(commit_log(log0, roots, rounds), q as nat, evals.len()));
        assert(proof.query_proofs@[q]@.len() == rounds);
        let cur = fri_evals_after(evals, domain, b, r as nat);
        let next = fri_evals_after(evals, domain, b, (r + 1) as nat);
        lemma_fri_all_fe(evals, domain, b, r as nat);
        lemma_fri_all_fe(evals, domain, b, (r + 1) as nat);
        lemma_fri_lengths(evals, domain, b, r as nat);
        lemma_fri_lengths(evals, domain, b, (r + 1) as nat);
        crate::fri_protocol::lemma_halvings_step_pub(evals.len(), r as nat);
        assert(honest_round(proof.query_proofs@[q]@[r], cur, next, proof.query_indices@[q] as int));
    }
}

/// Run the prover: commit round by round, drawing each round's challenge
/// from the transcript after the roots so far, then draw `num_queries`
/// indices and open every round at each.
pub fn fri_prove(evals: Vec<u32>, domain: Vec<u32>, challenger: &mut Transcript, num_queries: usize) -> (proof: FriProof)
    requires
        is_pow2(evals@.len()),
        domain@.len() == evals@.len(),
        all_fe(evals@),
        all_fe(domain@),
        fri_domain_ok(domain@, log2(evals@.len())),
    ensures
        fri_honest(evals@, domain@, transcript_log(*old(challenger)), num_queries as nat, proof),
        fri_verify_inputs_ok(domain@, proof),
        transcript_log(*final(challenger)) == after_samples16(
            commit_log(
                transcript_log(*old(challenger)),
                prover_roots(
                    transcript_log(*old(challenger)),
                    evals@,
                    domain@,
                    prover_betas(transcript_log(*old(challenger)), evals@, domain@, log2(evals@.len())),
                    log2(evals@.len()),
                ),
                log2(evals@.len()),
            ),
            num_queries as nat,
        ),
{
    let ghost log0 = transcript_log(*challenger);
    let ghost e0 = evals@;
    let ghost d0 = domain@;
    let n = evals.len();
    let rounds = ilog2(n);
    let mut current_evals = evals;
    let mut current_domain = domain;
    let mut roots: Vec<Digest> = Vec::new();
    let mut trees: Vec<MerkleTree> = Vec::new();
    let first = current_evals.clone();
    assert(first@ =~= current_evals@);
    let initial_tree = MerkleTree::build(first);
    let initial_root = initial_tree.root();
    observe_digest_exec(challenger, &initial_root);
    roots.push(initial_root);
    trees.push(initial_tree);
    let ghost mut betas: Seq<u32> = Seq::empty();
    proof {
        lemma_fri_lengths(e0, d0, betas, 0);
        lemma_fri_all_fe(e0, d0, betas, 0);
        assert(roots_view(roots@) =~= prover_roots(log0, e0, d0, betas, 0));
    }
    let mut r: usize = 0;
    while r < rounds
        invariant
            n == e0.len(),
            is_pow2(e0.len()),
            d0.len() == e0.len(),
            rounds == log2(e0.len()),
            all_fe(e0),
            all_fe(d0),
            fri_domain_ok(d0, rounds as nat),
            r <= rounds,
            betas == prover_betas(log0, e0, d0, r as nat),
            betas.len() == r,
            current_evals@ == fri_evals_after(e0, d0, betas, r as nat),
            current_domain@ == fri_domain_after(d0, r as nat),
            roots_view(roots@) == prover_roots(log0, e0, d0, betas, r as nat),
            trees@.len() == r + 1,
            forall|k: int| 0 <= k <= r ==> (#[trigger] trees@[k]).wf() && trees@[k].contents() == fri_evals_after(e0, d0, betas, k as nat),
            transcript_log(*challenger) == commit_log(log0, roots_view(roots@), r as nat),
            forall|k: int, i: int| 0 <= k < roots@.len() && 0 <= i < 8 ==> #[trigger] roots@[k]@[i] < P,
        decreases rounds - r,
    {
        proof {
            lemma_fri_lengths(e0, d0, betas, r as nat);
            lemma_fri_all_fe(e0, d0, betas, r as nat);
            assert(first_half_nonzero(fri_domain_after(d0, r as nat)));
        }
        let beta = challenger.sample();
        let ghost old_betas = betas;
        proof {
            betas = betas.push(beta);
            lemma_prover_betas_len(log0, e0, d0, r as nat);
            assert(betas == prover_betas(log0, e0, d0, (r + 1) as nat));
            lemma_evals_prefix(e0, d0, old_betas, betas, r as nat);
        }
        current_evals = fri_fold_step(&current_evals, &current_domain, beta);
        current_domain = fold_domain(&current_domain);
        proof {
            lemma_fri_lengths(e0, d0, betas, (r + 1) as nat);
            lemma_fri_all_fe(e0, d0, betas, (r + 1) as nat);
        }
        let copy = current_evals.clone();
        assert(copy@ =~= current_evals@);
        let tree = MerkleTree::build(copy);
        let root = tree.root();
        let ghost before = roots@;
        observe_digest_exec(challenger, &root);
        roots.push(root);
        trees.push(tree);
        proof {
            assert forall|k: int| 0 <= k <= r implies #[trigger] fri_evals_after(e0, d0, old_betas, k as nat) == fri_evals_after(e0, d0, betas, k as nat) by {
                lemma_evals_prefix(e0, d0, old_betas, betas, k as nat);
            }
            assert(current_evals@ == fri_evals_after(e0, d0, betas, (r + 1) as nat));
            assert(root@ == merkle_root_spec(fri_evals_after(e0, d0, betas, (r + 1) as nat)));
            assert(roots@ == before.push(root));
            assert(roots_view(roots@) =~= roots_view(before).push(root@));
            assert forall|k: int| 0 <= k < r + 2 implies #[trigger] roots_view(roots@)[k] == prover_roots(log0, e0, d0, betas, (r + 1) as nat)[k] by {
                if k <= r {
                    assert(roots_view(before)[k] == prover_roots(log0, e0, d0, old_betas, r as nat)[k]);
                    assert(fri_evals_after(e0, d0, old_betas, k as nat) == fri_evals_after(e0, d0, betas, k as nat));
                }
            }
            assert(roots_view(roots@) =~= prover_roots(log0, e0, d0, betas, (r + 1) as nat));
            assert forall|k: int| 0 <= k <= r + 1 implies (#[trigger] trees@[k]).wf() && trees@[k].contents() == fri_evals_after(e0, d0, betas, k as nat) by {
                if k <= r {
                    lemma_evals_prefix(e0, d0, old_betas, betas, k as nat);
                }
            }
            lemma_commit_log_prefix(log0, roots_view(before), roots_view(roots@), r as nat);
        }
        r = r + 1;
    }
    proof {
        lemma_fri_lengths(e0, d0, betas, rounds as nat);
    }
    let commitment = FriCommitment { roots, final_value: current_evals[0] };
    let ghost log = transcript_log(*challenger);
    let mut query_indices: Vec<usize> = Vec::new();
    let mut query_proofs: Vec<Vec<FriQueryRound>> = Vec::new();
    let mut q: usize = 0;
    while q < num_queries
        invariant
            n == e0.len(),
            n >= 1,
            is_pow2(e0.len()),
            d0.len() == e0.len(),
            rounds == log2(e0.len()),
            betas == prover_betas(log0, e0, d0, rounds as nat),
            betas.len() == rounds,
            trees@.len() == rounds + 1,
            forall|k: int| 0 <= k <= rounds ==> (#[trigger] trees@[k]).wf() && trees@[k].contents() == fri_evals_after(e0, d0, betas, k as nat),
            q <= num_queries,
            query_indices@.len() == q,
            query_proofs@.len() == q,
            transcript_log(*challenger) == after_samples16(log, q as nat),
            forall|k: int, i: int| 0 <= k < commitment.roots@.len() && 0 <= i < 8 ==> #[trigger] commitment.roots@[k]@[i] < P,
            forall|t: int| 0 <= t < q ==> {
                &&& #[trigger] query_indices@[t] == query_index(log, t as nat, n as nat)
                &&& query_proofs@[t]@.len() == rounds
                &&& forall|k: int| 0 <= k < rounds ==> honest_round(
                    #[trigger] query_proofs@[t]@[k],
                    fri_evals_after(e0, d0, betas, k as nat),
                    fri_evals_after(e0, d0, betas, (k + 1) as nat),
                    query_indices@[t] as int,
                )
            },
        decreases num_queries - q,
    {
        let raw = challenger.sample();
        proof {
            assert(after_samples16(log, (q + 1) as nat) =~= after_samples16(log, q as nat).push(None));
        }
        let index = (raw as usize) % n;
        let mut rounds_for_this_query: Vec<FriQueryRound> = Vec::new();
        let mut k: usize = 0;
        while k < rounds
            invariant
                n == e0.len(),
                is_pow2(e0.len()),
                d0.len() == e0.len(),
                rounds == log2(e0.len()),
                betas.len() == rounds,
                trees@.len() == rounds + 1,
                forall|j: int| 0 <= j <= rounds ==> (#[trigger] trees@[j]).wf() && trees@[j].contents() == fri_evals_after(e0, d0, betas, j as nat),
                k <= rounds,
                rounds_for_this_query@.len() == k,
                forall|j: int| 0 <= j < k ==> honest_round(
                    #[trigger] rounds_for_this_query@[j],
                    fri_evals_after(e0, d0, betas, j as nat),
                    fri_evals_after(e0, d0, betas, (j + 1) as nat),
                    index as int,
                ),
            decreases rounds - k,
        {
            proof {
                lemma_fri_lengths(e0, d0, betas, k as nat);
                lemma_fri_lengths(e0, d0, betas, (k + 1) as nat);
                crate::fri_protocol::lemma_halvings_step_pub(e0.len(), k as nat);
            }
            let round = fri_query_round(&trees[k], &trees[k + 1], index);
            rounds_for_this_query.push(round);
            k = k + 1;
        }
        query_indices.push(index);
        query_proofs.push(rounds_for_this_query);
        q = q + 1;
    }
    let proof = FriProof { commitment, query_proofs, query_indices };
    proof {
        assert(fri_honest(e0, d0, log0, num_queries as nat, proof));
        lemma_honest_proof_inputs_ok(e0, d0, log0, num_queries as nat, proof);
    }
    proof
}

/// What the prover asks of its input, with at least one round to run.
pub open spec fn fri_prover_input_ok(evals: Seq<u32>, domain: Seq<u32>) -> bool {
    &&& is_pow2(evals.len())
    &&& evals.len() >= 2
    &&& domain.len() == evals.len()
    &&& all_fe(evals)
    &&& all_fe(domain)
    &&& fri_domain_ok(domain, log2(evals.len()))
}

/// The values of every round, `0 ..= rounds`.
pub open spec fn honest_layers(evals: Seq<u32>, domain: Seq<u32>, betas: Seq<u32>, rounds: nat) -> Seq<Seq<u32>> {
    Seq::new(rounds + 1, |k: int| fri_evals_after(evals, domain, betas, k as nat))
}

/// Query `q` of a proof has the index the transcript gives, one round per
/// layer, and opens the layers `layers` honestly.
#[verifier::opaque]
pub open spec fn query_is_honest(
    domain: Seq<u32>,
    proof: FriProof,
    roots: Seq<Seq<u32>>,
    betas: Seq<u32>,
    log: Seq<Option<u32>>,
    rounds: nat,
    layers: Seq<Seq<u32>>,
    q: int,
) -> bool {
    &&& proof.query_indices@[q] == query_index(log, q as nat, domain.len())
    &&& proof.query_proofs@[q]@.len() == rounds
    &&& layers_honest(layers, roots, domain, betas, proof.query_indices@[q] as int, proof.query_proofs@[q]@)
}

/// In an honest proof every query opens the honest layers.
proof fn lemma_honest_layers(evals: Seq<u32>, domain: Seq<u32>, log0: Seq<Option<u32>>, num_queries: nat, proof: FriProof, q: int)
    requires
        fri_prover_input_ok(evals, domain),
        fri_honest(evals, domain, log0, num_queries, proof),
        0 <= q < num_queries,
    ensures
        layers_honest(
            honest_layers(evals, domain, prover_betas(log0, evals, domain, log2(evals.len())), log2(evals.len())),
            prover_roots(log0, evals, domain, prover_betas(log0, evals, domain, log2(evals.len())), log2(evals.len())),
            domain,
            prover_betas(log0, evals, domain, log2(evals.len())),
            proof.query_indices@[q] as int,
            proof.query_proofs@[q]@,
        ),
{
    let rounds = log2(evals.len());
    let hb = prover_betas(log0, evals, domain, rounds);
    let layers = honest_layers(evals, domain, hb, rounds);
    let roots = prover_roots(log0, evals, domain, hb, rounds);
    let index = proof.query_indices@[q] as int;
    let rp = proof.query_proofs@[q]@;
    assert(proof.query_indices@[q] == query_index(commit_log(log0, roots, rounds), q as nat, evals.len()));
    assert forall|j: int| 0 <= j < rp.len() implies round_is_honest(
        layers[j],
        layers[j + 1],
        roots[j],
        roots[j + 1],
        fri_domain_after(domain, j as nat).len(),
        fri_domain_after(domain, j as nat)[index % (fri_domain_after(domain, j as nat).len() / 2) as int] as int,
        hb[j] as int,
        #[trigger] rp[j],
        index,
    ) by {
        lemma_fri_lengths(evals, domain, hb, j as nat);
        lemma_fri_lengths(evals, domain, hb, (j + 1) as nat);
        crate::fri_protocol::lemma_halvings_step_pub(evals.len(), j as nat);
        let cur = fri_evals_after(evals, domain, hb, j as nat);
        let dom = fri_domain_after(domain, j as nat);
        let next = fri_evals_after(evals, domain, hb, (j + 1) as nat);
        assert(layers[j] == cur);
        assert(layers[j + 1] == next);
        assert(next == fold_step_spec(cur, dom, hb[j] as int));
        let half = (cur.len() / 2) as int;
        let i = index % half;
        let fv = fold_value(cur[i] as int, cur[i + half] as int, dom[i] as int, hb[j] as int);
        crate::field::lemma_mod_range(
            fmul(fadd(cur[i] as int, cur[i + half] as int), TWO_INV as int) + fmul(
                hb[j] as int,
                fmul(fmul(fsub(cur[i] as int, cur[i + half] as int), TWO_INV as int), finv(dom[i] as int)),
            ),
        );
        assert(next[i] == fv as u32);
        assert(honest_round(rp[j], cur, next, index));
    }
}

/// The verifier's preconditions: the domain and every leaf value are field
/// elements, and every round the proof claims folds a domain of at least
/// two points at nonzero points.
pub open spec fn fri_verify_inputs_ok(domain: Seq<u32>, proof: FriProof) -> bool {
    let rounds = (proof.commitment.roots@.len() - 1) as nat;
    &&& all_fe(domain)
    &&& domain.len() > 0
    &&& forall|r: nat| r < rounds ==> #[trigger] fri_domain_after(domain, r).len() >= 2
        && first_half_nonzero(fri_domain_after(domain, r))
    &&& forall|i: int, j: int| 0 <= i < 8 && 0 <= j < proof.commitment.roots@.len() ==> #[trigger] proof.commitment.roots@[j]@[i] < P
    &&& forall|q: int, r: int| 0 <= q < proof.query_proofs@.len() && 0 <= r < proof.query_proofs@[q]@.len()
        ==> round_values_fe(#[trigger] proof.query_proofs@[q]@[r])
}

/// Run the verifier: re-derive the challenges from the roots and the query
/// indices from the transcript, then check every round of every query.
pub fn fri_verify(domain: &[u32], proof: &FriProof, challenger: &mut Transcript, num_queries: usize) -> (ok: bool)
    requires
        fri_verify_inputs_ok(domain@, *proof),
    ensures
        ok == fri_accepts(domain@, *proof, transcript_log(*old(challenger)), num_queries as nat),
        (exists|evals: Seq<u32>| fri_prover_input_ok(evals, domain@) && #[trigger] fri_honest(
            evals,
            domain@,
            transcript_log(*old(challenger)),
            num_queries as nat,
            *proof,
        )) ==> ok,
{
    let ghost log0 = transcript_log(*old(challenger));
    let ghost roots_v = roots_view(proof.commitment.roots@);
    let ghost honest = exists|evals: Seq<u32>| fri_prover_input_ok(evals, domain@) && #[trigger] fri_honest(
        evals,
        domain@,
        log0,
        num_queries as nat,
        *proof,
    );
    let ghost evals = choose|evals: Seq<u32>| fri_prover_input_ok(evals, domain@) && #[trigger] fri_honest(
        evals,
        domain@,
        log0,
        num_queries as nat,
        *proof,
    );
    let ghost hrounds = log2(evals.len());
    let ghost hb = prover_betas(log0, evals, domain@, hrounds);
    proof {
        if honest {
            lemma_log2_pow2(evals.len());
            if hrounds == 0 {
                vstd::arithmetic::power2::lemma2_to64();
            }
            assert(roots_v == prover_roots(log0, evals, domain@, hb, hrounds));
            lemma_prover_betas_match(log0, evals, domain@, hrounds);
        }
    }
    let n_roots = proof.commitment.roots.len();
    let expected_rounds: usize = if n_roots >= 1 { n_roots - 1 } else { 0 };
    if expected_rounds == 0 {
        return false;
    }
    let ghost rounds: nat = (roots_v.len() - 1) as nat;
    proof {
        assert(roots_v.len() == n_roots);
        assert(rounds == expected_rounds);
        assert forall|j: int| 0 <= j < 8 implies #[trigger] proof.commitment.roots@[0]@[j] < P by {
        }
    }
    observe_digest_exec(challenger, &proof.commitment.roots[0]);
    let mut betas: Vec<u32> = Vec::new();
    let mut r: usize = 0;
    while r < expected_rounds
        invariant
            fri_verify_inputs_ok(domain@, *proof),
            roots_v == roots_view(proof.commitment.roots@),
            n_roots == proof.commitment.roots@.len(),
            expected_rounds == n_roots - 1,
            rounds == expected_rounds,
            r <= expected_rounds,
            betas@.len() == r,
            forall|k: int| 0 <= k < r ==> #[trigger] betas@[k] == commit_betas(log0, roots_v, rounds)[k],
            all_fe(betas@),
            transcript_log(*challenger) == commit_log(log0, roots_v, r as nat),
        decreases expected_rounds - r,
    {
        let beta = challenger.sample();
        betas.push(beta);
        proof {
            assert forall|j: int| 0 <= j < 8 implies #[trigger] proof.commitment.roots@[r + 1]@[j] < P by {
            }
        }
        observe_digest_exec(challenger, &proof.commitment.roots[r + 1]);
        proof {
            assert(roots_v[r + 1] == proof.commitment.roots@[r + 1]@);
        }
        r = r + 1;
    }
    let ghost log = transcript_log(*challenger);
    let initial_leaf_count = domain.len();
    let mut domains: Vec<Vec<u32>> = Vec::new();
    let mut current_domain = copy_slice(domain);
    let c0 = current_domain.clone();
    assert(c0@ =~= current_domain@);
    domains.push(c0);
    let mut r: usize = 0;
    while r < expected_rounds
        invariant
            all_fe(domain@),
            r <= expected_rounds,
            domains@.len() == r + 1,
            current_domain@ == fri_domain_after(domain@, r as nat),
            all_fe(current_domain@),
            forall|k: int| 0 <= k <= r ==> (#[trigger] domains@[k])@ == fri_domain_after(domain@, k as nat),
        decreases expected_rounds - r,
    {
        current_domain = fold_domain(&current_domain);
        let c = current_domain.clone();
        assert(c@ =~= current_domain@);
        domains.push(c);
        r = r + 1;
    }
    if proof.query_indices.len() != num_queries || proof.query_proofs.len() != num_queries {
        return false;
    }
    proof {
        if honest {
            assert forall|t: int| 0 <= t < num_queries implies #[trigger] query_is_honest(
                domain@,
                *proof,
                roots_v,
                commit_betas(log0, roots_v, rounds),
                log,
                rounds,
                honest_layers(evals, domain@, hb, hrounds),
                t,
            ) by {
                lemma_honest_layers(evals, domain@, log0, num_queries as nat, *proof, t);
                reveal(query_is_honest);
            }
        }
    }
    let mut q: usize = 0;
    while q < num_queries
        invariant
            fri_verify_inputs_ok(domain@, *proof),
            log0 == transcript_log(*old(challenger)),
            roots_v == roots_view(proof.commitment.roots@),
            n_roots == proof.commitment.roots@.len(),
            expected_rounds == n_roots - 1,
            expected_rounds >= 1,
            rounds == expected_rounds,
            initial_leaf_count == domain@.len(),
            betas@.len() == rounds,
            forall|k: int| 0 <= k < rounds ==> #[trigger] betas@[k] == commit_betas(log0, roots_v, rounds)[k],
            all_fe(betas@),
            log == commit_log(log0, roots_v, rounds),
            domains@.len() == rounds + 1,
            forall|k: int| 0 <= k <= rounds ==> (#[trigger] domains@[k])@ == fri_domain_after(domain@, k as nat),
            proof.query_indices@.len() == num_queries,
            proof.query_proofs@.len() == num_queries,
            q <= num_queries,
            transcript_log(*challenger) == after_samples16(log, q as nat),
            honest == exists|e: Seq<u32>| fri_prover_input_ok(e, domain@) && #[trigger] fri_honest(
                e,
                domain@,
                log0,
                num_queries as nat,
                *proof,
            ),
            honest ==> forall|t: int| 0 <= t < num_queries ==> #[trigger] query_is_honest(
                domain@,
                *proof,
                roots_v,
                commit_betas(log0, roots_v, rounds),
                log,
                rounds,
                honest_layers(evals, domain@, hb, hrounds),
                t,
            ),
            forall|t: int| 0 <= t < q ==> #[trigger] query_ok(
                domain@,
                *proof,
                roots_v,
                commit_betas(log0, roots_v, rounds),
                log,
                rounds,
                t,
            ),
        decreases num_queries - q,
    {
        let raw = challenger.sample();
        proof {
            assert(after_samples16(log, (q + 1) as nat) =~= after_samples16(log, q as nat).push(None));
        }
        let expected_index = (raw as usize) % initial_leaf_count;
        if proof.query_indices[q] != expected_index {
            proof {
                if honest {
                    reveal(query_is_honest);
                    assert(query_is_honest(domain@, *proof, roots_v, commit_betas(log0, roots_v, rounds), log, rounds, honest_layers(evals, domain@, hb, hrounds), q as int));
                }
                assert(!query_ok(domain@, *proof, roots_v, commit_betas(log0, roots_v, rounds), log, rounds, q as int));
                if fri_accepts(domain@, *proof, log0, num_queries as nat) {
                    lemma_accepts_query(domain@, *proof, log0, num_queries as nat, q as int);
                }
            }
            return false;
        }
        let index = proof.query_indices[q];
        if proof.query_proofs[q].len() != expected_rounds {
            proof {
                if honest {
                    reveal(query_is_honest);
                    assert(query_is_honest(domain@, *proof, roots_v, commit_betas(log0, roots_v, rounds), log, rounds, honest_layers(evals, domain@, hb, hrounds), q as int));
                }
                assert(!query_ok(domain@, *proof, roots_v, commit_betas(log0, roots_v, rounds), log, rounds, q as int));
                if fri_accepts(domain@, *proof, log0, num_queries as nat) {
                    lemma_accepts_query(domain@, *proof, log0, num_queries as nat, q as int);
                }
            }
            return false;
        }
        proof {
            assert forall|j: nat| j < rounds implies #[trigger] fri_domain_after(domain@, j).len() >= 2
                && first_half_nonzero(fri_domain_after(domain@, j)) by {
            }
            assert forall|j: int| 0 <= j < rounds implies round_values_fe(#[trigger] proof.query_proofs@[q as int]@[j]) by {
            }
            assert(roots_v =~= proof.commitment.roots@.map_values(|d: Digest| d@));
        }
        let ok_q = check_query_rounds(
            &proof.commitment.roots,
            &domains,
            &betas,
            index,
            &proof.query_proofs[q],
            Ghost(domain@),
            Ghost(commit_betas(log0, roots_v, rounds)),
            Ghost(honest_layers(evals, domain@, hb, hrounds)),
        );
        if !ok_q {
            proof {
                if honest {
                    reveal(query_is_honest);
                    assert(query_is_honest(domain@, *proof, roots_v, commit_betas(log0, roots_v, rounds), log, rounds, honest_layers(evals, domain@, hb, hrounds), q as int));
                    assert(roots_v == proof.commitment.roots@.map_values(|d: Digest| d@));
                    assert(layers_honest(
                        honest_layers(evals, domain@, hb, hrounds),
                        proof.commitment.roots@.map_values(|d: Digest| d@),
                        domain@,
                        commit_betas(log0, roots_v, rounds),
                        index as int,
                        proof.query_proofs@[q as int]@,
                    ));
                }
                assert(!query_ok(domain@, *proof, roots_v, commit_betas(log0, roots_v, rounds), log, rounds, q as int));
                if fri_accepts(domain@, *proof, log0, num_queries as nat) {
                    lemma_accepts_query(domain@, *proof, log0, num_queries as nat, q as int);
                }
            }
            return false;
        }
        proof {
            assert(query_ok(domain@, *proof, roots_v, commit_betas(log0, roots_v, rounds), log, rounds, q as int));
        }
        q = q + 1;
    }
    true
}

/// Every round of one query opens, honestly, the layers `layers` (each
/// the fold of the one before at the query's point) under the roots.
pub open spec fn layers_honest(
    layers: Seq<Seq<u32>>,
    roots: Seq<Seq<u32>>,
    domain: Seq<u32>,
    bs: Seq<u32>,
    index: int,
    rp: Seq<FriQueryRound>,
) -> bool {
    forall|j: int| 0 <= j < rp.len() ==> round_is_honest(
        layers[j],
        layers[j + 1],
        roots[j],
        roots[j + 1],
        fri_domain_after(domain, j as nat).len(),
        fri_domain_after(domain, j as nat)[index % (fri_domain_after(domain, j as nat).len() / 2) as int] as int,
        bs[j] as int,
        #[trigger] rp[j],
        index,
    )
}

/// Check every round of one query.
fn check_query_rounds(
    roots: &Vec<Digest>,
    domains: &Vec<Vec<u32>>,
    betas: &Vec<u32>,
    index: usize,
    rounds_proofs: &Vec<FriQueryRound>,
    Ghost(domain): Ghost<Seq<u32>>,
    Ghost(bs): Ghost<Seq<u32>>,
    Ghost(layers): Ghost<Seq<Seq<u32>>>,
) -> (ok: bool)
    requires
        roots@.len() >= 2,
        rounds_proofs@.len() == roots@.len() - 1,
        domains@.len() == roots@.len(),
        betas@.len() == roots@.len() - 1,
        all_fe(domain),
        all_fe(betas@),
        forall|j: int| 0 <= j < betas@.len() ==> #[trigger] betas@[j] == bs[j],
        forall|j: int| 0 <= j < domains@.len() ==> (#[trigger] domains@[j])@ == fri_domain_after(domain, j as nat),
        forall|j: nat| j < roots@.len() - 1 ==> #[trigger] fri_domain_after(domain, j).len() >= 2
            && first_half_nonzero(fri_domain_after(domain, j)),
        forall|j: int| 0 <= j < rounds_proofs@.len() ==> round_values_fe(#[trigger] rounds_proofs@[j]),
    ensures
        ok == rounds_ok(domain, roots@.map_values(|d: Digest| d@), bs, index as int, rounds_proofs@),
        layers_honest(layers, roots@.map_values(|d: Digest| d@), domain, bs, index as int, rounds_proofs@) ==> ok,
{
    let rounds = rounds_proofs.len();
    let mut k: usize = 0;
    while k < rounds
        invariant
            rounds == rounds_proofs@.len(),
            roots@.len() == rounds + 1,
            domains@.len() == rounds + 1,
            betas@.len() == rounds,
            all_fe(domain),
            all_fe(betas@),
            forall|j: int| 0 <= j < betas@.len() ==> #[trigger] betas@[j] == bs[j],
            forall|j: int| 0 <= j < domains@.len() ==> (#[trigger] domains@[j])@ == fri_domain_after(domain, j as nat),
            forall|j: nat| j < rounds ==> #[trigger] fri_domain_after(domain, j).len() >= 2
                && first_half_nonzero(fri_domain_after(domain, j)),
            forall|j: int| 0 <= j < rounds ==> round_values_fe(#[trigger] rounds_proofs@[j]),
            k <= rounds,
            forall|j: int| 0 <= j < k ==> round_accepts(
                roots@[j]@,
                roots@[j + 1]@,
                fri_domain_after(domain, j as nat).len(),
                fri_domain_after(domain, j as nat)[index as int % (fri_domain_after(domain, j as nat).len() / 2) as int] as int,
                bs[j] as int,
                #[trigger] rounds_proofs@[j],
            ),
        decreases rounds - k,
    {
        let dom = &domains[k];
        proof {
            assert(dom@ == fri_domain_after(domain, k as nat));
            assert(fri_domain_after(domain, k as nat).len() >= 2 && first_half_nonzero(fri_domain_after(domain, k as nat)));
            crate::fri_protocol::lemma_fri_all_fe_domain(domain, k as nat);
            assert(round_values_fe(rounds_proofs@[k as int]));
        }
        let half = dom.len() / 2;
        let x = dom[index % half];
        let beta = betas[k];
        let ok_k = verify_fri_query_round(&roots[k], &roots[k + 1], dom.len(), x, beta, &rounds_proofs[k]);
        if !ok_k {
            proof {
                let rv = roots@.map_values(|d: Digest| d@);
                if layers_honest(layers, rv, domain, bs, index as int, rounds_proofs@) {
                    assert(rv[k as int] == roots@[k as int]@);
                    assert(rv[k + 1] == roots@[k + 1]@);
                    assert(round_is_honest(
                        layers[k as int],
                        layers[k + 1],
                        roots@[k as int]@,
                        roots@[k + 1]@,
                        dom@.len() as nat,
                        x as int,
                        beta as int,
                        rounds_proofs@[k as int],
                        index as int,
                    ));
                }
            }
            return false;
        }
        k = k + 1;
    }
    true
}

/// Acceptance covers each query.
proof fn lemma_accepts_query(domain: Seq<u32>, proof: FriProof, log0: Seq<Option<u32>>, num_queries: nat, q: int)
    requires
        fri_accepts(domain, proof, log0, num_queries),
        0 <= q < num_queries,
    ensures
        query_ok(
            domain,
            proof,
            roots_view(proof.commitment.roots@),
            commit_betas(log0, roots_view(proof.commitment.roots@), (roots_view(proof.commitment.roots@).len() - 1) as nat),
            commit_log(log0, roots_view(proof.commitment.roots@), (roots_view(proof.commitment.roots@).len() - 1) as nat),
            (roots_view(proof.commitment.roots@).len() - 1) as nat,
            q,
        ),
{
}

/// A copy of a slice.
pub(crate) fn copy_slice(s: &[u32]) -> (v: Vec<u32>)
    ensures
        v@ == s@,
{
    let mut v: Vec<u32> = Vec::new();
    let mut i: usize = 0;
    while i < s.len()
        invariant
            i <= s@.len(),
            v@ == s@.take(i as int),
        decreases s@.len() - i,
    {
        v.push(s[i]);
        assert(s@.take(i as int + 1) =~= s@.take(i as int).push(s@[i as int]));
        i = i + 1;
    }
    assert(s@.take(s@.len() as int) =~= s@);
    v
}

/// Observe the eight elements of a digest.
fn observe_digest_exec(challenger: &mut Transcript, d: &Digest)
    requires
        forall|i: int| 0 <= i < 8 ==> #[trigger] d@[i] < P,
    ensures
        transcript_log(*final(challenger)) == observe_digest(transcript_log(*old(challenger)), d@),
{
    let ghost log0 = transcript_log(*challenger);
    let mut i: usize = 0;
    while i < 8
        invariant
            forall|k: int| 0 <= k < 8 ==> #[trigger] d@[k] < P,
            i <= 8,
            transcript_log(*challenger) == observe_all(log0, d@.take(i as int)),
        decreases 8 - i,
    {
        challenger.observe(d[i]);
        proof {
            assert(d@.take(i as int + 1) =~= d@.take(i as int).push(d@[i as int]));
            assert(observe_all(log0, d@.take(i as int + 1)) =~= observe_all(log0, d@.take(i as int)).push(Some(d@[i as int])));
        }
        i = i + 1;
    }
    assert(d@.take(8) =~= d@);
}


} // verus!

