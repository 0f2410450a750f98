//! The FRI commit phase: fold the evaluations in half round after round,
//! committing to every round's values, until one value remains.
use vstd::prelude::*;
use crate::field::{P, all_fe};
use crate::fft::is_pow2;
use crate::oracle::log2;
use crate::fri::{fold_step_spec, fold_domain_spec, first_half_nonzero, fri_fold_step, fold_domain};
use crate::merkle::{Digest, MerkleTree, merkle_root_spec};

verus! {

/// The output of the commit phase: one root per round (the first for the
/// unfolded values) and the value everything folds down to.
#[derive(Clone, Debug)]
pub struct FriCommitment {
    pub roots: Vec<Digest>,
    pub final_value: u32,
}

/// The domain after `r` rounds.
pub open spec fn fri_domain_after(domain: Seq<u32>, r: nat) -> Seq<u32>
    decreases r,
{
    if r == 0 {
        domain
    } else {
        fold_domain_spec(fri_domain_after(domain, (r - 1) as nat))
    }
}

/// The values after `r` rounds with challenges `betas`.
pub open spec fn fri_evals_after(evals: Seq<u32>, domain: Seq<u32>, betas: Seq<u32>, r: nat) -> Seq<u32>
    decreases r,
{
    if r == 0 {
        evals
    } else {
        fold_step_spec(
            fri_evals_after(evals, domain, betas, (r - 1) as nat),
            fri_domain_after(domain, (r - 1) as nat),
            betas[r - 1] as int,
        )
    }
}

/// Every round up to `rounds` folds at nonzero points.
pub open spec fn fri_domain_ok(domain: Seq<u32>, rounds: nat) -> bool {
    forall|r: nat| r < rounds ==> first_half_nonzero(#[trigger] fri_domain_after(domain, r))
}

/// The roots of rounds `0 ..= rounds`.
pub open spec fn fri_roots(evals: Seq<u32>, domain: Seq<u32>, betas: Seq<u32>, rounds: nat) -> Seq<Seq<u32>> {
    Seq::new(rounds + 1, |r: int| merkle_root_spec(fri_evals_after(evals, domain, betas, r as nat)))
}

/// The roots of a commitment, as sequences.
pub open spec fn roots_view(roots: Seq<Digest>) -> Seq<Seq<u32>> {
    roots.map_values(|d: Digest| d@)
}

/// `n` halved `r` times.
pub open spec fn halvings(n: nat, r: nat) -> nat
    decreases r,
{
    if r == 0 {
        n
    } else {
        halvings(n / 2, (r - 1) as nat)
    }
}

proof fn lemma_halvings_step(n: nat, r: nat)
    ensures
        halvings(n, r + 1) == halvings(n, r) / 2,
    decreases r,
{
    assert(halvings(n, r + 1) == halvings(n / 2, r));
    if r > 0 {
        lemma_halvings_step(n / 2, (r - 1) as nat);
        assert(halvings(n, r) == halvings(n / 2, (r - 1) as nat));
        assert(((r - 1) as nat) + 1 == r);
    } else {
        assert(halvings(n / 2, 0) == n / 2);
    }
}

/// One more halving halves.
pub proof fn lemma_halvings_step_pub(n: nat, r: nat)
    ensures
        halvings(n, r + 1) == halvings(n, r) / 2,
{
    lemma_halvings_step(n, r);
}

/// Halving a power of two fewer than `log2` times leaves at least two.
pub proof fn lemma_halvings_pow2(n: nat, r: nat)
    requires
        is_pow2(n),
        r <= log2(n),
    ensures
        is_pow2(halvings(n, r)),
        r < log2(n) ==> halvings(n, r) >= 2,
        r == log2(n) ==> halvings(n, r) == 1,
    decreases r,
{
    if r > 0 {
        lemma_halvings_pow2(n / 2, (r - 1) as nat);
    }
}

/// The lengths of the values and of the domain after `r` rounds.
pub proof fn lemma_fri_lengths(evals: Seq<u32>, domain: Seq<u32>, betas: Seq<u32>, r: nat)
    requires
        is_pow2(evals.len()),
        domain.len() == evals.len(),
        r <= log2(evals.len()),
    ensures
        fri_evals_after(evals, domain, betas, r).len() == halvings(evals.len(), r),
        fri_domain_after(domain, r).len() == halvings(evals.len(), r),
        is_pow2(fri_evals_after(evals, domain, betas, r).len()),
        r < log2(evals.len()) ==> fri_evals_after(evals, domain, betas, r).len() >= 2,
        r == log2(evals.len()) ==> fri_evals_after(evals, domain, betas, r).len() == 1,
    decreases r,
{
    lemma_halvings_pow2(evals.len(), r);
    if r > 0 {
        lemma_fri_lengths(evals, domain, betas, (r - 1) as nat);
        lemma_halvings_step(evals.len(), (r - 1) as nat);
    }
}

/// All values and domain points stay field elements.
pub proof fn lemma_fri_all_fe(evals: Seq<u32>, domain: Seq<u32>, betas: Seq<u32>, r: nat)
    requires
        all_fe(evals),
        all_fe(domain),
    ensures
        all_fe(fri_evals_after(evals, domain, betas, r)),
        all_fe(fri_domain_after(domain, r)),
    decreases r,
{
    if r > 0 {
        lemma_fri_all_fe(evals, domain, betas, (r - 1) as nat);
        let e = fri_evals_after(evals, domain, betas, (r - 1) as nat);
        let d = fri_domain_after(domain, (r - 1) as nat);
        assert forall|i: int| 0 <= i < fri_evals_after(evals, domain, betas, r).len() implies #[trigger] fri_evals_after(
            evals,
            domain,
            betas,
            r,
        )[i] < P by {
            crate::field::lemma_mod_range(
                crate::field::fmul(crate::field::fadd(e[i] as int, e[i + e.len() / 2] as int), crate::field::TWO_INV as int)
                    + crate::field::fmul(
                    betas[r - 1] as int,
                    crate::field::fmul(
                        crate::field::fmul(crate::field::fsub(e[i] as int, e[i + e.len() / 2] as int), crate::field::TWO_INV as int),
                        crate::field::finv(d[i] as int),
                    ),
                ),
            );
        }
        assert forall|i: int| 0 <= i < fri_domain_after(domain, r).len() implies #[trigger] fri_domain_after(domain, r)[i] < P by {
            crate::field::lemma_mod_range((d[i] as int) * (d[i] as int));
        }
    }
}

/// Every point of a folded domain is a field element.
pub proof fn lemma_fri_all_fe_domain(domain: Seq<u32>, r: nat)
    requires
        all_fe(domain),
    ensures
        all_fe(fri_domain_after(domain, r)),
    decreases r,
{
    if r > 0 {
        lemma_fri_all_fe_domain(domain, (r - 1) as nat);
        let d = fri_domain_after(domain, (r - 1) as nat);
        assert forall|i: int| 0 <= i < fri_domain_after(domain, r).len() implies #[trigger] fri_domain_after(domain, r)[i] < P by {
            crate::field::lemma_mod_range((d[i] as int) * (d[i] as int));
        }
    }
}

/// Run the commit phase with the challenges `betas`, one per round.
pub fn fri_commit(evals: Vec<u32>, domain: Vec<u32>, betas: &[u32]) -> (c: FriCommitment)
    requires
        is_pow2(evals@.len()),
        domain@.len() == evals@.len(),
        betas@.len() == log2(evals@.len()),
        all_fe(evals@),
        all_fe(domain@),
        all_fe(betas@),
        fri_domain_ok(domain@, log2(evals@.len())),
    ensures
        roots_view(c.roots@) == fri_roots(evals@, domain@, betas@, log2(evals@.len())),
        c.final_value == fri_evals_after(evals@, domain@, betas@, log2(evals@.len()))[0],
        c.final_value < P,
{
    let ghost e0 = evals@;
    let ghost d0 = domain@;
    let ghost rounds = log2(evals@.len());
    let mut current_evals = evals;
    let mut current_domain = domain;
    let mut roots: Vec<Digest> = Vec::new();
    let first = current_evals.clone();
    assert(first@ =~= current_evals@);
    let initial_tree = MerkleTree::build(first);
    roots.push(initial_tree.root());
    let mut r: usize = 0;
    proof {
        lemma_fri_lengths(e0, d0, betas@, 0);
        lemma_fri_all_fe(e0, d0, betas@, 0);
    }
    while r < betas.len()
        invariant
            is_pow2(e0.len()),
            d0.len() == e0.len(),
            betas@.len() == rounds,
            rounds == log2(e0.len()),
            all_fe(e0),
            all_fe(d0),
            all_fe(betas@),
            fri_domain_ok(d0, rounds),
            r <= rounds,
            current_evals@ == fri_evals_after(e0, d0, betas@, r as nat),
            current_domain@ == fri_domain_after(d0, r as nat),
            roots_view(roots@) == fri_roots(e0, d0, betas@, r as nat),
        decreases rounds - r,
    {
        proof {
            lemma_fri_lengths(e0, d0, betas@, r as nat);
            lemma_fri_all_fe(e0, d0, betas@, r as nat);
            assert(first_half_nonzero(fri_domain_after(d0, r as nat)));
        }
        let beta = betas[r];
        current_evals = fri_fold_step(&current_evals, &current_domain, beta);
        current_domain = fold_domain(&current_domain);
        proof {
            lemma_fri_lengths(e0, d0, betas@, (r + 1) as nat);
            lemma_fri_all_fe(e0, d0, betas@, (r + 1) as nat);
        }
        let copy = current_evals.clone();
        assert(copy@ =~= current_evals@);
        let tree = MerkleTree::build(copy);
        let root = tree.root();
        let ghost before = roots@;
        roots.push(root);
        proof {
            assert(current_evals@ == fri_evals_after(e0, d0, betas@, (r + 1) as nat));
            assert(root@ == merkle_root_spec(fri_evals_after(e0, d0, betas@, (r + 1) as nat)));
            assert(roots@ == before.push(root));
            assert(roots_view(roots@) =~= roots_view(before).push(root@));
            assert(roots_view(roots@) =~= fri_roots(e0, d0, betas@, (r + 1) as nat));
        }
        r = r + 1;
    }
    proof {
        lemma_fri_lengths(e0, d0, betas@, rounds);
        lemma_fri_all_fe(e0, d0, betas@, rounds);
    }
    FriCommitment { roots, final_value: current_evals[0] }
}

/// Two digests are equal.
pub fn digest_eq(a: &Digest, b: &Digest) -> (r: bool)
    ensures
        r == (a@ == b@),
{
    let mut i: usize = 0;
    while i < 8
        invariant
            i <= 8,
            forall|k: int| 0 <= k < i ==> a@[k] == b@[k],
        decreases 8 - i,
    {
        if a[i] != b[i] {
            return false;
        }
        i = i + 1;
    }
    assert(a@ =~= b@);
    true
}

/// Two root lists are equal.
pub fn roots_eq(a: &Vec<Digest>, b: &Vec<Digest>) -> (r: bool)
    ensures
        r == (roots_view(a@) == roots_view(b@)),
{
    if a.len() != b.len() {
        assert(roots_view(a@).len() != roots_view(b@).len());
        return false;
    }
    let mut i: usize = 0;
    while i < a.len()
        invariant
            a@.len() == b@.len(),
            i <= a@.len(),
            forall|k: int| 0 <= k < i ==> a@[k]@ == b@[k]@,
        decreases a@.len() - i,
    {
        if !digest_eq(&a[i], &b[i]) {
            assert(roots_view(a@)[i as int] != roots_view(b@)[i as int]);
            return false;
        }
        i = i + 1;
    }
    assert(roots_view(a@) =~= roots_view(b@));
    true
}

/// Recompute the commit phase from the same values, domain and challenges
/// and compare every root and the final value with `claimed`.
pub fn fri_verify_commitment(evals: Vec<u32>, domain: Vec<u32>, betas: &[u32], claimed: &FriCommitment) -> (ok: bool)
    requires
        is_pow2(evals@.len()),
        domain@.len() == evals@.len(),
        betas@.len() == log2(evals@.len()),
        all_fe(evals@),
        all_fe(domain@),
        all_fe(betas@),
        fri_domain_ok(domain@, log2(evals@.len())),
    ensures
        ok == (roots_view(claimed.roots@) == fri_roots(evals@, domain@, betas@, log2(evals@.len()))
            && claimed.final_value == fri_evals_after(evals@, domain@, betas@, log2(evals@.len()))[0]),
{
    let recomputed = fri_commit(evals, domain, betas);
    roots_eq(&recomputed.roots, &claimed.roots) && recomputed.final_value == claimed.final_value
}

} // verus!
