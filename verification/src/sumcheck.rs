//! The sumcheck protocol over a multilinear oracle: each round the prover
//! sends `g(0), g(1)`, the sums of the oracle over the remaining hypercube
//! with the next coordinate fixed; the verifier checks `g(0) + g(1)`
//! against its running claim, draws a challenge `r` and continues with
//! `g(r)`; at the end it checks the claim against the oracle itself.
use vstd::prelude::*;
use vstd::arithmetic::power2::pow2;
use crate::field::{P, modulus, all_fe, fadd, fsub, fmul, fe_add, fe_sub, fe_mul, fe_from_u64, lemma_mod_range};
use crate::oracle::{MleOracle, log2};
use crate::folded::{bound_point, bound_point_exec, pow2_usize, FoldedOracle, FoldedOracleBuilder, fold_table, views};

use crate::transcript::{Transcript, transcript_log, duplex16_sample, observe_all};
use crate::multilinear::{line_at, lemma_mle_affine};
use crate::oracle::{shifted, bit, cube_point, mle};
use crate::algebra::{cong, lemma_cong_mod, lemma_cong_add, lemma_cong_sub, lemma_cong_mul, lemma_cong_small_eq};

verus! {

/// A claim that an oracle of `n_vars` variables sums to `claimed_sum`.
#[derive(Clone, Copy, Debug)]
pub struct SumcheckClaim {
    pub claimed_sum: u32,
    pub n_vars: usize,
}

/// A sumcheck proof: the claimed total over the hypercube and one
/// `(g(0), g(1))` pair per variable.
#[derive(Clone, Debug)]
pub struct SumcheckProof {
    pub claimed_sum: u32,
    pub rounds: Vec<(u32, u32)>,
}

/// The sum, in the field, of the oracle at `pre` followed by the first `t`
/// points of the hypercube of dimension `k`.
pub open spec fn cube_sum<O: MleOracle>(o: O, pre: Seq<u32>, k: nat, t: nat) -> int
    decreases t,
{
    if t == 0 {
        0
    } else {
        fadd(cube_sum(o, pre, k, (t - 1) as nat), o.spec_eval(bound_point(pre, (t - 1) as nat, k)))
    }
}

/// The round polynomial's value at `bit`: the sum over the remaining
/// hypercube with the next coordinate fixed to `bit`.
pub open spec fn round_value<O: MleOracle>(o: O, prefix: Seq<u32>, bit: u32) -> int {
    let remaining = (o.spec_n_vars() - prefix.len()) as nat;
    cube_sum(o, prefix.push(bit), (remaining - 1) as nat, pow2((remaining - 1) as nat))
}

proof fn lemma_cube_sum_range<O: MleOracle>(o: O, pre: Seq<u32>, k: nat, t: nat)
    ensures
        0 <= cube_sum(o, pre, k, t) < modulus(),
    decreases t,
{
    if t > 0 {
        lemma_mod_range(cube_sum(o, pre, k, (t - 1) as nat) + o.spec_eval(bound_point(pre, (t - 1) as nat, k)));
    }
}

/// The sum over the hypercube of dimension `k` of the oracle at `pre`
/// followed by each Boolean point.
fn sum_over_cube<O: MleOracle>(oracle: &O, pre: &Vec<u32>, k: usize) -> (s: u32)
    requires
        oracle.oracle_wf(),
        pre@.len() + k == oracle.spec_n_vars(),
        all_fe(pre@),
        pow2(k as nat) <= usize::MAX,
    ensures
        s == cube_sum(*oracle, pre@, k as nat, pow2(k as nat)),
        s < P,
{
    let size = pow2_usize(k);
    let mut acc: u32 = 0;
    let mut idx: usize = 0;
    while idx < size
        invariant
            oracle.oracle_wf(),
            pre@.len() + k == oracle.spec_n_vars(),
            all_fe(pre@),
            size == pow2(k as nat),
            idx <= size,
            acc < P,
            acc == cube_sum(*oracle, pre@, k as nat, idx as nat),
        decreases size - idx,
    {
        let full = bound_point_exec(pre, idx, k);
        let v = oracle.eval(&full);
        acc = fe_add(acc, v);
        idx = idx + 1;
    }
    acc
}

/// One round of sumcheck: the round polynomial at 0 and at 1.
pub fn sumcheck_round<O: MleOracle>(oracle: &O, prefix: &Vec<u32>) -> (g: [u32; 2])
    requires
        oracle.oracle_wf(),
        prefix@.len() < oracle.spec_n_vars(),
        all_fe(prefix@),
        pow2((oracle.spec_n_vars() - prefix@.len() - 1) as nat) <= usize::MAX,
    ensures
        g[0] == round_value(*oracle, prefix@, 0),
        g[1] == round_value(*oracle, prefix@, 1),
        g[0] < P,
        g[1] < P,
{
    let remaining = oracle.n_vars() - prefix.len();
    let mut pre0 = prefix.clone();
    assert(pre0@ =~= prefix@);
    pre0.push(0);
    let mut pre1 = prefix.clone();
    assert(pre1@ =~= prefix@);
    pre1.push(1);
    let s0 = sum_over_cube(oracle, &pre0, remaining - 1);
    let s1 = sum_over_cube(oracle, &pre1, remaining - 1);
    [s0, s1]
}

/// The prover's message for the next round: the round polynomial at 0 and
/// at 1.
pub fn prover_round<O: MleOracle>(oracle: &O, prefix: &Vec<u32>) -> (g: [u32; 2])
    requires
        oracle.oracle_wf(),
        prefix@.len() < oracle.spec_n_vars(),
        all_fe(prefix@),
        pow2((oracle.spec_n_vars() - prefix@.len() - 1) as nat) <= usize::MAX,
    ensures
        g[0] == round_value(*oracle, prefix@, 0),
        g[1] == round_value(*oracle, prefix@, 1),
        g[0] < P,
        g[1] < P,
{
    sumcheck_round(oracle, prefix)
}

/// The transcript after the first `i` rounds of `rounds`: each round
/// observes `g(0)` and `g(1)` and samples a challenge.
pub open spec fn sumcheck_log(log0: Seq<Option<u32>>, rounds: Seq<(u32, u32)>, i: nat) -> Seq<Option<u32>>
    decreases i,
{
    if i == 0 {
        log0
    } else {
        sumcheck_log(log0, rounds, (i - 1) as nat).push(Some(rounds[i - 1].0)).push(Some(rounds[i - 1].1)).push(None)
    }
}

/// The challenge of round `i`.
pub open spec fn sumcheck_challenge(log0: Seq<Option<u32>>, rounds: Seq<(u32, u32)>, i: nat) -> u32 {
    duplex16_sample(sumcheck_log(log0, rounds, i).push(Some(rounds[i as int].0)).push(Some(rounds[i as int].1)))
}

/// The challenges of the first `i` rounds.
pub open spec fn sumcheck_challenges(log0: Seq<Option<u32>>, rounds: Seq<(u32, u32)>, i: nat) -> Seq<u32> {
    Seq::new(i, |k: int| sumcheck_challenge(log0, rounds, k as nat))
}

/// The running claim after `i` rounds.
pub open spec fn running_claim(claimed_sum: u32, log0: Seq<Option<u32>>, rounds: Seq<(u32, u32)>, i: nat) -> int
    decreases i,
{
    if i == 0 {
        claimed_sum as int
    } else {
        line_at(
            rounds[i - 1].0 as int,
            rounds[i - 1].1 as int,
            sumcheck_challenge(log0, rounds, (i - 1) as nat) as int,
        )
    }
}

/// Every round `i` has `g(0) + g(1)` equal to the running claim.
pub open spec fn rounds_consistent(claimed_sum: u32, log0: Seq<Option<u32>>, rounds: Seq<(u32, u32)>) -> bool {
    forall|i: int| 0 <= i < rounds.len() ==> fadd(#[trigger] rounds[i].0 as int, rounds[i].1 as int)
        == running_claim(claimed_sum, log0, rounds, i as nat)
}

/// What the verifier accepts: consistent rounds, and a final claim equal to
/// the oracle at the challenges.
pub open spec fn sumcheck_accepts<O: MleOracle>(proof: SumcheckProof, log0: Seq<Option<u32>>, o: O) -> bool {
    &&& rounds_consistent(proof.claimed_sum, log0, proof.rounds@)
    &&& running_claim(proof.claimed_sum, log0, proof.rounds@, proof.rounds@.len()) == o.spec_eval(
        sumcheck_challenges(log0, proof.rounds@, proof.rounds@.len()),
    )
}

/// The entries of a proof are field elements.
pub open spec fn proof_fe(proof: SumcheckProof) -> bool {
    &&& proof.claimed_sum < P
    &&& forall|i: int| 0 <= i < proof.rounds@.len() ==> (#[trigger] proof.rounds@[i]).0 < P && proof.rounds@[i].1 < P
}

/// Check a sumcheck proof against the transcript and the oracle.
pub fn sumcheck_verify<O: MleOracle>(proof: &SumcheckProof, challenger: &mut Transcript, oracle: &O) -> (ok: bool)
    requires
        oracle.oracle_wf(),
        proof.rounds@.len() == oracle.spec_n_vars(),
        proof_fe(*proof),
    ensures
        ok == sumcheck_accepts(*proof, transcript_log(*old(challenger)), *oracle),
        ok ==> transcript_log(*final(challenger)) == sumcheck_log(transcript_log(*old(challenger)), proof.rounds@, proof.rounds@.len()),
{
    let ghost log0 = transcript_log(*old(challenger));
    let mut running = proof.claimed_sum;
    let mut challenges: Vec<u32> = Vec::new();
    let mut i: usize = 0;
    while i < proof.rounds.len()
        invariant
            log0 == transcript_log(*old(challenger)),
            proof_fe(*proof),
            i <= proof.rounds@.len(),
            running < P,
            running == running_claim(proof.claimed_sum, log0, proof.rounds@, i as nat),
            challenges@ == sumcheck_challenges(log0, proof.rounds@, i as nat),
            all_fe(challenges@),
            transcript_log(*challenger) == sumcheck_log(log0, proof.rounds@, i as nat),
            forall|k: int| 0 <= k < i ==> fadd(#[trigger] proof.rounds@[k].0 as int, proof.rounds@[k].1 as int)
                == running_claim(proof.claimed_sum, log0, proof.rounds@, k as nat),
        decreases proof.rounds@.len() - i,
    {
        let (g0, g1) = proof.rounds[i];
        if fe_add(g0, g1) != running {
            return false;
        }
        challenger.observe(g0);
        challenger.observe(g1);
        let r = challenger.sample();
        running = fe_add(g0, fe_mul(r, fe_sub(g1, g0)));
        challenges.push(r);
        proof {
            assert(challenges@ =~= sumcheck_challenges(log0, proof.rounds@, (i + 1) as nat));
        }
        i = i + 1;
    }
    let oracle_eval = oracle.eval(&challenges);
    running == oracle_eval
}

/// The sum of the oracle over its whole hypercube.
pub open spec fn total_sum<O: MleOracle>(o: O) -> int {
    cube_sum(o, Seq::empty(), o.spec_n_vars(), pow2(o.spec_n_vars()))
}

/// The columns as field elements.
pub open spec fn reduce_all(v: Seq<u32>) -> Seq<u32> {
    v.map_values(|x: u32| ((x as int) % modulus()) as u32)
}

/// Reduce each entry into the field.
fn reduce_column(v: &Vec<u32>) -> (r: Vec<u32>)
    ensures
        r@ == reduce_all(v@),
        all_fe(r@),
{
    let mut r: Vec<u32> = Vec::new();
    let mut i: usize = 0;
    while i < v.len()
        invariant
            i <= v@.len(),
            r@.len() == i,
            all_fe(r@),
            forall|k: int| 0 <= k < i ==> #[trigger] r@[k] == ((v@[k] as int) % modulus()) as u32,
        decreases v@.len() - i,
    {
        r.push(fe_from_u64(v[i] as u64));
        i = i + 1;
    }
    assert(r@ =~= reduce_all(v@));
    r
}

/// The smaller of two lengths.
pub open spec fn min_len(a: nat, b: nat) -> nat {
    if a <= b {
        a
    } else {
        b
    }
}

proof fn lemma_pow2_log2_le(n: nat)
    requires
        n >= 1,
    ensures
        pow2(log2(n)) <= n,
    decreases n,
{
    if n > 1 {
        lemma_pow2_log2_le(n / 2);
        vstd::arithmetic::power2::lemma_pow2_unfold(log2(n));
    } else {
        vstd::arithmetic::power2::lemma2_to64();
    }
}

/// The base-2 logarithm of `n`, rounded down.
fn floor_log2(n: usize) -> (k: usize)
    requires
        n >= 1,
    ensures
        k == log2(n as nat),
        pow2(k as nat) <= n,
{
    let mut t = n;
    let mut k: usize = 0;
    while t > 1
        invariant
            t >= 1,
            k + log2(t as nat) == log2(n as nat),
            k <= n - t,
        decreases t,
    {
        t = t / 2;
        k = k + 1;
    }
    proof {
        lemma_pow2_log2_le(n as nat);
    }
    k
}

/// The honest prover for the fold of two columns with challenge `alpha`:
/// absorb both columns, fold them, claim the sum over the hypercube, and
/// run one round per variable, each challenge drawn from the transcript.
pub fn prove_sumcheck(col0: &Vec<u32>, col1: &Vec<u32>, alpha: u32, challenger: &mut Transcript) -> (r: (SumcheckProof, FoldedOracle))
    requires
        col0@.len() >= 1,
        col1@.len() <= col0@.len(),
    ensures
        r.1.wf(),
        r.1.n_vars == log2(col0@.len()),
        r.1.values@ == fold_table(
            seq![
                reduce_all(col0@).take(pow2(log2(col0@.len())) as int),
                reduce_all(col1@).take(min_len(col1@.len(), pow2(log2(col0@.len()))) as int),
            ],
            (alpha as int) % modulus(),
            2,
            pow2(log2(col0@.len())),
        ),
        r.0.claimed_sum == total_sum(r.1),
        r.0.rounds@.len() == r.1.n_vars,
        proof_fe(r.0),
        forall|i: int| 0 <= i < r.0.rounds@.len() ==> {
            &&& (#[trigger] r.0.rounds@[i]).0 == round_value(r.1, sumcheck_challenges(observe_all(observe_all(transcript_log(*old(challenger)), reduce_all(col0@)), reduce_all(col1@)), r.0.rounds@, i as nat), 0)
            &&& r.0.rounds@[i].1 == round_value(r.1, sumcheck_challenges(observe_all(observe_all(transcript_log(*old(challenger)), reduce_all(col0@)), reduce_all(col1@)), r.0.rounds@, i as nat), 1)
        },
        transcript_log(*final(challenger)) == sumcheck_log(
            observe_all(observe_all(transcript_log(*old(challenger)), reduce_all(col0@)), reduce_all(col1@)),
            r.0.rounds@,
            r.0.rounds@.len(),
        ),
        sumcheck_accepts(r.0, observe_all(observe_all(transcript_log(*old(challenger)), reduce_all(col0@)), reduce_all(col1@)), r.1),
{
    let n_vars = floor_log2(col0.len());
    let m = pow2_usize(n_vars);
    let c0 = reduce_column(col0);
    let c1 = reduce_column(col1);
    let a = fe_from_u64(alpha as u64);
    challenger.observe_slice(c0.as_slice());
    challenger.observe_slice(c1.as_slice());
    let ghost log1 = transcript_log(*challenger);
    // the extension over `n_vars` variables reads the first `2^n_vars` entries
    let mut t0 = c0.clone();
    t0.truncate(m);
    let mut t1 = c1.clone();
    t1.truncate(m);
    proof {
        assert(t0@ =~= reduce_all(col0@).take(m as int));
        assert(t1@ =~= reduce_all(col1@).take(min_len(col1@.len(), m as nat) as int));
    }
    let mut cols: Vec<Vec<u32>> = Vec::new();
    cols.push(t0);
    cols.push(t1);
    proof {
        assert(views(cols@) =~= seq![
            reduce_all(col0@).take(m as int),
            reduce_all(col1@).take(min_len(col1@.len(), m as nat) as int),
        ]);
    }
    let folded = FoldedOracleBuilder::new(cols, n_vars).absorb_challenge(a).build();
    proof {
        assert(folded.values@.len() == m);
    }
    let ghost nv = n_vars as nat;
    let len = folded.values.len();
    proof {
        assert(pow2(nv) == len);
    }
    let empty: Vec<u32> = Vec::new();
    let claimed_sum = sum_over_cube(&folded, &empty, n_vars);
    let mut prefix: Vec<u32> = Vec::new();
    let mut rounds: Vec<(u32, u32)> = Vec::new();
    let mut i: usize = 0;
    while i < n_vars
        invariant
            folded.wf(),
            folded.n_vars == n_vars,
            pow2(n_vars as nat) == len,
            len == folded.values@.len(),
            i <= n_vars,
            rounds@.len() == i,
            prefix@ == sumcheck_challenges(log1, rounds@, i as nat),
            all_fe(prefix@),
            transcript_log(*challenger) == sumcheck_log(log1, rounds@, i as nat),
            forall|k: int| 0 <= k < i ==> (#[trigger] rounds@[k]).0 < P && rounds@[k].1 < P,
            forall|k: int| 0 <= k < i ==> {
                &&& (#[trigger] rounds@[k]).0 == round_value(folded, sumcheck_challenges(log1, rounds@, k as nat), 0)
                &&& rounds@[k].1 == round_value(folded, sumcheck_challenges(log1, rounds@, k as nat), 1)
            },
        decreases n_vars - i,
    {
        proof {
            if n_vars - i - 1 < n_vars {
                vstd::arithmetic::power2::lemma_pow2_strictly_increases((n_vars - i - 1) as nat, n_vars as nat);
            }
        }
        let g = prover_round(&folded, &prefix);
        let g0 = g[0];
        let g1 = g[1];
        challenger.observe(g0);
        challenger.observe(g1);
        let r = challenger.sample();
        let ghost old_rounds = rounds@;
        rounds.push((g0, g1));
        prefix.push(r);
        proof {
            assert forall|k: nat| k <= i implies #[trigger] sumcheck_log(log1, rounds@, k) == sumcheck_log(log1, old_rounds, k) by {
                lemma_sumcheck_log_prefix(log1, rounds@, old_rounds, k);
            }
            assert forall|k: int| 0 <= k <= i implies #[trigger] sumcheck_challenges(log1, rounds@, k as nat) == sumcheck_challenges(log1, old_rounds, k as nat) by {
                assert(sumcheck_challenges(log1, rounds@, k as nat) =~= sumcheck_challenges(log1, old_rounds, k as nat)) by {
                    assert forall|j: int| 0 <= j < k implies #[trigger] sumcheck_challenge(log1, rounds@, j as nat) == sumcheck_challenge(log1, old_rounds, j as nat) by {
                        lemma_sumcheck_log_prefix(log1, rounds@, old_rounds, j as nat);
                    }
                }
            }
            assert(prefix@ =~= sumcheck_challenges(log1, rounds@, (i + 1) as nat));
            lemma_sumcheck_log_prefix(log1, rounds@, old_rounds, i as nat);
            assert(rounds@[i as int] == (g0, g1));
            assert(sumcheck_log(log1, rounds@, (i + 1) as nat) == sumcheck_log(log1, rounds@, i as nat).push(Some(g0)).push(Some(g1)).push(None));
        }
        i = i + 1;
    }
    let proof = SumcheckProof { claimed_sum, rounds };
    proof {
        lemma_sumcheck_complete(folded, proof, log1);
    }
    (proof, folded)
}

proof fn lemma_sumcheck_log_prefix(log0: Seq<Option<u32>>, a: Seq<(u32, u32)>, b: Seq<(u32, u32)>, k: nat)
    requires
        k <= a.len(),
        k <= b.len(),
        forall|j: int| 0 <= j < k ==> a[j] == b[j],
    ensures
        sumcheck_log(log0, a, k) == sumcheck_log(log0, b, k),
        k < a.len() && k < b.len() && a[k as int] == b[k as int] ==> sumcheck_challenge(log0, a, k) == sumcheck_challenge(log0, b, k),
    decreases k,
{
    if k > 0 {
        lemma_sumcheck_log_prefix(log0, a, b, (k - 1) as nat);
    }
}


proof fn lemma_shifted_succ(x: nat, i: nat)
    ensures
        shifted(x, i + 1) == shifted(x / 2, i),
    decreases i,
{
    assert(shifted(x, i + 1) == shifted(x, i) / 2);
    if i > 0 {
        lemma_shifted_succ(x, (i - 1) as nat);
        assert(shifted(x / 2, i) == shifted(x / 2, (i - 1) as nat) / 2);
    } else {
        assert(shifted(x, 0) == x);
        assert(shifted(x / 2, 0) == x / 2);
    }
}

/// The Boolean point `2j + b` of dimension `k + 1` is `b` followed by the
/// point `j` of dimension `k`.
proof fn lemma_cube_point_split(j: nat, b: nat, k: nat)
    requires
        b < 2,
    ensures
        cube_point(2 * j + b, k + 1) == seq![b as u32] + cube_point(j, k),
{
    let x = 2 * j + b;
    assert(x / 2 == j && x % 2 == b);
    assert forall|i: int| 0 <= i < k + 1 implies #[trigger] cube_point(x, k + 1)[i] == (seq![b as u32] + cube_point(j, k))[i] by {
        if i > 0 {
            lemma_shifted_succ(x, (i - 1) as nat);
        }
    }
    assert(cube_point(x, k + 1) =~= seq![b as u32] + cube_point(j, k));
}

proof fn lemma_bound_point_split(pre: Seq<u32>, j: nat, b: nat, k: nat)
    requires
        b < 2,
    ensures
        bound_point(pre, 2 * j + b, k + 1) == bound_point(pre.push(b as u32), j, k),
{
    lemma_cube_point_split(j, b, k);
    assert(bound_point(pre, 2 * j + b, k + 1) =~= bound_point(pre.push(b as u32), j, k));
}

proof fn lemma_fadd_range(a: int, b: int)
    ensures
        0 <= fadd(a, b) < modulus(),
{
    lemma_mod_range(a + b);
}

/// Summing over a cube of dimension `k + 1` is summing over the two halves
/// with the next coordinate fixed to 0 and to 1.
proof fn lemma_cube_sum_split<O: MleOracle>(o: O, pre: Seq<u32>, k: nat, t: nat)
    ensures
        cube_sum(o, pre, k + 1, 2 * t) == fadd(cube_sum(o, pre.push(0), k, t), cube_sum(o, pre.push(1), k, t)),
    decreases t,
{
    if t == 0 {
        assert(fadd(0, 0) == 0);
    } else {
        let t1 = (t - 1) as nat;
        lemma_cube_sum_split(o, pre, k, t1);
        let c0 = cube_sum(o, pre.push(0), k, t1);
        let c1 = cube_sum(o, pre.push(1), k, t1);
        lemma_bound_point_split(pre, t1, 0, k);
        lemma_bound_point_split(pre, t1, 1, k);
        let g0 = o.spec_eval(bound_point(pre.push(0), t1, k));
        let g1 = o.spec_eval(bound_point(pre.push(1), t1, k));
        let a = cube_sum(o, pre, k + 1, 2 * t1);
        assert(cube_sum(o, pre, k + 1, (2 * t1 + 1) as nat) == fadd(a, g0));
        assert(cube_sum(o, pre, k + 1, 2 * t) == fadd(fadd(a, g0), g1));
        // both sides are congruent to c0 + c1 + g0 + g1
        lemma_cong_mod(c0 + c1);
        lemma_cong_add(a, c0 + c1, g0, g0);
        lemma_cong_mod(a + g0);
        lemma_cong_add(fadd(a, g0), c0 + c1 + g0, g1, g1);
        lemma_cong_mod(fadd(a, g0) + g1);
        lemma_cong_mod(c0 + g0);
        lemma_cong_mod(c1 + g1);
        lemma_cong_add(fadd(c0, g0), c0 + g0, fadd(c1, g1), c1 + g1);
        lemma_cong_mod(fadd(c0, g0) + fadd(c1, g1));
        lemma_fadd_range(fadd(a, g0), g1);
        lemma_fadd_range(fadd(c0, g0), fadd(c1, g1));
        lemma_cong_small_eq(fadd(fadd(a, g0), g1), fadd(fadd(c0, g0), fadd(c1, g1)));
    }
}

proof fn lemma_cube_sum_line_cong(o: FoldedOracle, ch: Seq<u32>, r: u32, k: nat, t: nat)
    ensures
        cong(
            cube_sum(o, ch.push(r), k, t),
            cube_sum(o, ch.push(0), k, t) + r * (cube_sum(o, ch.push(1), k, t) - cube_sum(o, ch.push(0), k, t)),
        ),
    decreases t,
{
    if t == 0 {
        assert(0 + r * (0 - 0) == 0) by (nonlinear_arith);
    } else {
        let t1 = (t - 1) as nat;
        lemma_cube_sum_line_cong(o, ch, r, k, t1);
        let j = ch.len() as int;
        let p = bound_point(ch.push(0), t1, k);
        assert(bound_point(ch.push(r), t1, k) =~= p.update(j, r));
        assert(bound_point(ch.push(1), t1, k) =~= p.update(j, 1));
        assert(p =~= p.update(j, 0));
        lemma_mle_affine(o.values@, p, j, r);
        let a0 = mle(o.values@, p);
        let a1 = mle(o.values@, p.update(j, 1));
        let ar = mle(o.values@, p.update(j, r));
        assert(ar == line_at(a0, a1, r as int));
        // the term is congruent to a0 + r (a1 - a0)
        lemma_cong_mod(a1 - a0);
        lemma_cong_mul(r as int, r as int, fsub(a1, a0), a1 - a0);
        lemma_cong_mod(r * fsub(a1, a0));
        lemma_cong_add(a0, a0, fmul(r as int, fsub(a1, a0)), r * (a1 - a0));
        lemma_cong_mod(a0 + fmul(r as int, fsub(a1, a0)));
        assert(cong(ar, a0 + r * (a1 - a0)));
        let sr = cube_sum(o, ch.push(r), k, t1);
        let s0 = cube_sum(o, ch.push(0), k, t1);
        let s1 = cube_sum(o, ch.push(1), k, t1);
        lemma_cong_add(sr, s0 + r * (s1 - s0), ar, a0 + r * (a1 - a0));
        lemma_cong_mod(sr + ar);
        lemma_cong_mod(s0 + a0);
        lemma_cong_mod(s1 + a1);
        let n0 = cube_sum(o, ch.push(0), k, t);
        let n1 = cube_sum(o, ch.push(1), k, t);
        assert(n0 == fadd(s0, a0));
        assert(n1 == fadd(s1, a1));
        assert((s0 + r * (s1 - s0)) + (a0 + r * (a1 - a0)) == (s0 + a0) + r * ((s1 + a1) - (s0 + a0))) by (nonlinear_arith);
        lemma_cong_sub(n1, s1 + a1, n0, s0 + a0);
        lemma_cong_mul(r as int, r as int, n1 - n0, (s1 + a1) - (s0 + a0));
        lemma_cong_add(n0, s0 + a0, r * (n1 - n0), r * ((s1 + a1) - (s0 + a0)));
    }
}

/// A cube sum is affine in the coordinate just before the cube.
proof fn lemma_cube_sum_line(o: FoldedOracle, ch: Seq<u32>, r: u32, k: nat, t: nat)
    ensures
        cube_sum(o, ch.push(r), k, t) == line_at(cube_sum(o, ch.push(0), k, t), cube_sum(o, ch.push(1), k, t), r as int),
{
    lemma_cube_sum_line_cong(o, ch, r, k, t);
    let s0 = cube_sum(o, ch.push(0), k, t);
    let s1 = cube_sum(o, ch.push(1), k, t);
    lemma_cong_mod(s1 - s0);
    lemma_cong_mul(r as int, r as int, s1 - s0, fsub(s1, s0));
    lemma_cong_mod(r * fsub(s1, s0));
    lemma_cong_add(s0, s0, r * (s1 - s0), fmul(r as int, fsub(s1, s0)));
    lemma_cong_mod(s0 + fmul(r as int, fsub(s1, s0)));
    lemma_cube_sum_range(o, ch.push(r), k, t);
    lemma_fadd_range(s0, fmul(r as int, fsub(s1, s0)));
    lemma_cong_small_eq(cube_sum(o, ch.push(r), k, t), line_at(s0, s1, r as int));
}

/// The sum over the rest of the cube after the coordinates `ch`.
pub open spec fn rest_sum<O: MleOracle>(o: O, ch: Seq<u32>) -> int {
    let k = (o.spec_n_vars() - ch.len()) as nat;
    cube_sum(o, ch, k, pow2(k))
}

proof fn lemma_round_pair(o: FoldedOracle, ch: Seq<u32>, r: u32)
    requires
        ch.len() < o.n_vars,
    ensures
        fadd(round_value(o, ch, 0), round_value(o, ch, 1)) == rest_sum(o, ch),
        rest_sum(o, ch.push(r)) == line_at(round_value(o, ch, 0), round_value(o, ch, 1), r as int),
{
    let k = (o.n_vars - ch.len() - 1) as nat;
    vstd::arithmetic::power2::lemma_pow2_unfold(k + 1);
    lemma_cube_sum_split(o, ch, k, pow2(k));
    assert((o.spec_n_vars() - ch.len()) as nat == k + 1);
    lemma_cube_sum_line(o, ch, r, k, pow2(k));
    assert((o.spec_n_vars() - ch.push(r).len()) as nat == k);
}

proof fn lemma_rest_sum_full(o: FoldedOracle, ch: Seq<u32>)
    requires
        ch.len() == o.n_vars,
    ensures
        rest_sum(o, ch) == o.spec_eval(ch),
{
    vstd::arithmetic::power2::lemma2_to64();
    assert(bound_point(ch, 0, 0) =~= ch);
    assert(cube_sum(o, ch, 0, 0) == 0);
    assert(cube_sum(o, ch, 0, 1) == fadd(cube_sum(o, ch, 0, 0), o.spec_eval(bound_point(ch, 0, 0))));
    assert(cube_sum(o, ch, 0, 1) == fadd(0, o.spec_eval(ch)));
    crate::folded::lemma_mle_sum_range(o.values@, ch, o.values@.len());
    vstd::arithmetic::div_mod::lemma_small_mod(o.spec_eval(ch) as nat, modulus() as nat);
}

/// Completeness of sumcheck: a proof whose claimed sum is the oracle's
/// total and whose rounds are the honest round polynomials at the
/// transcript's own challenges is accepted.
pub proof fn lemma_sumcheck_complete(o: FoldedOracle, proof: SumcheckProof, log0: Seq<Option<u32>>)
    requires
        proof.rounds@.len() == o.n_vars,
        proof.claimed_sum == total_sum(o),
        forall|i: int| 0 <= i < proof.rounds@.len() ==> {
            &&& (#[trigger] proof.rounds@[i]).0 == round_value(o, sumcheck_challenges(log0, proof.rounds@, i as nat), 0)
            &&& proof.rounds@[i].1 == round_value(o, sumcheck_challenges(log0, proof.rounds@, i as nat), 1)
        },
    ensures
        sumcheck_accepts(proof, log0, o),
{
    let rounds = proof.rounds@;
    let n = rounds.len();
    assert forall|i: nat| i <= n implies #[trigger] running_claim(proof.claimed_sum, log0, rounds, i) == rest_sum(
        o,
        sumcheck_challenges(log0, rounds, i),
    ) by {
        if i == 0 {
            assert(sumcheck_challenges(log0, rounds, 0) =~= Seq::<u32>::empty());
        } else {
            let i1 = (i - 1) as nat;
            let ch = sumcheck_challenges(log0, rounds, i1);
            let r = sumcheck_challenge(log0, rounds, i1);
            assert(sumcheck_challenges(log0, rounds, i) =~= ch.push(r));
            assert(rounds[i1 as int].0 == round_value(o, ch, 0));
            lemma_round_pair(o, ch, r);
        }
    }
    assert forall|i: int| 0 <= i < rounds.len() implies fadd(#[trigger] rounds[i].0 as int, rounds[i].1 as int)
        == running_claim(proof.claimed_sum, log0, rounds, i as nat) by {
        let ch = sumcheck_challenges(log0, rounds, i as nat);
        lemma_round_pair(o, ch, 0);
        assert(running_claim(proof.claimed_sum, log0, rounds, i as nat) == rest_sum(o, ch));
    }
    lemma_rest_sum_full(o, sumcheck_challenges(log0, rounds, n));
    assert(running_claim(proof.claimed_sum, log0, rounds, n) == rest_sum(o, sumcheck_challenges(log0, rounds, n)));
}

} // verus!
