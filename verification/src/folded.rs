//! Folding several column oracles into one with powers of a challenge,
//! `fold(alpha; R_0, ..., R_k) = sum_j alpha^j * R_j`, and the commutation
//! of folding with fixing a prefix of the coordinates.
//!
//! The builder goes through two typestates: a challenge must be absorbed
//! before the folded oracle can be built.
use vstd::prelude::*;
use vstd::arithmetic::power::*;
use vstd::arithmetic::div_mod::*;
use vstd::arithmetic::power2::pow2;
use crate::field::{P, modulus, all_fe, fadd, fmul, fpow, fe_add, fe_mul, lemma_mod_range};
use crate::algebra::{cong, lemma_cong_add, lemma_cong_mul, lemma_cong_mod, lemma_cong_small_eq};
use crate::oracle::{mle, mle_sum, eq_basis, cube_point, bit, shifted, evaluate_mle, MleOracle};

verus! {

/// Typestate: no challenge absorbed yet.
pub struct NeedsChallenge;

/// Typestate: the challenge is absorbed; the oracle can be built.
pub struct ReadyToBind {
    pub alpha: u32,
}

/// Column tables waiting to be folded.
pub struct FoldedOracleBuilder<State> {
    pub oracles: Vec<Vec<u32>>,
    pub n_vars: usize,
    pub state: State,
}

/// The folded oracle: one table, `sum_j alpha^j * R_j`.
pub struct FoldedOracle {
    pub values: Vec<u32>,
    pub n_vars: usize,
    pub alpha: u32,
}

/// Entry `i` of table `t`, zero past its end.
pub open spec fn table_at(t: Seq<u32>, i: int) -> int {
    if 0 <= i < t.len() {
        t[i] as int
    } else {
        0
    }
}

/// Entry `i` of the fold of the first `t` tables, in the field.
pub open spec fn fold_at(os: Seq<Seq<u32>>, alpha: int, t: nat, i: int) -> int
    decreases t,
{
    if t == 0 {
        0
    } else {
        fadd(fold_at(os, alpha, (t - 1) as nat, i), fmul(fpow(alpha, (t - 1) as nat), table_at(os[t - 1], i)))
    }
}

/// The fold of the first `t` tables, `len` entries long.
pub open spec fn fold_table(os: Seq<Seq<u32>>, alpha: int, t: nat, len: nat) -> Seq<u32> {
    Seq::new(len, |i: int| fold_at(os, alpha, t, i) as u32)
}

/// The fold, with the same powers of `alpha`, of the extensions of the
/// first `t` tables at `point`.
pub open spec fn mle_fold(os: Seq<Seq<u32>>, alpha: int, t: nat, point: Seq<u32>) -> int
    decreases t,
{
    if t == 0 {
        0
    } else {
        fadd(mle_fold(os, alpha, (t - 1) as nat, point), fmul(fpow(alpha, (t - 1) as nat), mle(os[t - 1], point)))
    }
}

/// The tables all have `len` field entries.
pub open spec fn tables_wf(os: Seq<Seq<u32>>, len: nat) -> bool {
    forall|j: int| 0 <= j < os.len() ==> (#[trigger] os[j]).len() == len && all_fe(os[j])
}

/// The contents of each table.
pub open spec fn views(os: Seq<Vec<u32>>) -> Seq<Seq<u32>> {
    os.map_values(|v: Vec<u32>| v@)
}

/// A copy of the tables.
fn copy_tables(os: &Vec<Vec<u32>>) -> (r: Vec<Vec<u32>>)
    ensures
        views(r@) == views(os@),
{
    let mut r: Vec<Vec<u32>> = Vec::new();
    let mut j: usize = 0;
    while j < os.len()
        invariant
            j <= os@.len(),
            r@.len() == j,
            forall|q: int| 0 <= q < j ==> (#[trigger] r@[q])@ == os@[q]@,
        decreases os@.len() - j,
    {
        let t = os[j].clone();
        assert(t@ =~= os@[j as int]@);
        r.push(t);
        j = j + 1;
    }
    assert(views(r@) =~= views(os@));
    r
}

/// `prefix` followed by the Boolean point `idx` on the remaining coordinates.
pub open spec fn bound_point(prefix: Seq<u32>, idx: nat, remaining: nat) -> Seq<u32> {
    prefix + cube_point(idx, remaining)
}

proof fn lemma_fpow_step(alpha: int, j: nat, coeff: int)
    requires
        coeff == fpow(alpha, j),
    ensures
        fmul(coeff, alpha) == fpow(alpha, j + 1),
{
    lemma_pow_adds(alpha, j, 1);
    lemma_pow1(alpha);
    lemma_mul_mod_noop_left(pow(alpha, j), alpha, modulus());
}

impl FoldedOracleBuilder<NeedsChallenge> {
    pub fn new(oracles: Vec<Vec<u32>>, n_vars: usize) -> (b: Self)
        ensures
            b.oracles@ == oracles@,
            b.n_vars == n_vars,
    {
        FoldedOracleBuilder { oracles, n_vars, state: NeedsChallenge }
    }

    /// Absorb the folding challenge; only then can the oracle be built.
    pub fn absorb_challenge(self, alpha: u32) -> (b: FoldedOracleBuilder<ReadyToBind>)
        ensures
            b.oracles@ == self.oracles@,
            b.n_vars == self.n_vars,
            b.state.alpha == alpha,
    {
        FoldedOracleBuilder { oracles: self.oracles, n_vars: self.n_vars, state: ReadyToBind { alpha } }
    }
}

impl FoldedOracleBuilder<ReadyToBind> {
    /// Fold the tables: entry `i` is `sum_j alpha^j * R_j[i]`, as long as
    /// the first table.
    pub fn build(self) -> (o: FoldedOracle)
        requires
            self.oracles@.len() > 0,
            self.state.alpha < P,
            forall|j: int| 0 <= j < self.oracles@.len() ==>
                (#[trigger] self.oracles@[j])@.len() <= self.oracles@[0]@.len() && all_fe(self.oracles@[j]@),
        ensures
            o.values@ == fold_table(views(self.oracles@), self.state.alpha as int, self.oracles@.len(), self.oracles@[0]@.len()),
            all_fe(o.values@),
            o.n_vars == self.n_vars,
            o.alpha == self.state.alpha,
    {
        let alpha = self.state.alpha;
        let os = &self.oracles;
        let n = os[0].len();
        let mut folded: Vec<u32> = Vec::new();
        let mut i: usize = 0;
        while i < n
            invariant
                i <= n,
                folded@.len() == i,
                forall|q: int| 0 <= q < i ==> #[trigger] folded@[q] == 0,
            decreases n - i,
        {
            folded.push(0);
            i = i + 1;
        }
        let mut coeff: u32 = 1;
        let mut j: usize = 0;
        proof {
            lemma_pow0(alpha as int);
            lemma_small_mod(1, modulus() as nat);
        }
        while j < os.len()
            invariant
                n == os@[0]@.len(),
                alpha < P,
                forall|q: int| 0 <= q < os@.len() ==> (#[trigger] os@[q])@.len() <= n && all_fe(os@[q]@),
                j <= os@.len(),
                coeff < P,
                coeff == fpow(alpha as int, j as nat),
                folded@.len() == n,
                forall|q: int| 0 <= q < n ==> #[trigger] folded@[q] == fold_at(views(os@), alpha as int, j as nat, q),
            decreases os@.len() - j,
        {
            let oracle = &os[j];
            let m = oracle.len();
            let mut i: usize = 0;
            while i < n
                invariant
                    n == folded@.len(),
                    m == oracle@.len(),
                    m <= n,
                    oracle@ == os@[j as int]@,
                    oracle@ == views(os@)[j as int],
                    all_fe(oracle@),
                    coeff < P,
                    coeff == fpow(alpha as int, j as nat),
                    i <= n,
                    forall|q: int| 0 <= q < i ==> #[trigger] folded@[q] == fold_at(views(os@), alpha as int, (j + 1) as nat, q),
                    forall|q: int| i <= q < n ==> #[trigger] folded@[q] == fold_at(views(os@), alpha as int, j as nat, q),
                decreases n - i,
            {
                if i < m {
                    let t = fe_mul(coeff, oracle[i]);
                    let v = fe_add(folded[i], t);
                    folded.set(i, v);
                    proof {
                        assert(table_at(views(os@)[j as int], i as int) == oracle@[i as int]);
                    }
                } else {
                    // entries past the end of this table add zero
                    proof {
                        lemma_small_mod(0, modulus() as nat);
                        assert(fmul(coeff as int, 0) == 0);
                        lemma_mod_range(folded@[i as int] as int);
                        lemma_small_mod(folded@[i as int] as nat, modulus() as nat);
                        assert(table_at(views(os@)[j as int], i as int) == 0);
                        if j > 0 {
                            lemma_mod_range(fold_at(views(os@), alpha as int, (j - 1) as nat, i as int) + fmul(fpow(alpha as int, (j - 1) as nat), table_at(views(os@)[j - 1], i as int)));
                        }
                    }
                }
                i = i + 1;
            }
            proof {
                lemma_fpow_step(alpha as int, j as nat, coeff as int);
            }
            coeff = fe_mul(coeff, alpha);
            j = j + 1;
        }
        proof {
            assert forall|q: int| 0 <= q < folded@.len() implies #[trigger] folded@[q] < P by {
                if os@.len() > 0 {
                    lemma_mod_range(fold_at(views(os@), alpha as int, (os@.len() - 1) as nat, q) + fmul(fpow(alpha as int, (os@.len() - 1) as nat), table_at(views(os@)[os@.len() - 1], q)));
                }
            }
            assert(folded@ =~= fold_table(views(os@), alpha as int, os@.len(), n as nat));
        }
        FoldedOracle { values: folded, n_vars: self.n_vars, alpha }
    }
}

/// `2^k` as a machine integer.
pub fn pow2_usize(k: usize) -> (r: usize)
    requires
        pow2(k as nat) <= usize::MAX,
    ensures
        r == pow2(k as nat),
{
    let mut r: usize = 1;
    let mut i: usize = 0;
    proof {
        vstd::arithmetic::power2::lemma2_to64();
    }
    while i < k
        invariant
            i <= k,
            r == pow2(i as nat),
            pow2(k as nat) <= usize::MAX,
        decreases k - i,
    {
        proof {
            vstd::arithmetic::power2::lemma_pow2_unfold((i + 1) as nat);
            if i + 1 < k {
                vstd::arithmetic::power2::lemma_pow2_strictly_increases((i + 1) as nat, k as nat);
            }
        }
        r = r * 2;
        i = i + 1;
    }
    r
}

/// `prefix` followed by the bits of `idx` on `remaining` coordinates.
pub(crate) fn bound_point_exec(prefix: &Vec<u32>, idx: usize, remaining: usize) -> (full: Vec<u32>)
    requires
        all_fe(prefix@),
    ensures
        full@ == bound_point(prefix@, idx as nat, remaining as nat),
        all_fe(full@),
{
    let mut full = prefix.clone();
    let mut rest: usize = idx;
    let mut i: usize = 0;
    assert(full@ == prefix@);
    while i < remaining
        invariant
            all_fe(prefix@),
            i <= remaining,
            rest == shifted(idx as nat, i as nat),
            full@ == prefix@ + cube_point(idx as nat, i as nat),
        decreases remaining - i,
    {
        let b = (rest % 2) as u32;
        full.push(b);
        proof {
            assert(cube_point(idx as nat, (i + 1) as nat) =~= cube_point(idx as nat, i as nat).push(bit(idx as nat, i as nat) as u32));
            assert(prefix@ + cube_point(idx as nat, (i + 1) as nat) =~= (prefix@ + cube_point(idx as nat, i as nat)).push(b));
        }
        rest = rest / 2;
        i = i + 1;
    }
    proof {
        assert forall|q: int| 0 <= q < full@.len() implies #[trigger] full@[q] < P by {
            if q >= prefix@.len() {
                assert(full@[q] == cube_point(idx as nat, remaining as nat)[q - prefix@.len()]);
            }
        }
    }
    full
}

impl FoldedOracle {
    pub open spec fn wf(&self) -> bool {
        &&& self.values@.len() == pow2(self.n_vars as nat)
        &&& all_fe(self.values@)
    }

    /// The folded oracle with its first coordinates fixed to `prefix`, as a
    /// table over the remaining coordinates.
    pub fn bind_prefix(&self, prefix: &Vec<u32>) -> (r: Vec<u32>)
        requires
            self.wf(),
            prefix@.len() <= self.n_vars,
            all_fe(prefix@),
        ensures
            r@.len() == pow2((self.n_vars - prefix@.len()) as nat),
            forall|idx: int| 0 <= idx < r@.len() ==>
                #[trigger] r@[idx] == mle(self.values@, bound_point(prefix@, idx as nat, (self.n_vars - prefix@.len()) as nat)),
    {
        bind_table(&self.values, self.n_vars, prefix)
    }

    /// Commutation law, checked on given inputs: fixing a prefix of the
    /// folded oracle gives the fold of the oracles with that prefix fixed.
    pub fn test_commutation_law(oracles: &Vec<Vec<u32>>, alpha: u32, prefix: &Vec<u32>, n_vars: usize) -> (ok: bool)
        requires
            oracles@.len() > 0,
            alpha < P,
            tables_wf(views(oracles@), pow2(n_vars as nat)),
            prefix@.len() <= n_vars,
            all_fe(prefix@),
        ensures
            ok,
    {
        let remaining = n_vars - prefix.len();
        // left: fold, then bind
        let builder = FoldedOracleBuilder::new(copy_tables(oracles), n_vars);
        assert(views(builder.oracles@) == views(oracles@));
        proof {
            assert forall|j: int| 0 <= j < builder.oracles@.len() implies
                (#[trigger] builder.oracles@[j])@.len() <= builder.oracles@[0]@.len() && all_fe(builder.oracles@[j]@) by {
                assert(views(builder.oracles@)[j] == views(oracles@)[j]);
                assert(views(builder.oracles@)[0] == views(oracles@)[0]);
            }
        }
        let ghost bo = builder.oracles@;
        let folded = builder.absorb_challenge(alpha).build();
        assert(views(bo)[0] == views(oracles@)[0]);
        assert(views(bo) == views(oracles@));
        let lhs = folded.bind_prefix(prefix);
        // right: bind each oracle, then fold
        let mut bound: Vec<Vec<u32>> = Vec::new();
        let mut j: usize = 0;
        while j < oracles.len()
            invariant
                tables_wf(views(oracles@), pow2(n_vars as nat)),
                prefix@.len() <= n_vars,
                remaining == n_vars - prefix@.len(),
                all_fe(prefix@),
                j <= oracles@.len(),
                bound@.len() == j,
                forall|q: int| 0 <= q < j ==> (#[trigger] bound@[q])@.len() == pow2(remaining as nat),
                forall|q: int, idx: int| 0 <= q < j && 0 <= idx < pow2(remaining as nat) ==>
                    #[trigger] bound@[q]@[idx] == mle(oracles@[q]@, bound_point(prefix@, idx as nat, remaining as nat)),
            decreases oracles@.len() - j,
        {
            assert(views(oracles@)[j as int] == oracles@[j as int]@);
            let b = bind_table(&oracles[j], n_vars, prefix);
            bound.push(b);
            j = j + 1;
        }
        let n = lhs.len();
        let mut rhs: Vec<u32> = Vec::new();
        let mut i: usize = 0;
        while i < n
            invariant
                i <= n,
                rhs@.len() == i,
                forall|q: int| 0 <= q < i ==> #[trigger] rhs@[q] == 0,
            decreases n - i,
        {
            rhs.push(0);
            i = i + 1;
        }
        let mut coeff: u32 = 1;
        let mut j: usize = 0;
        proof {
            lemma_pow0(alpha as int);
            lemma_small_mod(1, modulus() as nat);
        }
        while j < bound.len()
            invariant
                n == pow2(remaining as nat),
                alpha < P,
                bound@.len() == oracles@.len(),
                forall|q: int| 0 <= q < bound@.len() ==> (#[trigger] bound@[q])@.len() == n,
                forall|q: int, idx: int| 0 <= q < bound@.len() && 0 <= idx < n ==>
                    #[trigger] bound@[q]@[idx] == mle(oracles@[q]@, bound_point(prefix@, idx as nat, remaining as nat)),
                j <= bound@.len(),
                coeff < P,
                coeff == fpow(alpha as int, j as nat),
                rhs@.len() == n,
                forall|q: int| 0 <= q < n ==> #[trigger] rhs@[q] == mle_fold(views(oracles@), alpha as int, j as nat, bound_point(prefix@, q as nat, remaining as nat)),
            decreases bound@.len() - j,
        {
            let b = &bound[j];
            let mut i: usize = 0;
            while i < n
                invariant
                    n == rhs@.len(),
                    b@ == bound@[j as int]@,
                    b@.len() == n,
                    j < bound@.len(),
                    bound@.len() == oracles@.len(),
                    forall|idx: int| 0 <= idx < n ==>
                        #[trigger] b@[idx] == mle(oracles@[j as int]@, bound_point(prefix@, idx as nat, remaining as nat)),
                    coeff < P,
                    coeff == fpow(alpha as int, j as nat),
                    i <= n,
                    forall|q: int| 0 <= q < i ==> #[trigger] rhs@[q] == mle_fold(views(oracles@), alpha as int, (j + 1) as nat, bound_point(prefix@, q as nat, remaining as nat)),
                    forall|q: int| i <= q < n ==> #[trigger] rhs@[q] == mle_fold(views(oracles@), alpha as int, j as nat, bound_point(prefix@, q as nat, remaining as nat)),
                decreases n - i,
            {
                proof {
                    lemma_mod_range(mle(oracles@[j as int]@, bound_point(prefix@, i as nat, remaining as nat)));
                    lemma_mle_fold_range(views(oracles@), alpha as int, j as nat, bound_point(prefix@, i as nat, remaining as nat));
                    assert(views(oracles@)[j as int] == oracles@[j as int]@);
                }
                let t = fe_mul(coeff, b[i]);
                let v = fe_add(rhs[i], t);
                rhs.set(i, v);
                i = i + 1;
            }
            proof {
                lemma_fpow_step(alpha as int, j as nat, coeff as int);
            }
            coeff = fe_mul(coeff, alpha);
            j = j + 1;
        }
        // compare
        proof {
            assert forall|q: int| 0 <= q < n implies #[trigger] lhs@[q] == rhs@[q] by {
                lemma_mle_of_fold(views(oracles@), alpha as int, oracles@.len(), pow2(n_vars as nat), bound_point(prefix@, q as nat, remaining as nat));
                assert(views(oracles@)[0] == oracles@[0]@);
                assert(fold_table(views(oracles@), alpha as int, oracles@.len(), pow2(n_vars as nat)) == folded.values@);
            }
        }
        let mut ok = true;
        let mut i: usize = 0;
        while i < n
            invariant
                i <= n,
                n == lhs@.len(),
                n == rhs@.len(),
                forall|q: int| 0 <= q < n ==> #[trigger] lhs@[q] == rhs@[q],
                ok,
            decreases n - i,
        {
            if lhs[i] != rhs[i] {
                ok = false;
            }
            i = i + 1;
        }
        ok
    }
}

/// A table bound at `prefix`: its extension at `prefix` followed by each
/// Boolean point of the remaining coordinates.
fn bind_table(values: &Vec<u32>, n_vars: usize, prefix: &Vec<u32>) -> (r: Vec<u32>)
    requires
        values@.len() == pow2(n_vars as nat),
        all_fe(values@),
        prefix@.len() <= n_vars,
        all_fe(prefix@),
    ensures
        r@.len() == pow2((n_vars - prefix@.len()) as nat),
        forall|idx: int| 0 <= idx < r@.len() ==>
            #[trigger] r@[idx] == mle(values@, bound_point(prefix@, idx as nat, (n_vars - prefix@.len()) as nat)),
{
    let remaining = n_vars - prefix.len();
    proof {
        if remaining < n_vars {
            vstd::arithmetic::power2::lemma_pow2_strictly_increases(remaining as nat, n_vars as nat);
        }
    }
    let vlen = values.len();
    let size = pow2_usize(remaining);
    let mut out: Vec<u32> = Vec::new();
    let mut idx: usize = 0;
    while idx < size
        invariant
            size == pow2(remaining as nat),
            remaining == n_vars - prefix@.len(),
            values@.len() == pow2(n_vars as nat),
            all_fe(values@),
            all_fe(prefix@),
            idx <= size,
            out@.len() == idx,
            forall|q: int| 0 <= q < idx ==>
                #[trigger] out@[q] == mle(values@, bound_point(prefix@, q as nat, remaining as nat)),
        decreases size - idx,
    {
        let full = bound_point_exec(prefix, idx, remaining);
        let v = evaluate_mle(values, &full);
        out.push(v);
        idx = idx + 1;
    }
    out
}

proof fn lemma_mle_fold_range(os: Seq<Seq<u32>>, alpha: int, t: nat, point: Seq<u32>)
    ensures
        0 <= mle_fold(os, alpha, t, point) < modulus(),
{
    if t > 0 {
        lemma_mod_range(mle_fold(os, alpha, (t - 1) as nat, point) + fmul(fpow(alpha, (t - 1) as nat), mle(os[t - 1], point)));
    }
}

pub(crate) proof fn lemma_mle_sum_range(values: Seq<u32>, point: Seq<u32>, t: nat)
    ensures
        0 <= mle_sum(values, point, t) < modulus(),
{
    if t > 0 {
        lemma_mod_range(mle_sum(values, point, (t - 1) as nat) + fmul(values[t - 1] as int, eq_basis((t - 1) as nat, point, point.len())));
    }
}

/// The extension is linear in the table: if `r = a + c * b` entrywise,
/// the first `t` terms of the extension of `r` are those of `a` plus `c`
/// times those of `b`.
pub proof fn lemma_mle_sum_linear(r: Seq<u32>, a: Seq<u32>, b: Seq<u32>, c: int, point: Seq<u32>, t: nat)
    requires
        t <= r.len(),
        t <= a.len(),
        t <= b.len(),
        forall|i: int| 0 <= i < t ==> #[trigger] r[i] == fadd(a[i] as int, fmul(c, b[i] as int)),
    ensures
        mle_sum(r, point, t) == fadd(mle_sum(a, point, t), fmul(c, mle_sum(b, point, t))),
    decreases t,
{
    let m = modulus();
    if t == 0 {
        lemma_small_mod(0, m as nat);
        assert(fmul(c, 0) == 0);
    } else {
        let t1 = (t - 1) as nat;
        lemma_mle_sum_linear(r, a, b, c, point, t1);
        let ra = mle_sum(r, point, t1);
        let aa = mle_sum(a, point, t1);
        let bb = mle_sum(b, point, t1);
        let e = eq_basis(t1, point, point.len());
        let ri = r[t1 as int] as int;
        let ai = a[t1 as int] as int;
        let bi = b[t1 as int] as int;
        // everything is congruent to its unreduced form
        lemma_cong_mod(c * bb);
        lemma_cong_add(aa, aa, fmul(c, bb), c * bb);
        lemma_cong_mod(aa + fmul(c, bb));
        assert(cong(ra, aa + c * bb));
        lemma_cong_mod(c * bi);
        lemma_cong_add(ai, ai, fmul(c, bi), c * bi);
        lemma_cong_mod(ai + fmul(c, bi));
        assert(cong(ri, ai + c * bi));
        lemma_cong_mul(ri, ai + c * bi, e, e);
        lemma_cong_mod(ri * e);
        lemma_cong_add(ra, aa + c * bb, fmul(ri, e), (ai + c * bi) * e);
        lemma_cong_mod(ra + fmul(ri, e));
        let lhs = mle_sum(r, point, t);
        assert(cong(lhs, (aa + c * bb) + (ai + c * bi) * e));
        // right side
        let a2 = mle_sum(a, point, t);
        let b2 = mle_sum(b, point, t);
        lemma_cong_mod(ai * e);
        lemma_cong_add(aa, aa, fmul(ai, e), ai * e);
        lemma_cong_mod(aa + fmul(ai, e));
        assert(cong(a2, aa + ai * e));
        lemma_cong_mod(bi * e);
        lemma_cong_add(bb, bb, fmul(bi, e), bi * e);
        lemma_cong_mod(bb + fmul(bi, e));
        assert(cong(b2, bb + bi * e));
        lemma_cong_mul(c, c, b2, bb + bi * e);
        lemma_cong_mod(c * b2);
        lemma_cong_add(a2, aa + ai * e, fmul(c, b2), c * (bb + bi * e));
        lemma_cong_mod(a2 + fmul(c, b2));
        assert((aa + c * bb) + (ai + c * bi) * e == (aa + ai * e) + c * (bb + bi * e)) by (nonlinear_arith);
        lemma_mod_range(ra + fmul(ri, e));
        lemma_mod_range(a2 + fmul(c, b2));
        lemma_cong_small_eq(lhs, fadd(a2, fmul(c, b2)));
    }
}

proof fn lemma_mle_sum_zero_table(z: Seq<u32>, point: Seq<u32>, t: nat)
    requires
        t <= z.len(),
        forall|i: int| 0 <= i < t ==> #[trigger] z[i] == 0,
    ensures
        mle_sum(z, point, t) == 0,
    decreases t,
{
    if t > 0 {
        lemma_mle_sum_zero_table(z, point, (t - 1) as nat);
        lemma_small_mod(0, modulus() as nat);
        assert(fmul(0, eq_basis((t - 1) as nat, point, point.len())) == 0);
    }
}

/// The extension of the fold is the fold of the extensions.
pub proof fn lemma_mle_of_fold(os: Seq<Seq<u32>>, alpha: int, t: nat, len: nat, point: Seq<u32>)
    requires
        t <= os.len(),
        tables_wf(os, len),
    ensures
        mle(fold_table(os, alpha, t, len), point) == mle_fold(os, alpha, t, point),
    decreases t,
{
    let ft = fold_table(os, alpha, t, len);
    if t == 0 {
        lemma_mle_sum_zero_table(ft, point, len);
    } else {
        let t1 = (t - 1) as nat;
        lemma_mle_of_fold(os, alpha, t1, len, point);
        let prev = fold_table(os, alpha, t1, len);
        let c = fpow(alpha, t1);
        assert forall|i: int| 0 <= i < len implies #[trigger] ft[i] == fadd(prev[i] as int, fmul(c, os[t1 as int][i] as int)) by {
            lemma_mod_range(fold_at(os, alpha, t1, i) + fmul(c, table_at(os[t1 as int], i)));
            if t1 > 0 {
                lemma_mod_range(fold_at(os, alpha, (t1 - 1) as nat, i) + fmul(fpow(alpha, (t1 - 1) as nat), table_at(os[t1 - 1], i)));
            }
        }
        lemma_mle_sum_linear(ft, prev, os[t1 as int], c, point, len);
    }
}

impl MleOracle for FoldedOracle {
    open spec fn spec_n_vars(&self) -> nat {
        self.n_vars as nat
    }

    open spec fn spec_eval(&self, point: Seq<u32>) -> int {
        mle(self.values@, point)
    }

    open spec fn oracle_wf(&self) -> bool {
        self.wf()
    }

    fn n_vars(&self) -> (r: usize) {
        self.n_vars
    }

    fn eval(&self, point: &Vec<u32>) -> (r: u32) {
        evaluate_mle(&self.values, point)
    }
}

/// Folding commutes with fixing a prefix: the extension of the fold at any
/// point is the fold, with the same powers of the challenge, of the
/// extensions of the tables at that point.
pub proof fn lemma_fold_commutes_with_binding(os: Seq<Seq<u32>>, alpha: int, n_vars: nat, point: Seq<u32>)
    requires
        tables_wf(os, pow2(n_vars)),
    ensures
        mle(fold_table(os, alpha, os.len(), pow2(n_vars)), point) == mle_fold(os, alpha, os.len(), point),
{
    lemma_mle_of_fold(os, alpha, os.len(), pow2(n_vars), point);
}

} // verus!
