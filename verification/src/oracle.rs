//! Multilinear-extension oracles over trace columns.
//!
//! A table of `2^n` field elements is read as a function on the Boolean
//! hypercube `{0,1}^n` (index bit `i` is coordinate `i`); its multilinear
//! extension at a point `r` is `sum_x values[x] * eq(x, r)`, where
//! `eq(x, r)` is the product over the coordinates of `r_i` (bit set) or
//! `1 - r_i` (bit clear).
use vstd::prelude::*;
use vstd::arithmetic::power2::{pow2, lemma_pow2_unfold};
use std::sync::Arc;
use crate::field::{P, modulus, all_fe, fadd, fsub, fmul, fe_add, fe_sub, fe_mul, lemma_mod_range};
use crate::fft::is_pow2;
use crate::matrix::{RowMajorMatrix, lemma_height_times_width, lemma_index_in_bounds};

verus! {

/// `idx` shifted right by `i` bits.
pub open spec fn shifted(idx: nat, i: nat) -> nat
    decreases i,
{
    if i == 0 {
        idx
    } else {
        shifted(idx, (i - 1) as nat) / 2
    }
}

/// Bit `i` of `idx`.
pub open spec fn bit(idx: nat, i: nat) -> nat {
    shifted(idx, i) % 2
}

/// The factor of coordinate `i` in `eq(idx, point)`.
pub open spec fn eq_factor(idx: nat, point: Seq<u32>, i: nat) -> int {
    if bit(idx, i) == 1 {
        point[i as int] as int
    } else {
        fsub(1, point[i as int] as int)
    }
}

/// The product of the first `t` factors of `eq(idx, point)`, in the field.
pub open spec fn eq_basis(idx: nat, point: Seq<u32>, t: nat) -> int
    decreases t,
{
    if t == 0 {
        1
    } else {
        fmul(eq_basis(idx, point, (t - 1) as nat), eq_factor(idx, point, (t - 1) as nat))
    }
}

/// The sum of the first `t` terms `values[x] * eq(x, point)`, in the field.
pub open spec fn mle_sum(values: Seq<u32>, point: Seq<u32>, t: nat) -> int
    decreases t,
{
    if t == 0 {
        0
    } else {
        fadd(
            mle_sum(values, point, (t - 1) as nat),
            fmul(values[t - 1] as int, eq_basis((t - 1) as nat, point, point.len())),
        )
    }
}

/// The multilinear extension of `values` at `point`.
pub open spec fn mle(values: Seq<u32>, point: Seq<u32>) -> int {
    mle_sum(values, point, values.len())
}

/// The Boolean point of the hypercube `{0,1}^n` with index `idx`.
pub open spec fn cube_point(idx: nat, n: nat) -> Seq<u32> {
    Seq::new(n, |i: int| bit(idx, i as nat) as u32)
}

/// The base-2 logarithm of a power of two.
pub open spec fn log2(n: nat) -> nat
    decreases n,
{
    if n <= 1 {
        0
    } else {
        1 + log2(n / 2)
    }
}

pub proof fn lemma_log2_pow2(n: nat)
    requires
        is_pow2(n),
    ensures
        pow2(log2(n)) == n,
    decreases n,
{
    if n > 1 {
        lemma_log2_pow2(n / 2);
        lemma_pow2_unfold(log2(n));
    } else {
        vstd::arithmetic::power2::lemma2_to64();
    }
}

/// The multilinear extension of `values` at `point`, for `2^n` values and
/// a point with `n` coordinates.
pub fn evaluate_mle(values: &Vec<u32>, point: &Vec<u32>) -> (r: u32)
    requires
        values@.len() == pow2(point@.len()),
        all_fe(values@),
        all_fe(point@),
    ensures
        r < P,
        r == mle(values@, point@),
{
    let n = point.len();
    let size = values.len();
    let mut result: u32 = 0;
    let mut idx: usize = 0;
    proof {
        lemma_mod_range(0);
    }
    while idx < size
        invariant
            size == values@.len(),
            n == point@.len(),
            all_fe(values@),
            all_fe(point@),
            idx <= size,
            result < P,
            result == mle_sum(values@, point@, idx as nat),
        decreases size - idx,
    {
        let mut basis: u32 = 1;
        let mut rest: usize = idx;
        let mut i: usize = 0;
        proof {
            vstd::arithmetic::div_mod::lemma_small_mod(1, modulus() as nat);
        }
        while i < n
            invariant
                n == point@.len(),
                all_fe(point@),
                i <= n,
                rest == shifted(idx as nat, i as nat),
                basis < P,
                basis == eq_basis(idx as nat, point@, i as nat),
            decreases n - i,
        {
            let b = rest % 2;
            let factor = if b == 1 {
                point[i]
            } else {
                fe_sub(1, point[i])
            };
            proof {
                lemma_mod_range(point@[i as int] as int);
                vstd::arithmetic::div_mod::lemma_small_mod(point@[i as int] as nat, modulus() as nat);
            }
            basis = fe_mul(basis, factor);
            rest = rest / 2;
            i = i + 1;
        }
        let term = fe_mul(values[idx], basis);
        result = fe_add(result, term);
        idx = idx + 1;
    }
    result
}

/// A multilinear-extension oracle: a function on `n_vars` coordinates.
pub trait MleOracle {
    /// The number of variables.
    spec fn spec_n_vars(&self) -> nat;

    /// The value of the oracle at `point`.
    spec fn spec_eval(&self, point: Seq<u32>) -> int;

    /// The oracle is well formed.
    spec fn oracle_wf(&self) -> bool;

    fn n_vars(&self) -> (r: usize)
        ensures
            r == self.spec_n_vars(),
    ;

    fn eval(&self, point: &Vec<u32>) -> (r: u32)
        requires
            self.oracle_wf(),
            point@.len() == self.spec_n_vars(),
            all_fe(point@),
        ensures
            r < P,
            r == self.spec_eval(point@),
    ;
}

/// The multilinear extension of one trace column.
#[derive(Clone, Debug)]
pub struct ColumnOracle {
    pub values: Vec<u32>,
    pub n_vars: usize,
}

impl ColumnOracle {
    pub open spec fn wf(&self) -> bool {
        &&& self.values@.len() == pow2(self.n_vars as nat)
        &&& all_fe(self.values@)
    }

    /// The oracle of column `col` of `trace`, whose height must be a power
    /// of two.
    pub fn from_matrix(trace: &RowMajorMatrix, col: usize) -> (o: Self)
        requires
            trace.wf(),
            is_pow2(trace.spec_height()),
            col < trace.width,
        ensures
            o.wf(),
            o.values@ == trace.column(col as int),
            pow2(o.n_vars as nat) == trace.spec_height(),
    {
        let h = trace.height();
        let w = trace.width();
        let len = trace.values.len();
        let mut values: Vec<u32> = Vec::new();
        let mut i: usize = 0;
        proof {
            lemma_height_times_width(trace.values@.len() as int, w as int);
        }
        while i < h
            invariant
                trace.wf(),
                h == trace.spec_height(),
                w == trace.width,
                col < w,
                h * w == trace.values@.len(),
                len == trace.values@.len(),
                i <= h,
                values@.len() == i,
                forall|j: int| 0 <= j < i ==> #[trigger] values@[j] == trace.entry(j, col as int),
            decreases h - i,
        {
            proof {
                lemma_index_in_bounds(i as int, col as int, w as int, h as int);
                assert(i * w + col < trace.values@.len());
            }
            values.push(trace.values[i * w + col]);
            i = i + 1;
        }
        let n_vars = ilog2(h);
        proof {
            assert(values@ =~= trace.column(col as int));
            lemma_log2_pow2(h as nat);
            assert forall|j: int| 0 <= j < values@.len() implies #[trigger] values@[j] < P by {
                lemma_index_in_bounds(j, col as int, w as int, h as int);
            }
        }
        ColumnOracle { values, n_vars }
    }

    /// The oracle of column `col_idx` of a shared trace, whose height must
    /// be a power of two.
    pub fn new(trace: Arc<RowMajorMatrix>, col_idx: usize) -> (o: Self)
        requires
            trace.wf(),
            is_pow2(trace.spec_height()),
            col_idx < trace.width,
        ensures
            o.wf(),
            o.values@ == trace.column(col_idx as int),
            pow2(o.n_vars as nat) == trace.spec_height(),
    {
        Self::from_matrix(&*trace, col_idx)
    }

    /// The column values the oracle extends.
    pub fn raw_column(&self) -> (v: Vec<u32>)
        ensures
            v@ == self.values@,
    {
        self.values.clone()
    }

    /// The oracle with its first coordinates fixed to `prefix`.
    pub fn bind_prefix(&self, prefix: &Vec<u32>) -> (r: RestrictedColumn)
        requires
            prefix@.len() <= self.n_vars,
        ensures
            r.oracle.values@ == self.values@,
            r.oracle.n_vars == self.n_vars,
            r.prefix@ == prefix@,
    {
        RestrictedColumn { oracle: self.clone_oracle(), prefix: prefix.clone() }
    }

    fn clone_oracle(&self) -> (o: Self)
        ensures
            o.values@ == self.values@,
            o.n_vars == self.n_vars,
    {
        let values = self.values.clone();
        proof {
            assert(values@ == self.values@);
        }
        ColumnOracle { values, n_vars: self.n_vars }
    }

    /// The value at `prefix` followed by `suffix`.
    pub fn eval_bound(&self, prefix: &Vec<u32>, suffix: &Vec<u32>) -> (r: u32)
        requires
            self.wf(),
            prefix@.len() + suffix@.len() == self.n_vars,
            all_fe(prefix@),
            all_fe(suffix@),
        ensures
            r == mle(self.values@, prefix@ + suffix@),
    {
        self.bind_prefix(prefix).eval(suffix)
    }
}

pub proof fn lemma_log2_le(n: nat)
    ensures
        log2(n) <= n,
    decreases n,
{
    if n > 1 {
        lemma_log2_le(n / 2);
    }
}

/// `floor(log2(n))` for a power of two `n`.
pub fn ilog2(n: usize) -> (k: usize)
    requires
        is_pow2(n as nat),
    ensures
        k == log2(n as nat),
{
    let mut t = n;
    let mut k: usize = 0;
    proof {
        lemma_log2_le(n as nat);
    }
    while t > 1
        invariant
            is_pow2(t as nat),
            k + log2(t as nat) == log2(n as nat),
            log2(n as nat) <= n,
        decreases t,
    {
        t = t / 2;
        k = k + 1;
    }
    k
}

impl MleOracle for ColumnOracle {
    open spec fn spec_n_vars(&self) -> nat {
        self.n_vars as nat
    }

    open spec fn spec_eval(&self, point: Seq<u32>) -> int {
        mle(self.values@, point)
    }

    open spec fn oracle_wf(&self) -> bool {
        self.wf()
    }

    fn n_vars(&self) -> (r: usize) {
        self.n_vars
    }

    fn eval(&self, point: &Vec<u32>) -> (r: u32) {
        evaluate_mle(&self.values, point)
    }
}

/// A column oracle with its first coordinates fixed.
pub struct RestrictedColumn {
    pub oracle: ColumnOracle,
    pub prefix: Vec<u32>,
}

/// An oracle with its first coordinates fixed, read on the rest.
pub trait Restricted {
    /// The number of coordinates still free.
    spec fn spec_remaining(&self) -> nat;

    /// The fixed prefix fits the oracle.
    spec fn in_range(&self) -> bool;

    /// The oracle can be read.
    spec fn can_eval(&self) -> bool;

    /// The value at the fixed prefix followed by `suffix`.
    spec fn spec_eval_suffix(&self, suffix: Seq<u32>) -> int;

    fn remaining_vars(&self) -> (r: usize)
        requires
            self.in_range(),
        ensures
            r == self.spec_remaining(),
    ;

    fn eval(&self, suffix: &Vec<u32>) -> (r: u32)
        requires
            self.can_eval(),
            suffix@.len() == self.spec_remaining(),
            all_fe(suffix@),
        ensures
            r == self.spec_eval_suffix(suffix@),
    ;
}

impl Restricted for RestrictedColumn {
    open spec fn spec_remaining(&self) -> nat {
        (self.oracle.n_vars - self.prefix@.len()) as nat
    }

    open spec fn in_range(&self) -> bool {
        self.prefix@.len() <= self.oracle.n_vars
    }

    open spec fn can_eval(&self) -> bool {
        &&& self.in_range()
        &&& self.oracle.wf()
        &&& all_fe(self.prefix@)
    }

    open spec fn spec_eval_suffix(&self, suffix: Seq<u32>) -> int {
        mle(self.oracle.values@, self.prefix@ + suffix)
    }

    fn remaining_vars(&self) -> (r: usize) {
        self.oracle.n_vars - self.prefix.len()
    }

    fn eval(&self, suffix: &Vec<u32>) -> (r: u32) {
        let mut full = self.prefix.clone();
        let mut i: usize = 0;
        assert(full@ == self.prefix@);
        while i < suffix.len()
            invariant
                i <= suffix@.len(),
                full@ == self.prefix@ + suffix@.take(i as int),
            decreases suffix@.len() - i,
        {
            full.push(suffix[i]);
            assert(suffix@.take(i as int + 1) =~= suffix@.take(i as int).push(suffix@[i as int]));
            i = i + 1;
        }
        assert(suffix@.take(suffix@.len() as int) =~= suffix@);
        assert(all_fe(full@));
        self.oracle.eval(&full)
    }
}

} // verus!
