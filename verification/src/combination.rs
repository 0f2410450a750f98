//! Oracles over a point of the hypercube, and their linear combinations.
use vstd::prelude::*;

use crate::field::{P, all_fe, fadd, fmul, fe_add, fe_mul};
use crate::oracle::{ColumnOracle, mle, evaluate_mle};
use crate::fri_query::copy_slice;

verus! {

/// An oracle answering the value of a constraint polynomial at a point.
pub trait ConstraintOracle {
    /// The number of variables.
    spec fn spec_n_vars(&self) -> nat;

    /// The value at `point`.
    spec fn spec_eval(&self, point: Seq<u32>) -> int;

    /// The oracle can be queried.
    spec fn oracle_wf(&self) -> bool;

    fn n_vars(&self) -> (n: usize)
        requires
            self.oracle_wf(),
        ensures
            n == self.spec_n_vars(),
    ;

    fn eval(&self, point: &[u32]) -> (r: u32)
        requires
            self.oracle_wf(),
            point@.len() == self.spec_n_vars(),
            all_fe(point@),
        ensures
            r < P,
            r == self.spec_eval(point@),
    ;
}

/// `sum_i coeffs[i] * oracles[i]`, over the pairs of oracle and
/// coefficient (the shorter list decides how many).
pub struct LinearCombination<O: ConstraintOracle> {
    pub oracles: Vec<O>,
    pub coeffs: Vec<u32>,
}

/// The number of terms of a combination.
pub open spec fn term_count<O: ConstraintOracle>(c: LinearCombination<O>) -> nat {
    if c.oracles@.len() <= c.coeffs@.len() {
        c.oracles@.len()
    } else {
        c.coeffs@.len()
    }
}

/// The sum of the first `k` terms at `point`.
pub open spec fn combination_sum<O: ConstraintOracle>(os: Seq<O>, cs: Seq<u32>, point: Seq<u32>, k: nat) -> int
    decreases k,
{
    if k == 0 {
        0
    } else {
        fadd(combination_sum(os, cs, point, (k - 1) as nat), fmul(cs[k - 1] as int, os[k - 1].spec_eval(point)))
    }
}

impl<O: ConstraintOracle> ConstraintOracle for LinearCombination<O> {
    /// The variables of the first oracle.
    open spec fn spec_n_vars(&self) -> nat {
        self.oracles@[0].spec_n_vars()
    }

    open spec fn spec_eval(&self, point: Seq<u32>) -> int {
        combination_sum(self.oracles@, self.coeffs@, point, term_count(*self))
    }

    /// At least one oracle, all of them well formed over the same number of
    /// variables, and field coefficients.
    open spec fn oracle_wf(&self) -> bool {
        &&& self.oracles@.len() > 0
        &&& all_fe(self.coeffs@)
        &&& forall|i: int| 0 <= i < self.oracles@.len() ==> (#[trigger] self.oracles@[i]).oracle_wf()
            && self.oracles@[i].spec_n_vars() == self.oracles@[0].spec_n_vars()
    }

    fn n_vars(&self) -> (n: usize) {
        self.oracles[0].n_vars()
    }

    fn eval(&self, point: &[u32]) -> (r: u32) {
        let n = if self.oracles.len() <= self.coeffs.len() {
            self.oracles.len()
        } else {
            self.coeffs.len()
        };
        let mut acc: u32 = 0;
        let mut i: usize = 0;
        while i < n
            invariant
                self.oracle_wf(),
                n == term_count(*self),
                point@.len() == self.spec_n_vars(),
                all_fe(point@),
                i <= n,
                acc < P,
                acc == combination_sum(self.oracles@, self.coeffs@, point@, i as nat),
            decreases n - i,
        {
            let v = self.oracles[i].eval(point);
            acc = fe_add(acc, fe_mul(self.coeffs[i], v));
            i = i + 1;
        }
        acc
    }
}

/// A column's multilinear extension answers as a constraint oracle.
impl ConstraintOracle for ColumnOracle {
    open spec fn spec_n_vars(&self) -> nat {
        self.n_vars as nat
    }

    open spec fn spec_eval(&self, point: Seq<u32>) -> int {
        mle(self.values@, point)
    }

    open spec fn oracle_wf(&self) -> bool {
        self.wf()
    }

    fn n_vars(&self) -> (n: usize) {
        self.n_vars
    }

    fn eval(&self, point: &[u32]) -> (r: u32) {
        let p = copy_slice(point);
        evaluate_mle(&self.values, &p)
    }
}

} // verus!
