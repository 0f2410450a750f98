//! Polynomial constraints evaluated on a trace row, and their composition
//! into a single constraint that vanishes exactly when each part does.
use vstd::prelude::*;
use crate::field::{P, fadd, fmul, fe_add, fe_mul};

pub mod lww;

verus! {

/// A multivariate constraint evaluated on a trace row.
pub trait Constraint {
    /// The number of variables the constraint reads.
    spec fn spec_arity(&self) -> nat;

    /// The rows the constraint can be evaluated on.
    spec fn admits(&self, vars: Seq<u32>) -> bool;

    /// The value of the constraint on a row, a field element.
    spec fn spec_evaluate(&self, vars: Seq<u32>) -> int;

    /// Number of variables this constraint expects.
    fn arity(&self) -> (n: usize)
        ensures
            n == self.spec_arity(),
    ;

    /// Evaluate the constraint on a row.
    fn evaluate(&self, vars: &[u32]) -> (r: u32)
        requires
            self.admits(vars@),
        ensures
            r < P,
            r == self.spec_evaluate(vars@),
    ;
}

/// A constraint made of several: the sum of their squares.
pub struct CompositeConstraint<C: Constraint> {
    pub constraints: Vec<C>,
}

/// The sum of the squares of the first `k` constraints on `vars`.
pub open spec fn sum_of_squares<C: Constraint>(cs: Seq<C>, vars: Seq<u32>, k: nat) -> int
    decreases k,
{
    if k == 0 {
        0
    } else {
        let v = cs[k - 1].spec_evaluate(vars);
        fadd(sum_of_squares(cs, vars, (k - 1) as nat), fmul(v, v))
    }
}

impl<C: Constraint> Constraint for CompositeConstraint<C> {
    /// The arity of the first constraint (0 when there is none).
    open spec fn spec_arity(&self) -> nat {
        if self.constraints@.len() == 0 {
            0
        } else {
            self.constraints@[0].spec_arity()
        }
    }

    open spec fn admits(&self, vars: Seq<u32>) -> bool {
        forall|i: int| 0 <= i < self.constraints@.len() ==> #[trigger] self.constraints@[i].admits(vars)
    }

    open spec fn spec_evaluate(&self, vars: Seq<u32>) -> int {
        sum_of_squares(self.constraints@, vars, self.constraints@.len())
    }

    fn arity(&self) -> (n: usize) {
        if self.constraints.len() == 0 {
            0
        } else {
            self.constraints[0].arity()
        }
    }

    fn evaluate(&self, vars: &[u32]) -> (r: u32) {
        let mut sum: u32 = 0;
        let mut i: usize = 0;
        while i < self.constraints.len()
            invariant
                i <= self.constraints@.len(),
                sum < P,
                sum == sum_of_squares(self.constraints@, vars@, i as nat),
                forall|j: int| 0 <= j < self.constraints@.len() ==> #[trigger] self.constraints@[j].admits(vars@),
            decreases self.constraints@.len() - i,
        {
            let val = self.constraints[i].evaluate(vars);
            sum = fe_add(sum, fe_mul(val, val));
            i = i + 1;
        }
        sum
    }
}

/// An AIR morphism: a named constraint with the shift (a multiplicative
/// generator of the subgroup) it is applied under.
pub struct AIRMorphism<C: Constraint> {
    pub name: String,
    pub constraint: C,
    pub shift: u32,
}

} // verus!
