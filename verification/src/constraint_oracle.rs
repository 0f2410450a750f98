//! A constraint over a trace, read as an oracle on the hypercube: the
//! Boolean point with bits `b_0, b_1, ...` addresses the row
//! `sum b_i 2^i`, and the oracle's value there is the constraint on that
//! row.
use vstd::prelude::*;
use vstd::arithmetic::power2::{pow2, lemma_pow2_unfold};

use crate::fft::is_pow2;
use crate::oracle::{MleOracle, log2, lemma_log2_pow2};
use crate::constraint::Constraint;

verus! {

/// The least `k` with `2^k >= n` (0 for `n <= 1`).
pub open spec fn ceil_log2(n: nat) -> nat
    decreases n,
{
    if n <= 1 {
        0
    } else {
        1 + ceil_log2(((n + 1) / 2) as nat)
    }
}

/// The row addressed by the first `k` coordinates of `point`: coordinate
/// `i` adds `2^i` when it is one.
pub open spec fn row_index(point: Seq<u32>, k: nat) -> nat
    decreases k,
{
    if k == 0 {
        0
    } else {
        row_index(point, (k - 1) as nat) + if point[k - 1] == 1 {
            pow2((k - 1) as nat)
        } else {
            0
        }
    }
}

proof fn lemma_row_index_bound(point: Seq<u32>, k: nat)
    ensures
        row_index(point, k) < pow2(k),
    decreases k,
{
    if k > 0 {
        lemma_row_index_bound(point, (k - 1) as nat);
        lemma_pow2_unfold(k);
    } else {
        vstd::arithmetic::power2::lemma2_to64();
    }
}

/// For a power of two the ceiling logarithm is the logarithm.
pub proof fn lemma_ceil_log2_pow2(n: nat)
    requires
        is_pow2(n),
    ensures
        ceil_log2(n) == log2(n),
    decreases n,
{
    if n > 1 {
        assert((n + 1) / 2 == n / 2);
        lemma_ceil_log2_pow2(n / 2);
    }
}

/// A constraint evaluated over the rows of a trace.
pub struct ConstraintOracle<C: Constraint> {
    pub trace: Vec<Vec<u32>>,
    pub constraint: C,
}

impl<C: Constraint> ConstraintOracle<C> {
    pub fn new(trace: Vec<Vec<u32>>, constraint: C) -> (o: Self)
        ensures
            o.trace == trace,
            o.constraint == constraint,
    {
        ConstraintOracle { trace, constraint }
    }

    /// The rows, as sequences.
    pub open spec fn rows(&self) -> Seq<Seq<u32>> {
        self.trace@.map_values(|r: Vec<u32>| r@)
    }
}

impl<C: Constraint> MleOracle for ConstraintOracle<C> {
    /// The number of bits that address the rows.
    open spec fn spec_n_vars(&self) -> nat {
        ceil_log2(self.trace@.len())
    }

    open spec fn spec_eval(&self, point: Seq<u32>) -> int {
        self.constraint.spec_evaluate(self.trace@[row_index(point, point.len()) as int]@)
    }

    /// A power-of-two number of rows, each one the constraint admits.
    open spec fn oracle_wf(&self) -> bool {
        &&& is_pow2(self.trace@.len())
        &&& forall|i: int| 0 <= i < self.trace@.len() ==> self.constraint.admits(#[trigger] self.trace@[i]@)
    }

    fn n_vars(&self) -> (r: usize) {
        let rows = self.trace.len();
        let mut m: usize = rows;
        let mut k: usize = 0;
        while m > 1
            invariant
                k + ceil_log2(m as nat) == ceil_log2(rows as nat),
                k <= rows - m,
                m <= rows,
            decreases m,
        {
            let ghost m0 = m;
            m = m / 2 + m % 2;
            assert(m == (m0 + 1) / 2);
            k = k + 1;
        }
        k
    }

    fn eval(&self, point: &Vec<u32>) -> (r: u32) {
        let n = point.len();
        proof {
            lemma_ceil_log2_pow2(self.trace@.len());
            lemma_log2_pow2(self.trace@.len());
        }
        let len = self.trace.len();
        let mut index: usize = 0;
        let mut pw: usize = 1;
        let mut i: usize = 0;
        proof {
            vstd::arithmetic::power2::lemma2_to64();
        }
        while i < n
            invariant
                n == point@.len(),
                pow2(n as nat) == len,
                len == self.trace@.len(),
                i <= n,
                pw == pow2(i as nat),
                index == row_index(point@, i as nat),
            decreases n - i,
        {
            proof {
                lemma_row_index_bound(point@, i as nat);
                lemma_pow2_unfold((i + 1) as nat);
                if i + 1 < n {
                    vstd::arithmetic::power2::lemma_pow2_strictly_increases((i + 1) as nat, n as nat);
                }
            }
            if point[i] == 1 {
                index = index + pw;
            }
            if i + 1 < n {
                pw = pw * 2;
            } else {
                pw = len;
            }
            i = i + 1;
        }
        proof {
            lemma_row_index_bound(point@, n as nat);
        }
        let row = &self.trace[index];
        self.constraint.evaluate(row.as_slice())
    }
}

} // verus!
