//! Load generation for stress runs: dense four-column traces and many
//! column oracles over one shared trace.
use vstd::prelude::*;
use std::sync::Arc;
use crate::field::{P, modulus, fe_from_u64};
use crate::fft::is_pow2;
use crate::matrix::RowMajorMatrix;
use crate::oracle::ColumnOracle;

verus! {

/// Generates adversarial loads bounded by `max_rows` rows and `max_arity`
/// columns.
pub struct AdversarialLoadGenerator {
    pub max_rows: usize,
    pub max_arity: usize,
}

/// The smaller of two counts.
pub open spec fn min_count(a: nat, b: nat) -> nat {
    if a <= b {
        a
    } else {
        b
    }
}

/// The multiplier of column `k` of a dense trace: 1, 3, 7, 11.
pub open spec fn density_multiplier(k: int) -> int {
    if k == 0 {
        1
    } else if k == 1 {
        3
    } else if k == 2 {
        7
    } else {
        11
    }
}

impl AdversarialLoadGenerator {
    pub fn new(max_rows: usize, max_arity: usize) -> (g: Self)
        ensures
            g.max_rows == max_rows,
            g.max_arity == max_arity,
    {
        AdversarialLoadGenerator { max_rows, max_arity }
    }

    /// A trace of `min(rows, max_rows)` rows and four columns, row `i`
    /// holding `i, 3i, 7i, 11i` in the field.
    pub fn high_density_trace(&self, rows: usize) -> (t: Arc<RowMajorMatrix>)
        requires
            min_count(rows as nat, self.max_rows as nat) * 11 <= usize::MAX,
        ensures
            t.width == 4,
            t.wf(),
            t.values@.len() == 4 * min_count(rows as nat, self.max_rows as nat),
            forall|i: int, k: int| 0 <= i < min_count(rows as nat, self.max_rows as nat) && 0 <= k < 4
                ==> #[trigger] t.values@[i * 4 + k] == (i * density_multiplier(k)) % modulus(),
    {
        let n = if rows <= self.max_rows { rows } else { self.max_rows };
        let mut data: Vec<u32> = Vec::new();
        let mut i: usize = 0;
        while i < n
            invariant
                n == min_count(rows as nat, self.max_rows as nat),
                n * 11 <= usize::MAX,
                i <= n,
                data@.len() == 4 * i,
                forall|j: int| 0 <= j < data@.len() ==> #[trigger] data@[j] < P,
                forall|r: int, k: int| 0 <= r < i && 0 <= k < 4 ==> #[trigger] data@[r * 4 + k] == (r * density_multiplier(k)) % modulus(),
            decreases n - i,
        {
            let ghost before = data@;
            data.push(fe_from_u64(i as u64));
            data.push(fe_from_u64((i * 3) as u64));
            data.push(fe_from_u64((i * 7) as u64));
            data.push(fe_from_u64((i * 11) as u64));
            proof {
                assert forall|r: int, k: int| 0 <= r < i + 1 && 0 <= k < 4 implies #[trigger] data@[r * 4 + k] == (r * density_multiplier(k)) % modulus() by {
                    if r < i {
                        assert(r * 4 + k < 4 * i) by (nonlinear_arith)
                            requires r < i, 0 <= k < 4;
                        assert(data@[r * 4 + k] == before[r * 4 + k]);
                    } else {
                        assert(r * 4 + k == 4 * i + k);
                    }
                }
            }
            i = i + 1;
        }
        proof {
            assert(data@.len() as int % 4 == 0);
        }
        Arc::new(RowMajorMatrix::new(data, 4))
    }

    /// `min(max_arity, 32)` oracles over the trace, oracle `i` reading
    /// column `i mod width`.
    pub fn high_arity_columns(&self, trace: Arc<RowMajorMatrix>) -> (cols: Vec<ColumnOracle>)
        requires
            trace.wf(),
            is_pow2(trace.spec_height()),
        ensures
            cols@.len() == min_count(self.max_arity as nat, 32),
            forall|i: int| 0 <= i < cols@.len() ==> (#[trigger] cols@[i]).wf()
                && cols@[i].values@ == trace.column(i % trace.width as int),
    {
        let n = if self.max_arity <= 32 { self.max_arity } else { 32 };
        let width = trace.width();
        let mut cols: Vec<ColumnOracle> = Vec::new();
        let mut i: usize = 0;
        while i < n
            invariant
                trace.wf(),
                is_pow2(trace.spec_height()),
                width == trace.width,
                n == min_count(self.max_arity as nat, 32),
                i <= n,
                cols@.len() == i,
                forall|j: int| 0 <= j < i ==> (#[trigger] cols@[j]).wf() && cols@[j].values@ == trace.column(j % trace.width as int),
            decreases n - i,
        {
            let c = ColumnOracle::new(trace.clone(), i % width);
            cols.push(c);
            i = i + 1;
        }
        cols
    }
}

} // verus!
