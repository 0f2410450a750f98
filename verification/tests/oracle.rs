use std::sync::Arc;
use tscp::field::{fe_add, fe_mul, fe_sub, P};
use tscp::folded::{FoldedOracle, FoldedOracleBuilder};
use tscp::matrix::RowMajorMatrix;
use tscp::oracle::{evaluate_mle, ColumnOracle, MleOracle, Restricted};

fn cube_point(idx: usize, n: usize) -> Vec<u32> {
    (0..n).map(|b| if (idx >> b) & 1 == 1 { 1 } else { 0 }).collect()
}

#[test]
fn oracle_lift_end_to_end() {
    let col0 = vec![0, 1, 0, 1];
    let col1 = vec![0, 1, 1, 0];
    let n_vars = 2;
    let alpha = 5;
    let folded = FoldedOracleBuilder::new(vec![col0, col1], n_vars).absorb_challenge(alpha).build();
    let claim = (0..4).map(|i| folded.eval(&cube_point(i, 2))).fold(0, fe_add);
    assert!(claim != 0);
}

#[test]
fn mle_agrees_with_the_table_on_the_cube() {
    let values = vec![3, 1, 4, 1, 5, 9, 2, 6];
    for idx in 0..8 {
        assert_eq!(evaluate_mle(&values, &cube_point(idx, 3)), values[idx]);
    }
}

#[test]
fn mle_is_linear_interpolation_in_one_variable() {
    // f(0) = 10, f(1) = 20: f(r) = 10 + 10 r
    let values = vec![10, 20];
    assert_eq!(evaluate_mle(&values, &vec![5]), 60);
    assert_eq!(evaluate_mle(&values, &vec![P - 1]), 0);
}

#[test]
fn mle_of_two_variables_at_an_outside_point() {
    // values indexed by bit0 = x0, bit1 = x1
    // f = 1*(1-x0)(1-x1) + 2*x0(1-x1) + 3*(1-x0)x1 + 4*x0 x1 = 1 + x0 + 2 x1
    let values = vec![1, 2, 3, 4];
    assert_eq!(evaluate_mle(&values, &vec![7, 11]), 1 + 7 + 22);
}

#[test]
fn column_oracle_reads_a_column() {
    let trace = RowMajorMatrix::new(vec![1, 2, 3, 4, 5, 6, 7, 8], 2);
    let o = ColumnOracle::from_matrix(&trace, 1);
    assert_eq!(o.values, vec![2, 4, 6, 8]);
    assert_eq!(o.n_vars(), 2);
    assert_eq!(o.eval(&vec![1, 1]), 8);
    let o2 = ColumnOracle::new(Arc::new(trace), 0);
    assert_eq!(o2.raw_column(), vec![1, 3, 5, 7]);
    // fixing the first coordinate to 1 leaves the odd rows
    let bound = o2.bind_prefix(&vec![1]);
    assert_eq!(bound.remaining_vars(), 1);
    assert_eq!(bound.eval(&vec![0]), 3);
    assert_eq!(bound.eval(&vec![1]), 7);
    assert_eq!(o2.eval_bound(&vec![0], &vec![1]), 5);
}

#[test]
fn folded_oracle_is_the_weighted_sum() {
    let folded = FoldedOracleBuilder::new(vec![vec![1, 2], vec![3, 4]], 1).absorb_challenge(10).build();
    assert_eq!(folded.values, vec![31, 42]);
    assert_eq!(folded.alpha, 10);
    assert_eq!(folded.n_vars(), 1);
}

#[test]
fn fold_bind_commutation_law_holds() {
    let oracles = vec![vec![1, 2, 3, 4, 5, 6, 7, 8], vec![8, 7, 6, 5, 4, 3, 2, 1], vec![0, 0, 1, 1, 2, 2, 3, 3]];
    assert!(FoldedOracle::test_commutation_law(&oracles, 9, &vec![5], 3));
    assert!(FoldedOracle::test_commutation_law(&oracles, 2, &vec![5, 6], 3));
    assert!(FoldedOracle::test_commutation_law(&oracles, 2, &vec![], 3));
}

#[test]
fn bind_prefix_of_folded_matches_manual_evaluation() {
    let folded = FoldedOracleBuilder::new(vec![vec![1, 2, 3, 4], vec![5, 6, 7, 8]], 2).absorb_challenge(3).build();
    let bound = folded.bind_prefix(&vec![4]);
    assert_eq!(bound.len(), 2);
    for idx in 0..2 {
        let mut full = vec![4];
        full.extend(cube_point(idx, 1));
        assert_eq!(bound[idx], folded.eval(&full));
    }
    // the folded table is 1+3*5, 2+3*6, ...
    assert_eq!(folded.values, vec![16, 20, 24, 28]);
    // value at (4, 0): rows 0 and 1 interpolated: 16 + 4*(20-16)
    assert_eq!(bound[0], fe_add(16, fe_mul(4, fe_sub(20, 16))));
}
