use tscp::combination::{ConstraintOracle as OracleOfConstraint, LinearCombination};
use tscp::constraint::lww::{lww_constraints, LwwBooleanity, LwwTimestamp, LwwValue};
use tscp::constraint::{AIRMorphism, CompositeConstraint, Constraint};
use tscp::constraint_oracle::ConstraintOracle;
use tscp::field::P;
use tscp::oracle::{ColumnOracle, MleOracle};

#[test]
fn lww_constraint_passes_on_valid_trace() {
    // S=1, v_curr=5, v_event=7, v_next=7, ts_curr=10, ts_event=12, ts_next=12
    let vars: Vec<u32> = vec![5, 10, 7, 12, 7, 12, 1];
    let composite = lww_constraints();
    let result = composite.evaluate(&vars);
    assert_eq!(result, 0, "Valid LWW row should yield zero");
}

#[test]
fn lww_constraint_fails_on_invalid_value() {
    // Same but v_next != v_event (99 instead of 7) -> should fail
    let vars: Vec<u32> = vec![5, 10, 7, 12, 99, 12, 1];
    let composite = lww_constraints();
    let result = composite.evaluate(&vars);
    assert_ne!(result, 0, "Invalid row should NOT yield zero");
}

#[test]
fn lww_rules_take_the_current_entry_when_the_selector_is_zero() {
    let keep: Vec<u32> = vec![5, 10, 7, 12, 5, 10, 0];
    assert_eq!(lww_constraints().evaluate(&keep), 0);
    // the value rule alone: 0 * (5 - 7) + 1 * (6 - 5) = 1
    let off: Vec<u32> = vec![5, 10, 7, 12, 6, 10, 0];
    assert_eq!(LwwValue.evaluate(&off), 1);
    assert_eq!(LwwTimestamp.evaluate(&off), 0);
    // a selector of 2 breaks booleanity: 2 * (1 - 2) = -2
    let two: Vec<u32> = vec![5, 10, 7, 12, 7, 12, 2];
    assert_eq!(LwwBooleanity.evaluate(&two), P - 2);
    assert_eq!(LwwBooleanity.arity(), 7);
}

#[test]
fn composite_is_the_sum_of_squares() {
    // value rule gives 1 (see above), the others 0
    let off: Vec<u32> = vec![5, 10, 7, 12, 6, 10, 0];
    assert_eq!(lww_constraints().evaluate(&off), 1);
    // booleanity -2 squared is 4; value rule with s = 2: 2*(7-7) + (1-2)*(7-5) = -2, squared 4;
    // timestamp: 2*(12-12) + (1-2)*(12-10) = -2, squared 4
    let two: Vec<u32> = vec![5, 10, 7, 12, 7, 12, 2];
    assert_eq!(lww_constraints().evaluate(&two), 12);
    assert_eq!(lww_constraints().arity(), 7);
    let empty: CompositeConstraint<LwwValue> = CompositeConstraint { constraints: vec![] };
    assert_eq!(empty.arity(), 0);
    assert_eq!(empty.evaluate(&off), 0);
}

#[test]
fn air_morphism_carries_its_constraint() {
    let m = AIRMorphism { name: "lww".to_string(), constraint: lww_constraints(), shift: 31 };
    assert_eq!(m.name, "lww");
    assert_eq!(m.shift, 31);
    assert_eq!(m.constraint.evaluate(&[5, 10, 7, 12, 7, 12, 1]), 0);
}

fn lww_trace() -> Vec<Vec<u32>> {
    vec![
        vec![5, 10, 7, 12, 7, 12, 1],
        vec![5, 10, 7, 12, 99, 12, 1],
        vec![5, 10, 7, 12, 5, 10, 0],
        vec![5, 10, 7, 12, 6, 10, 0],
    ]
}

#[test]
fn constraint_oracle_reads_the_row_the_bits_address() {
    let o = ConstraintOracle::new(lww_trace(), lww_constraints());
    assert_eq!(o.n_vars(), 2);
    assert_eq!(o.eval(&vec![0, 0]), 0);
    assert_ne!(o.eval(&vec![1, 0]), 0);
    assert_eq!(o.eval(&vec![0, 1]), 0);
    assert_eq!(o.eval(&vec![1, 1]), 1);
}

#[test]
fn constraint_oracle_variables_round_up() {
    let mut t = lww_trace();
    t.push(vec![5, 10, 7, 12, 7, 12, 1]);
    let o = ConstraintOracle::new(t, lww_constraints());
    assert_eq!(o.n_vars(), 3);
    let o1 = ConstraintOracle::new(vec![vec![0, 0, 0, 0, 0, 0, 0]], lww_constraints());
    assert_eq!(o1.n_vars(), 0);
    let o0 = ConstraintOracle::new(vec![], lww_constraints());
    assert_eq!(o0.n_vars(), 0);
}

#[test]
fn linear_combination_weights_each_oracle() {
    // two one-variable columns: (1, 3) and (2, 10); at 0 and 1 they read the table
    let a = ColumnOracle { values: vec![1, 3], n_vars: 1 };
    let b = ColumnOracle { values: vec![2, 10], n_vars: 1 };
    let lc = LinearCombination { oracles: vec![a.clone(), b.clone()], coeffs: vec![3, 4] };
    assert_eq!(OracleOfConstraint::n_vars(&lc), 1);
    // at 1: 3 * 3 + 4 * 10
    assert_eq!(OracleOfConstraint::eval(&lc, &[1]), 49);
    // at 2: a = 1 + 2 * 2 = 5, b = 2 + 8 * 2 = 18; 3 * 5 + 4 * 18 = 87
    assert_eq!(OracleOfConstraint::eval(&lc, &[2]), 87);
    // the shorter list decides: one coefficient, one term
    let short = LinearCombination { oracles: vec![a, b], coeffs: vec![3] };
    assert_eq!(OracleOfConstraint::eval(&short, &[1]), 9);
}

#[test]
fn every_invalid_row_breaks_some_rule() {
    let rows: Vec<Vec<u32>> = vec![
        vec![5, 10, 7, 12, 5, 10, 1],
        vec![5, 10, 7, 12, 7, 12, 0],
        vec![5, 10, 7, 12, 7, 10, 1],
        vec![5, 10, 7, 12, 5, 12, 0],
        vec![5, 10, 7, 12, 6, 11, P - 1],
    ];
    for r in rows.iter() {
        let nonzero = LwwBooleanity.evaluate(r) != 0 || LwwValue.evaluate(r) != 0 || LwwTimestamp.evaluate(r) != 0;
        assert!(nonzero, "row {:?} must break a rule", r);
    }
}
