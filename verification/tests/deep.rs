use tscp::deep_ali::{DeepAliError, SoundnessAccumulator};
use tscp::deep_verifier::{DeepAliVerifier, 
    combine_quotients, eval_poly_horner, AlgebraicLink, BabyBearDeepAli, DeepQuery, DeepResponse, TraceEvaluator,
};
use tscp::fft::Radix2Interpolator;
use tscp::field::{fe_add, fe_inv, fe_mul, fe_sub, P};
use tscp::lagrange::{divide_by_linear, interpolate_lagrange_naive};
use tscp::matrix::RowMajorMatrix;
use tscp::transcript::DeepTranscript;

#[test]
fn lagrange_interpolation_passes_through_the_points() {
    let evals = vec![5, 9, 1, 20];
    let c = interpolate_lagrange_naive(&evals).unwrap();
    assert_eq!(c.len(), 4);
    for (m, &e) in evals.iter().enumerate() {
        assert_eq!(eval_poly_horner(&c, m as u32), e);
    }
}

#[test]
fn lagrange_interpolation_recovers_a_line() {
    // 3 + 2x through (0,3), (1,5), (2,7)
    let c = interpolate_lagrange_naive(&[3, 5, 7]).unwrap();
    assert_eq!(c, vec![3, 2, 0]);
}

#[test]
fn lagrange_interpolation_of_nothing_fails() {
    match interpolate_lagrange_naive(&[]) {
        Err(DeepAliError::InterpolationFailure { reason }) => assert_eq!(reason, "empty evaluation vector"),
        _ => panic!("expected an interpolation failure"),
    }
}

#[test]
fn division_by_linear_leaves_the_value() {
    // c = 1 + 2x + 3x^2, z = 5: c(x) = (x - 5) q(x) + c(5)
    let c = vec![1, 2, 3];
    let q = divide_by_linear(&c, 5);
    assert_eq!(q, vec![17, 3]);
    for x in [0u32, 1, 7, 100] {
        let lhs = eval_poly_horner(&c, x);
        let rhs = fe_add(fe_mul(fe_sub(x, 5), eval_poly_horner(&q, x)), eval_poly_horner(&c, 5));
        assert_eq!(lhs, rhs);
    }
}

fn trace() -> RowMajorMatrix {
    // two columns, four rows: col0 = x, col1 = x^2
    RowMajorMatrix::new(vec![0, 0, 1, 1, 2, 4, 3, 9], 2)
}

#[test]
fn trace_evaluator_extends_columns() {
    let ev = TraceEvaluator::from_trace(&trace()).unwrap();
    assert_eq!(ev.evaluate_column(0, 10).unwrap(), 10);
    assert_eq!(ev.evaluate_column(1, 10).unwrap(), 100);
    assert_eq!(ev.evaluate_columns(&[1, 0], 6).unwrap(), vec![36, 6]);
    assert_eq!(ev.evaluate_shifted(1, 2, 3).unwrap(), 25);
    match ev.evaluate_column(2, 10) {
        Err(DeepAliError::TraceEvaluationFailure { column, point, reason }) => {
            assert_eq!(column, 2);
            assert_eq!(point, "10");
            assert_eq!(reason, "column index out of bounds (max 2)");
        }
        _ => panic!("expected a trace evaluation failure"),
    }
    assert!(ev.evaluate_columns(&[0, 5], 1).is_err());
}

#[test]
fn trace_evaluator_rejects_an_empty_trace() {
    let t = RowMajorMatrix::new(vec![], 3);
    assert!(matches!(TraceEvaluator::from_trace(&t), Err(DeepAliError::InterpolationFailure { .. })));
}

#[test]
fn single_quotient_divides_by_x_minus_z() {
    let ali = BabyBearDeepAli::new(8, 2);
    let q = ali.compute_single_quotient(&trace(), &DeepQuery { point: 10, trace_index: 0, column_index: 1 }).unwrap();
    // x^2 = (x - 10)(x + 10) + 100
    assert_eq!(q, vec![10, 1, 0]);
}

fn link(numerator: Vec<u32>, denominator: u32, columns: Vec<usize>, shifts: Vec<usize>) -> AlgebraicLink {
    AlgebraicLink { constraint_index: 3, numerator, denominator, deep_point: 10, involved_columns: columns, shifts }
}

#[test]
fn air_constraint_uses_the_numerator_or_the_column_sum() {
    let ali = BabyBearDeepAli::new(8, 2);
    // sum of col0(10) + col1(10) = 110, divided by 11
    let v = ali.evaluate_air_constraint(&trace(), &link(vec![], 11, vec![0, 1], vec![0, 0])).unwrap();
    assert_eq!(v, 10);
    // col1 at 10 + 1 = 121
    let v = ali.evaluate_air_constraint(&trace(), &link(vec![], 1, vec![1], vec![1])).unwrap();
    assert_eq!(v, 121);
    // numerator 1 + x at 10 = 11, divided by 2
    let v = ali.evaluate_air_constraint(&trace(), &link(vec![1, 1], 2, vec![0], vec![0])).unwrap();
    assert_eq!(v, fe_mul(11, fe_inv(2)));
}

#[test]
fn air_constraint_errors() {
    let ali = BabyBearDeepAli::new(8, 2);
    match ali.evaluate_air_constraint(&trace(), &link(vec![], 1, vec![5], vec![0])) {
        Err(DeepAliError::InvalidDeepPoint { point, reason }) => {
            assert_eq!(point, "10");
            assert_eq!(reason, "constraint references column 5 out of bounds");
        }
        _ => panic!("expected an invalid point"),
    }
    match ali.evaluate_air_constraint(&trace(), &link(vec![], 0, vec![0], vec![0])) {
        Err(DeepAliError::InvalidDeepPoint { reason, .. }) => {
            assert_eq!(reason, "DEEP point lies in trace domain (vanishing polynomial is zero)")
        }
        _ => panic!("expected an invalid point"),
    }
    let wide = BabyBearDeepAli::new(8, 5);
    assert!(matches!(
        wide.evaluate_air_constraint(&trace(), &link(vec![], 1, vec![4], vec![0])),
        Err(DeepAliError::TraceEvaluationFailure { column: 4, .. })
    ));
}

#[test]
fn deep_batch_accepts_vanishing_links_and_spends_the_budget() {
    let ali = BabyBearDeepAli::new(8, 2);
    let mut acc = SoundnessAccumulator::new(128);
    let mut ch = DeepTranscript::new();
    let q = DeepResponse { value: 5, query: DeepQuery { point: 10, trace_index: 0, column_index: 0 } };
    // numerator P - 10 + x vanishes at 10
    let l = link(vec![P - 10, 1], 1, vec![0], vec![0]);
    assert_eq!(ali.verify_deep_batch(&trace(), &(), &[q, q], &[l], &mut acc, &mut ch, true), Ok(()));
    assert_eq!(acc.bits_consumed, 128);
    assert_eq!(acc.bits_remaining, 0);
    // the budget is gone now
    let r = ali.verify_deep_batch(&trace(), &(), &[q], &[], &mut acc, &mut ch, true);
    assert_eq!(r, Err(DeepAliError::SoundnessDepleted { requested: 128, remaining: 0 }));
}

#[test]
fn deep_batch_rejects_violations_and_the_gate() {
    let ali = BabyBearDeepAli::new(8, 2);
    let mut ch = DeepTranscript::new();
    let q = DeepResponse { value: 5, query: DeepQuery { point: 10, trace_index: 0, column_index: 0 } };
    let mut acc = SoundnessAccumulator::new(1024);
    let bad = link(vec![1], 1, vec![0], vec![0]);
    assert_eq!(
        ali.verify_deep_batch(&trace(), &(), &[q], &[bad], &mut acc, &mut ch, true),
        Err(DeepAliError::ConstraintViolation { index: 3, deep_point: "10".to_string() })
    );
    let mut acc = SoundnessAccumulator::new(1024);
    let r = ali.verify_deep_batch(&trace(), &(), &[q], &[], &mut acc, &mut ch, false);
    assert!(matches!(r, Err(DeepAliError::InvalidDeepPoint { point, .. }) if point == "OWSL_HALT"));
    let mut acc = SoundnessAccumulator::new(1024);
    let off = DeepResponse { value: 5, query: DeepQuery { point: 10, trace_index: 0, column_index: 7 } };
    let r = ali.verify_deep_batch(&trace(), &(), &[off], &[], &mut acc, &mut ch, true);
    assert!(matches!(r, Err(DeepAliError::InvalidDeepPoint { reason, .. }) if reason == "column index 7 out of bounds (max 2)"));
}

#[test]
fn combine_quotients_weights_and_trims() {
    let qs = vec![vec![1, 2, 0], vec![3]];
    let r = combine_quotients(&qs, &vec![10, 1], 5).unwrap();
    assert_eq!(r, vec![13, 20]);
    let r = combine_quotients(&vec![vec![0, 0]], &vec![4], 5).unwrap();
    assert_eq!(r, Vec::<u32>::new());
    match combine_quotients(&qs, &vec![10, 1], 1) {
        Err(DeepAliError::InvalidDeepPoint { point, reason }) => {
            assert_eq!(point, "COMBINED_QUOTIENT");
            assert_eq!(reason, "degree 1 exceeds bound 1");
        }
        _ => panic!("expected the degree bound to fail"),
    }
}

#[test]
fn deep_quotient_combines_column_quotients() {
    let ali = BabyBearDeepAli::new(8, 2);
    let mut ch = DeepTranscript::new();
    let queries = [DeepQuery { point: 10, trace_index: 0, column_index: 1 }];
    let r = ali.compute_deep_quotient(&trace(), &queries, &mut ch, true).unwrap();
    // one quotient (10, 1), weighted by the first challenge after absorbing the trace
    let mut replay = DeepTranscript::new();
    for v in [0, 0, 1, 1, 2, 4, 3, 9] {
        replay.observe(v);
    }
    let w = replay.sample();
    assert_eq!(r, vec![fe_mul(w, 10), w]);
    assert_eq!(ali.compute_deep_quotient(&trace(), &[], &mut ch, true), Ok(vec![]));
    assert!(ali.compute_deep_quotient(&trace(), &queries, &mut ch, false).is_err());
}

#[test]
fn horner_matches_the_interpolator() {
    let c = vec![4, 0, 2];
    assert_eq!(eval_poly_horner(&c, 3), Radix2Interpolator::evaluate_coeffs(&c, 3));
    assert_eq!(eval_poly_horner(&c, 3), 22);
}

#[test]
fn budget_is_conserved_over_a_run_of_requests() {
    let mut acc = SoundnessAccumulator::new(100);
    let mut granted = 0usize;
    for bits in [30usize, 50, 40, 20, 0, 1] {
        if acc.consume(bits).is_ok() {
            granted += 1;
        }
        assert_eq!(acc.bits_consumed + acc.bits_remaining, 100);
        assert_eq!(acc.round, granted);
    }
    assert_eq!(granted, 4);
    assert_eq!(acc.bits_consumed, 100);
    assert_eq!(acc.bits_remaining, 0);
}

#[test]
fn every_nonzero_element_has_its_inverse() {
    for x in [1u32, 2, 3, 65537, 123456789, P - 1] {
        let r = fe_inv(x);
        assert!(r < P);
        assert_eq!((x as u64 * r as u64) % P as u64, 1);
    }
}
