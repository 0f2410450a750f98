use tscp::fft::Radix2Interpolator;
use tscp::field::{fe_add, fe_mul, fe_neg, fe_pow, fe_sub, P};
use tscp::poly::{build_quotient, evaluate, interpolate, poly_div, vanishing_poly};
use tscp::quotient::{divide_by_vanishing, vanishes_on_domain};

fn omega(n: u64) -> u32 {
    fe_pow(31, (P as u64 - 1) / n)
}

fn omega4() -> u32 {
    omega(4)
}

#[test]
fn omega4_has_order_4() {
    let w = omega4();
    let w2 = fe_mul(w, w);
    let w4 = fe_mul(w2, w2);
    assert_eq!(w4, 1, "omega^4 must be 1");
    assert_ne!(w2, 1, "omega^2 must not be 1 (omega must have exact order 4)");
}

#[test]
fn fft_then_ifft_is_identity() {
    let w = omega4();
    let coeffs: Vec<u32> = vec![1, 2, 3, 4];
    let evals = Radix2Interpolator::fft(&coeffs, w);
    let back = Radix2Interpolator::ifft(&evals, w);
    assert_eq!(back, coeffs, "ifft(fft(x)) must recover x exactly");
}

#[test]
fn fft_matches_direct_evaluation() {
    let w = omega4();
    let coeffs: Vec<u32> = vec![1, 2, 3, 4];
    let evals = Radix2Interpolator::fft(&coeffs, w);
    for i in 0..4u64 {
        let point = fe_pow(w, i);
        let direct = Radix2Interpolator::evaluate_coeffs(&coeffs, point);
        assert_eq!(evals[i as usize], direct, "fft output at index {i} must match direct Horner evaluation");
    }
}

#[test]
fn interpolate_column_recovers_known_polynomial() {
    let w = omega4();
    let coeffs: Vec<u32> = vec![5, 6, 0, 0];
    let evals: Vec<u32> = (0..4u64).map(|i| Radix2Interpolator::evaluate_coeffs(&coeffs, fe_pow(w, i))).collect();
    let recovered = Radix2Interpolator::interpolate_column(&evals, w);
    assert_eq!(recovered, coeffs);
}

#[test]
fn interpolate_matrix_handles_multiple_columns_independently() {
    let w = omega4();
    let col_a: Vec<u32> = vec![1, 0, 0, 0];
    let col_b: Vec<u32> = vec![0, 1, 0, 0];
    let evals_a = Radix2Interpolator::fft(&col_a, w);
    let evals_b = Radix2Interpolator::fft(&col_b, w);
    let matrix: Vec<Vec<u32>> = (0..4).map(|i| vec![evals_a[i], evals_b[i]]).collect();
    let recovered = Radix2Interpolator::interpolate_matrix(&matrix, w);
    assert_eq!(recovered[0], col_a, "column 0 must recover independently");
    assert_eq!(recovered[1], col_b, "column 1 must recover independently");
}

#[test]
fn fft_of_size_eight_matches_horner_everywhere() {
    let w = omega(8);
    let coeffs: Vec<u32> = vec![3, 1, 4, 1, 5, 9, 2, 6];
    let evals = Radix2Interpolator::fft(&coeffs, w);
    for i in 0..8u64 {
        assert_eq!(evals[i as usize], Radix2Interpolator::evaluate_coeffs(&coeffs, fe_pow(w, i)));
    }
    assert_eq!(Radix2Interpolator::ifft(&evals, w), coeffs);
}

#[test]
fn fft_of_a_single_coefficient_is_itself() {
    assert_eq!(Radix2Interpolator::fft(&vec![42], 7), vec![42]);
    assert_eq!(Radix2Interpolator::ifft(&vec![42], 7), vec![42]);
}

#[test]
fn evaluate_coeffs_uses_horner_exactly() {
    // 1 + 2*10 + 3*100 = 321
    assert_eq!(Radix2Interpolator::evaluate_coeffs(&vec![1, 2, 3], 10), 321);
    assert_eq!(Radix2Interpolator::evaluate_coeffs(&vec![], 10), 0);
    // -1 + x at x = 1 is zero
    assert_eq!(Radix2Interpolator::evaluate_coeffs(&vec![P - 1, 1], 1), 0);
}

#[test]
fn reverse_bits_reverses_the_low_bits() {
    assert_eq!(Radix2Interpolator::reverse_bits(0b001, 3), 0b100);
    assert_eq!(Radix2Interpolator::reverse_bits(0b110, 3), 0b011);
    assert_eq!(Radix2Interpolator::reverse_bits(0b1011, 4), 0b1101);
    assert_eq!(Radix2Interpolator::reverse_bits(5, 0), 0);
}

#[test]
fn test_vanishing_poly() {
    let n = 4;
    let van = vanishing_poly(n);
    assert_eq!(van.len(), n + 1);
    assert_eq!(van[0], P - 1);
    assert_eq!(van[n], 1);
    let w = omega4();
    let mut x = 1;
    for _ in 0..n {
        let mut val = 0;
        for (i, &c) in van.iter().enumerate() {
            val = fe_add(val, fe_mul(c, fe_pow(x, i as u64)));
        }
        assert_eq!(val, 0);
        x = fe_mul(x, w);
    }
}

#[test]
fn test_poly_div() {
    let num = vec![0, 0, 1];
    let den = vec![P - 1, 1];
    let q = poly_div(&num, &den);
    assert_eq!(q, vec![1, 1]);
}

#[test]
fn test_poly_div_zero_quotient() {
    let num = vec![1];
    let den = vec![0, 1];
    let q = poly_div(&num, &den);
    assert_eq!(q, Vec::<u32>::new());
}

#[test]
fn test_interpolation_roundtrip() {
    let coeffs = vec![1, 2, 3, 4];
    let evals = evaluate(&coeffs);
    let roundtrip = interpolate(&evals);
    assert_eq!(roundtrip, coeffs);
}

#[test]
fn evaluate_matches_horner_on_the_subgroup() {
    let coeffs = vec![1, 2, 3, 4];
    let evals = evaluate(&coeffs);
    let g = tscp::poly::subgroup_generator(4);
    for i in 0..4u64 {
        assert_eq!(evals[i as usize], Radix2Interpolator::evaluate_coeffs(&coeffs, fe_pow(g, i)));
    }
}

#[test]
fn build_quotient_divides_by_the_vanishing_polynomial() {
    // (x^2 - 1)(x + 2) = x^3 + 2x^2 - x - 2
    let c = vec![P - 2, P - 1, 2, 1];
    assert_eq!(build_quotient(&c, 2), vec![2, 1]);
}

#[test]
fn exact_multiple_of_vanishing_has_zero_remainder() {
    let two = 2;
    let three = 3;
    let coeffs = vec![fe_neg(two), fe_neg(three), 0, 0, two, three];
    let result = divide_by_vanishing(&coeffs, 4);
    assert!(result.remainder.iter().all(|&r| r == 0), "remainder must be exactly zero for a true multiple of Z_H");
    assert_eq!(result.quotient[0], two, "quotient constant term must be 2");
    assert_eq!(result.quotient[1], three, "quotient linear term must be 3");
}

#[test]
fn non_multiple_has_nonzero_remainder() {
    let coeffs = vec![1, 1];
    let result = divide_by_vanishing(&coeffs, 4);
    assert!(!result.remainder.iter().all(|&r| r == 0), "a nonzero low-degree polynomial must NOT vanish on the domain");
}

#[test]
fn quotient_reconstructs_original_via_evaluation() {
    let w = omega4();
    let q_coeffs = vec![7, 11];
    let mut c_coeffs = vec![0u32; 6];
    for (i, &qc) in q_coeffs.iter().enumerate() {
        c_coeffs[i + 4] = fe_add(c_coeffs[i + 4], qc);
        c_coeffs[i] = fe_sub(c_coeffs[i], qc);
    }
    assert!(vanishes_on_domain(&c_coeffs, 4), "Z_H(x) * Q(x) must vanish on the domain by construction");
    let result = divide_by_vanishing(&c_coeffs, 4);
    assert_eq!(result.quotient, q_coeffs, "recovered quotient must match the original Q(x) exactly");
    for i in 0..4u64 {
        let point = fe_pow(w, i);
        let direct = Radix2Interpolator::evaluate_coeffs(&c_coeffs, point);
        assert_eq!(direct, 0, "C(x) must evaluate to zero at every domain point, index {i}");
    }
}
