use tscp::backends::{Avx512Backend, NttBackend, ScalarBackend};
use tscp::field::P;

#[test]
fn avx512_matches_scalar() {
    let scalar = ScalarBackend::default();
    let avx = Avx512Backend::default();

    let input: Vec<u32> = (0..16).map(|i| i * 7 + 3).collect();

    let mut s_vals = input.clone();
    let mut a_vals = input.clone();

    scalar.forward(&mut s_vals);
    avx.forward(&mut a_vals);

    assert_eq!(s_vals, a_vals, "AVX-512 backend must match scalar");

    scalar.inverse(&mut s_vals);
    avx.inverse(&mut a_vals);

    assert_eq!(s_vals, a_vals, "inverse must also match");
}

#[test]
fn avx512_name() {
    let backend = Avx512Backend::default();
    assert_eq!(backend.name(), "avx512-radix2-butterfly");
}

#[test]
fn scalar_forward_inverse_roundtrip() {
    let backend = ScalarBackend::default();
    let original: Vec<u32> = (0..8).collect();
    let mut vals = original.clone();

    backend.forward(&mut vals);
    backend.inverse(&mut vals);

    for (a, b) in original.iter().zip(vals.iter()) {
        assert_eq!(*a, *b, "roundtrip failed");
    }
}

#[test]
fn scalar_backend_name() {
    let backend = ScalarBackend::default();
    assert_eq!(backend.name(), "scalar-radix2-dit");
}

#[test]
fn forward_of_a_constant_is_a_spike_and_of_a_spike_is_flat() {
    let backend = ScalarBackend::default();
    // the polynomial 5 evaluates to 5 everywhere
    let mut v: Vec<u32> = vec![5, 0, 0, 0];
    backend.forward(&mut v);
    assert_eq!(v, vec![5, 5, 5, 5]);
    // the evaluations all 5 come from the constant 5
    backend.inverse(&mut v);
    assert_eq!(v, vec![5, 0, 0, 0]);
    // x on the subgroup of order 2 is (1, -1)
    let mut w: Vec<u32> = vec![0, 1];
    backend.forward(&mut w);
    assert_eq!(w, vec![1, P - 1]);
}
