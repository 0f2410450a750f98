//! Finite sums, geometric sums over roots of unity, and the inversion
//! theorem: interpolation on the subgroup undoes evaluation on it.
use vstd::prelude::*;
use vstd::arithmetic::div_mod::*;
use vstd::arithmetic::power::*;
use crate::field::{modulus, all_fe, fmul, fpow, finv, is_inverse, lemma_mod_range, lemma_finv_is, lemma_two_inv, TWO_INV};
use crate::algebra::{cong, poly_eval, lemma_cong_add, lemma_cong_mul, lemma_cong_mod, lemma_cong_small_eq, lemma_poly_eval_push};
use crate::fft::{is_pow2, is_root_for, dft, inverse_dft, lemma_inverse_is_root, lemma_poly_eval_cong};

verus! {

/// `f(0) + f(1) + ... + f(n - 1)`.
pub open spec fn sum(n: nat, f: spec_fn(int) -> int) -> int
    decreases n,
{
    if n == 0 {
        0
    } else {
        sum((n - 1) as nat, f) + f(n - 1)
    }
}

/// `1 + z + ... + z^(n-1)`.
pub open spec fn geo(z: int, n: nat) -> int {
    sum(n, |k: int| pow(z, k as nat))
}

pub proof fn lemma_sum_ext(n: nat, f: spec_fn(int) -> int, g: spec_fn(int) -> int)
    requires
        forall|i: int| 0 <= i < n ==> #[trigger] f(i) == g(i),
    ensures
        sum(n, f) == sum(n, g),
    decreases n,
{
    if n > 0 {
        lemma_sum_ext((n - 1) as nat, f, g);
    }
}

pub proof fn lemma_sum_cong(n: nat, f: spec_fn(int) -> int, g: spec_fn(int) -> int)
    requires
        forall|i: int| 0 <= i < n ==> cong(#[trigger] f(i), g(i)),
    ensures
        cong(sum(n, f), sum(n, g)),
    decreases n,
{
    if n > 0 {
        lemma_sum_cong((n - 1) as nat, f, g);
        lemma_cong_add(sum((n - 1) as nat, f), sum((n - 1) as nat, g), f(n - 1), g(n - 1));
    }
}

pub proof fn lemma_sum_add(n: nat, f: spec_fn(int) -> int, g: spec_fn(int) -> int)
    ensures
        sum(n, |i: int| f(i) + g(i)) == sum(n, f) + sum(n, g),
    decreases n,
{
    if n > 0 {
        lemma_sum_add((n - 1) as nat, f, g);
    }
}

pub proof fn lemma_sum_scale(n: nat, c: int, f: spec_fn(int) -> int)
    ensures
        sum(n, |i: int| c * f(i)) == c * sum(n, f),
    decreases n,
{
    if n > 0 {
        lemma_sum_scale((n - 1) as nat, c, f);
        let s = sum((n - 1) as nat, f);
        assert(c * s + c * f(n - 1) == c * (s + f(n - 1))) by (nonlinear_arith);
    }
}

/// A sum whose terms vanish outside index `j` is its term at `j`.
pub proof fn lemma_sum_single(n: nat, j: int, f: spec_fn(int) -> int)
    requires
        0 <= j < n,
        forall|i: int| 0 <= i < n && i != j ==> #[trigger] f(i) == 0,
    ensures
        sum(n, f) == f(j),
    decreases n,
{
    if n - 1 == j {
        lemma_sum_zero((n - 1) as nat, f);
    } else {
        lemma_sum_single((n - 1) as nat, j, f);
    }
}

pub proof fn lemma_sum_zero(n: nat, f: spec_fn(int) -> int)
    requires
        forall|i: int| 0 <= i < n ==> #[trigger] f(i) == 0,
    ensures
        sum(n, f) == 0,
    decreases n,
{
    if n > 0 {
        lemma_sum_zero((n - 1) as nat, f);
    }
}

/// A sum over `a + b` indices splits at `a`.
pub proof fn lemma_sum_split(a: nat, b: nat, f: spec_fn(int) -> int)
    ensures
        sum(a + b, f) == sum(a, f) + sum(b, |k: int| f(a + k)),
    decreases b,
{
    if b > 0 {
        lemma_sum_split(a, (b - 1) as nat, f);
        assert((a + b - 1) as nat == (a + (b - 1)) as nat);
    }
}

/// The order of a finite double sum does not matter.
pub proof fn lemma_sum_swap(n: nat, m: nat, f: spec_fn(int, int) -> int)
    ensures
        sum(n, |k: int| sum(m, |i: int| f(k, i))) == sum(m, |i: int| sum(n, |k: int| f(k, i))),
    decreases n,
{
    if n > 0 {
        let n1 = (n - 1) as nat;
        lemma_sum_swap(n1, m, f);
        let g = |i: int| sum(n1, |k: int| f(k, i));
        let h = |i: int| f(n - 1, i);
        lemma_sum_add(m, g, h);
        let lhs = |k: int| sum(m, |i: int| f(k, i));
        assert(sum(n, lhs) == sum(n1, lhs) + sum(m, h));
        let rhs = |i: int| sum(n, |k: int| f(k, i));
        assert forall|i: int| 0 <= i < m implies #[trigger] rhs(i) == g(i) + h(i) by {
            assert(sum(n, |k: int| f(k, i)) == sum(n1, |k: int| f(k, i)) + f(n - 1, i));
        }
        lemma_sum_ext(m, rhs, |i: int| g(i) + h(i));
        assert(sum(m, rhs) == sum(m, g) + sum(m, h));
    } else {
        lemma_sum_zero(m, |i: int| sum(n, |k: int| f(k, i)));
    }
}

/// The value of a polynomial is the sum of its terms.
pub proof fn lemma_poly_eval_sum(c: Seq<u32>, x: int)
    ensures
        poly_eval(c, x) == sum(c.len(), |i: int| c[i] * pow(x, i as nat)),
{
    lemma_poly_eval_sum_prefix(c, x, c.len());
    assert(c.take(c.len() as int) =~= c);
}

proof fn lemma_poly_eval_sum_prefix(c: Seq<u32>, x: int, t: nat)
    requires
        t <= c.len(),
    ensures
        poly_eval(c.take(t as int), x) == sum(t, |i: int| c[i] * pow(x, i as nat)),
    decreases t,
{
    if t == 0 {
        assert(c.take(0).len() == 0);
    } else {
        lemma_poly_eval_sum_prefix(c, x, (t - 1) as nat);
        assert(c.take(t as int) =~= c.take((t - 1) as int).push(c[t - 1]));
        lemma_poly_eval_push(c.take((t - 1) as int), c[t - 1], x);
    }
}

/// `1 + z + ... + z^(2h-1) = (1 + z^h)(1 + ... + z^(h-1))`.
pub proof fn lemma_geo_double(z: int, h: nat)
    ensures
        geo(z, 2 * h) == geo(z, h) + pow(z, h) * geo(z, h),
{
    let f = |k: int| pow(z, k as nat);
    lemma_sum_split(h, h, f);
    assert(h + h == 2 * h);
    assert forall|k: int| 0 <= k < h implies #[trigger] f(h + k) == pow(z, h) * f(k) by {
        lemma_pow_adds(z, h, k as nat);
    }
    lemma_sum_ext(h, |k: int| f(h + k), |k: int| pow(z, h) * f(k));
    lemma_sum_scale(h, pow(z, h), f);
}

pub proof fn lemma_geo_cong(z1: int, z2: int, n: nat)
    requires
        cong(z1, z2),
    ensures
        cong(geo(z1, n), geo(z2, n)),
{
    assert forall|k: int| 0 <= k < n implies cong(#[trigger] pow(z1, k as nat), pow(z2, k as nat)) by {
        lemma_pow_mod_noop(z1, k as nat, modulus());
        lemma_pow_mod_noop(z2, k as nat, modulus());
    }
    lemma_sum_cong(n, |k: int| pow(z1, k as nat), |k: int| pow(z2, k as nat));
}

proof fn lemma_pow_minus_one(d: nat)
    ensures
        pow(-1, d) == (if d % 2 == 0 { 1int } else { -1int }),
    decreases d,
{
    reveal(pow);
    if d > 0 {
        lemma_pow_minus_one((d - 1) as nat);
    }
}

proof fn lemma_minus_one_cong()
    ensures
        cong(modulus() - 1, -1),
{
    lemma_mod_range(-1);
    lemma_fundamental_div_mod(-1, modulus());
    lemma_small_mod((modulus() - 1) as nat, modulus() as nat);
}

/// Over a generator of the subgroup of order `n`, the geometric sum of any
/// power other than the trivial one vanishes.
pub proof fn lemma_root_geo_zero(rho: int, n: nat, d: nat)
    requires
        is_pow2(n),
        is_root_for(rho, n),
        0 < d < n,
    ensures
        cong(geo(pow(rho, d), n), 0),
    decreases n,
{
    let m = modulus();
    let h = n / 2;
    let z = pow(rho, d);
    assert(n % 2 == 0 && is_pow2(h));
    assert(n == 2 * h);
    lemma_geo_double(z, h);
    lemma_minus_one_cong();
    assert(cong(pow(rho, h), -1)) by {
        lemma_cong_mod(pow(rho, h));
    }
    if d % 2 == 1 {
        // z^h = (rho^h)^d = (-1)^d = -1
        lemma_pow_multiplies(rho, d, h);
        lemma_pow_multiplies(rho, h, d);
        assert(d * h == h * d) by (nonlinear_arith);
        lemma_pow_mod_noop(pow(rho, h), d, m);
        lemma_pow_mod_noop(-1, d, m);
        lemma_pow_minus_one(d);
        assert(cong(pow(z, h), -1));
        lemma_cong_add(1, 1, pow(z, h), -1);
        lemma_cong_mul(1 + pow(z, h), 0, geo(z, h), geo(z, h));
        assert(geo(z, h) + pow(z, h) * geo(z, h) == (1 + pow(z, h)) * geo(z, h)) by (nonlinear_arith);
        assert(0 * geo(z, h) == 0);
    } else {
        let d2 = d / 2;
        assert(d == 2 * d2);
        assert(h >= 2);
        let rho2 = (rho * rho) % m;
        // rho^2 generates the subgroup of order h
        assert(is_root_for(rho2, h)) by {
            lemma_pow_mod_noop(rho * rho, h / 2, m);
            lemma_square_is_pow2(rho);
            lemma_pow_multiplies(rho, 2, h / 2);
            assert(2 * (h / 2) == h);
        }
        lemma_root_geo_zero(rho2, h, d2);
        // z = (rho^2)^d2, congruent to rho2^d2
        lemma_square_is_pow2(rho);
        lemma_pow_multiplies(rho, 2, d2);
        lemma_pow_mod_noop(rho * rho, d2, m);
        lemma_cong_mod(pow(rho * rho, d2));
        assert(cong(z, pow(rho2, d2)));
        lemma_geo_cong(z, pow(rho2, d2), h);
        lemma_cong_mul(1 + pow(z, h), 1 + pow(z, h), geo(z, h), 0);
        assert(geo(z, h) + pow(z, h) * geo(z, h) == (1 + pow(z, h)) * geo(z, h)) by (nonlinear_arith);
        assert((1 + pow(z, h)) * 0 == 0);
    }
}


pub proof fn lemma_geo_one(n: nat)
    ensures
        geo(1, n) == n,
    decreases n,
{
    if n > 0 {
        lemma_geo_one((n - 1) as nat);
        lemma1_pow((n - 1) as nat);
    }
}

/// A power of two has an inverse in the field.
pub proof fn lemma_pow2_inverse(n: nat)
    requires
        is_pow2(n),
    ensures
        is_inverse(n as int, finv(n as int)),
    decreases n,
{
    let m = modulus();
    if n == 1 {
        lemma_small_mod(1, m as nat);
        lemma_finv_is(1, 1);
    } else {
        let h = n / 2;
        lemma_pow2_inverse(h);
        lemma_two_inv();
        let a = finv(h as int);
        let t = TWO_INV as int;
        let r = (a * t) % m;
        lemma_mod_range(a * t);
        // n * r = (h * a) * (2 * t), congruent to 1 * 1
        assert(n == 2 * h);
        lemma_cong_mod(a * t);
        lemma_cong_mul(n as int, n as int, r, a * t);
        assert((n as int) * (a * t) == (h * a) * (2 * t)) by (nonlinear_arith)
            requires n == 2 * h;
        lemma_cong_mod(h * a);
        lemma_cong_mod(2 * t);
        lemma_cong_mul(h * a, 1, 2 * t, 1);
        lemma_small_mod(1, m as nat);
        assert(is_inverse(n as int, r));
        lemma_finv_is(n as int, r);
    }
}

/// The geometric sum of `omega^m * iota^j` over the subgroup, with `iota`
/// the inverse of `omega`: `n` when `m == j`, else zero.
proof fn lemma_geo_term(omega: int, iota: int, n: nat, m: nat, j: nat)
    requires
        is_pow2(n),
        is_inverse(omega, iota),
        is_root_for(omega, n),
        is_root_for(iota, n),
        m < n,
        j < n,
    ensures
        cong(geo(pow(omega, m) * pow(iota, j), n), if m == j { n as int } else { 0 }),
{
    let p = modulus();
    let z = pow(omega, m) * pow(iota, j);
    if m == j {
        lemma_pow_distributes(omega, iota, j);
        lemma_pow_mod_noop(omega * iota, j, p);
        lemma1_pow(j);
        lemma_small_mod(1, p as nat);
        assert(cong(z, 1));
        lemma_geo_cong(z, 1, n);
        lemma_geo_one(n);
    } else if m > j {
        let d = (m - j) as nat;
        lemma_pow_adds(omega, d, j);
        assert(d + j == m);
        // z = omega^d * (omega^j * iota^j), and omega^j * iota^j is congruent to 1
        lemma_pow_distributes(omega, iota, j);
        lemma_pow_mod_noop(omega * iota, j, p);
        lemma1_pow(j);
        lemma_small_mod(1, p as nat);
        assert(z == pow(omega, d) * (pow(omega, j) * pow(iota, j))) by (nonlinear_arith)
            requires
                z == pow(omega, m) * pow(iota, j),
                pow(omega, m) == pow(omega, d) * pow(omega, j),
        ;
        lemma_cong_mul(pow(omega, d), pow(omega, d), pow(omega, j) * pow(iota, j), 1);
        assert(cong(z, pow(omega, d)));
        lemma_geo_cong(z, pow(omega, d), n);
        lemma_root_geo_zero(omega, n, d);
    } else {
        let d = (j - m) as nat;
        lemma_pow_adds(iota, m, d);
        assert(m + d == j);
        lemma_pow_distributes(omega, iota, m);
        lemma_pow_mod_noop(omega * iota, m, p);
        lemma1_pow(m);
        lemma_small_mod(1, p as nat);
        assert(z == (pow(omega, m) * pow(iota, m)) * pow(iota, d)) by (nonlinear_arith)
            requires
                z == pow(omega, m) * pow(iota, j),
                pow(iota, j) == pow(iota, m) * pow(iota, d),
        ;
        lemma_cong_mul(pow(omega, m) * pow(iota, m), 1, pow(iota, d), pow(iota, d));
        assert(cong(z, pow(iota, d)));
        lemma_geo_cong(z, pow(iota, d), n);
        lemma_root_geo_zero(iota, n, d);
    }
}

/// One term of the double sum: coefficient `m` seen at point `k`.
spec fn inv_term(c: Seq<u32>, omega: int, iota: int, j: nat, k: int, m: int) -> int {
    c[m] * (pow(pow(omega, k as nat), m as nat) * pow(pow(iota, j), k as nat))
}

/// For one coefficient, the sum over the points is that coefficient times
/// a geometric sum.
proof fn lemma_inner_sum(c: Seq<u32>, omega: int, iota: int, j: nat, n: nat, m: int, tf: spec_fn(int, int) -> int)
    requires
        0 <= m,
        forall|k: int, i: int| #[trigger] tf(k, i) == inv_term(c, omega, iota, j, k, i),
    ensures
        sum(n, |k: int| tf(k, m)) == c[m] * geo(pow(omega, m as nat) * pow(iota, j), n),
{
    let z = pow(omega, m as nat) * pow(iota, j);
    let f = |k: int| pow(z, k as nat);
    let g = |i: int| (c[m] as int) * f(i);
    assert forall|k: int| 0 <= k < n implies #[trigger] tf(k, m) == g(k) by {
        lemma_pow_multiplies(omega, k as nat, m as nat);
        lemma_pow_multiplies(omega, m as nat, k as nat);
        assert((k as nat) * (m as nat) == (m as nat) * (k as nat)) by (nonlinear_arith);
        lemma_pow_distributes(pow(omega, m as nat), pow(iota, j), k as nat);
        assert(tf(k, m) == inv_term(c, omega, iota, j, k, m));
    }
    lemma_sum_ext(n, |k: int| tf(k, m), g);
    lemma_sum_scale(n, c[m] as int, f);
}

/// The term at point `k` of the value of the transform at `iota^j` is
/// congruent to the sum over the coefficients.
proof fn lemma_outer_term(c: Seq<u32>, e: Seq<u32>, omega: int, iota: int, j: nat, k: int, tf: spec_fn(int, int) -> int)
    requires
        e.len() == c.len(),
        0 <= k < e.len(),
        forall|q: int| 0 <= q < e.len() ==> #[trigger] e[q] == dft(c, omega)[q],
        forall|k: int, i: int| #[trigger] tf(k, i) == inv_term(c, omega, iota, j, k, i),
    ensures
        cong(e[k] * pow(fpow(iota, j), k as nat), sum(c.len(), |i: int| tf(k, i))),
{
    let p = modulus();
    let n = c.len();
    let x = fpow(iota, j);
    let pk = pow(omega, k as nat);
    let q = pow(pow(iota, j), k as nat);
    lemma_poly_eval_cong(c, fpow(omega, k as nat), pk);
    lemma_cong_mod(pk);
    lemma_cong_mod(poly_eval(c, fpow(omega, k as nat)));
    assert(cong(e[k] as int, poly_eval(c, pk)));
    lemma_pow_mod_noop(pow(iota, j), k as nat, p);
    assert(cong(pow(x, k as nat), q));
    lemma_cong_mul(e[k] as int, poly_eval(c, pk), pow(x, k as nat), q);
    let f = |i: int| c[i] * pow(pk, i as nat);
    lemma_poly_eval_sum(c, pk);
    assert(poly_eval(c, pk) == sum(n, f));
    let g = |i: int| q * f(i);
    lemma_sum_scale(n, q, f);
    assert forall|i: int| 0 <= i < n implies #[trigger] tf(k, i) == g(i) by {
        assert(tf(k, i) == inv_term(c, omega, iota, j, k, i));
        assert(c[i] * (pow(pk, i as nat) * q) == q * (c[i] * pow(pk, i as nat))) by (nonlinear_arith);
    }
    lemma_sum_ext(n, |i: int| tf(k, i), g);
    assert(poly_eval(c, pk) * q == q * poly_eval(c, pk)) by (nonlinear_arith);
}

/// Interpolation on the subgroup generated by `omega` undoes evaluation on
/// it: where `e` is the transform of `c`, the inverse transform of `e` is
/// `c`.
pub proof fn lemma_inverse_dft_of_dft(c: Seq<u32>, e: Seq<u32>, omega: int)
    requires
        is_pow2(c.len()),
        all_fe(c),
        0 < omega < modulus(),
        is_root_for(omega, c.len()),
        e.len() == c.len(),
        forall|k: int| 0 <= k < e.len() ==> #[trigger] e[k] == dft(c, omega)[k],
    ensures
        forall|j: int| 0 <= j < c.len() ==> #[trigger] inverse_dft(e, omega)[j] == c[j],
{
    assert forall|j: int| 0 <= j < c.len() implies #[trigger] inverse_dft(e, omega)[j] == c[j] by {
        lemma_inverse_dft_at(c, e, omega, j as nat);
    }
}

proof fn lemma_inverse_dft_at(c: Seq<u32>, e: Seq<u32>, omega: int, j: nat)
    requires
        is_pow2(c.len()),
        all_fe(c),
        0 < omega < modulus(),
        is_root_for(omega, c.len()),
        e.len() == c.len(),
        forall|k: int| 0 <= k < e.len() ==> #[trigger] e[k] == dft(c, omega)[k],
        j < c.len(),
    ensures
        inverse_dft(e, omega)[j as int] == c[j as int],
{
    let p = modulus();
    let n = c.len();
    lemma_pow2_inverse(n);
    let ninv = finv(n as int);
    if n == 1 {
        // a single point: the value is the coefficient
        assert(j == 0);
        lemma_pow0(omega);
        lemma_small_mod(1, p as nat);
        assert(e.drop_first().len() == 0);
        assert(c.drop_first().len() == 0);
        assert(poly_eval(c, 1) == c[0] + 1 * poly_eval(c.drop_first(), 1));
        lemma_small_mod(c[0] as nat, p as nat);
        assert(e[0] == c[0]);
        let x = fpow(finv(omega), 0);
        lemma_pow0(finv(omega));
        assert(x == 1);
        assert(poly_eval(e, x) == e[0] + x * poly_eval(e.drop_first(), x));
        lemma_small_mod(e[0] as nat, p as nat);
        lemma_finv_is(1, 1);
        assert(inverse_dft(e, omega)[0] == fmul(1, e[0] as int));
        return;
    }
    // the inverse of omega: omega^(n-1), since omega^n = 1
    let h = n / 2;
    assert(n == 2 * h);
    let oi = pow(omega, (n - 1) as nat) % p;
    assert(is_inverse(omega, oi)) by {
        lemma_pow_adds(omega, 1, (n - 1) as nat);
        lemma_pow1(omega);
        lemma_pow_adds(omega, h, h);
        assert(cong(pow(omega, h), -1)) by {
            lemma_cong_mod(pow(omega, h));
            lemma_minus_one_cong();
        }
        lemma_cong_mul(pow(omega, h), -1, pow(omega, h), -1);
        assert((-1int) * (-1int) == 1);
        lemma_cong_mod(pow(omega, (n - 1) as nat));
        lemma_cong_mul(omega, omega, oi, pow(omega, (n - 1) as nat));
        lemma_mod_range(pow(omega, (n - 1) as nat));
        lemma_small_mod(1, p as nat);
    }
    lemma_finv_is(omega, oi);
    let iota = finv(omega);
    lemma_inverse_is_root(omega, iota, n);
    let x = fpow(iota, j);
    let tf = |k: int, i: int| inv_term(c, omega, iota, j, k, i);
    // the value of e at x, as a sum over the points
    lemma_poly_eval_sum(e, x);
    let by_point = |k: int| e[k] * pow(x, k as nat);
    assert(poly_eval(e, x) == sum(n, by_point));
    let outer = |k: int| sum(n, |i: int| tf(k, i));
    assert forall|k: int| 0 <= k < n implies cong(#[trigger] by_point(k), outer(k)) by {
        lemma_outer_term(c, e, omega, iota, j, k, tf);
    }
    lemma_sum_cong(n, by_point, outer);
    lemma_sum_swap(n, n, tf);
    let by_coeff = |i: int| sum(n, |k: int| tf(k, i));
    let target = |i: int| if i == j { c[i] * (n as int) } else { 0 };
    assert forall|i: int| 0 <= i < n implies cong(#[trigger] by_coeff(i), target(i)) by {
        lemma_inner_sum(c, omega, iota, j, n, i, tf);
        lemma_geo_term(omega, iota, n, i as nat, j);
        let g = geo(pow(omega, i as nat) * pow(iota, j), n);
        lemma_cong_mul(c[i] as int, c[i] as int, g, if i == j { n as int } else { 0 });
        assert(c[i] * 0 == 0);
    }
    lemma_sum_cong(n, by_coeff, target);
    lemma_sum_single(n, j as int, target);
    // so the value is congruent to c[j] * n
    let pe = poly_eval(e, x);
    assert(cong(pe, c[j as int] * (n as int)));
    lemma_cong_mod(pe);
    lemma_cong_mul(ninv, ninv, pe % p, c[j as int] * (n as int));
    assert(ninv * (c[j as int] * (n as int)) == c[j as int] * ((n as int) * ninv)) by (nonlinear_arith);
    lemma_cong_mul(c[j as int] as int, c[j as int] as int, (n as int) * ninv, 1);
    lemma_cong_mod(ninv * (pe % p));
    lemma_mod_range(ninv * (pe % p));
    lemma_cong_small_eq(fmul(ninv, pe % p), c[j as int] as int);
}

} // verus!
