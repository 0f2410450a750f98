//! Lagrange interpolation through the points `0, 1, ..., n-1`, and the
//! quotient of a polynomial by `x - z`.
use vstd::prelude::*;
use vstd::arithmetic::div_mod::*;
use vstd::arithmetic::power::*;
use crate::field::{P, modulus, all_fe, fadd, fsub, fmul, fe_add, fe_sub, fe_mul, fe_inv, lemma_mod_range};
use crate::algebra::{cong, poly_eval, peval, lemma_cong_add, lemma_cong_sub, lemma_cong_mul, lemma_cong_mod, lemma_cong_small_eq};
use crate::dft::{sum, lemma_sum_cong, lemma_sum_add, lemma_sum_scale, lemma_sum_split, lemma_sum_ext, lemma_poly_eval_sum};
use crate::deep_ali::DeepAliError;

verus! {

/// `c` takes the values `evals` at the points `0 .. evals.len()`.
pub open spec fn interpolates(c: Seq<u32>, evals: Seq<u32>) -> bool {
    &&& c.len() == evals.len()
    &&& forall|m: int| 0 <= m < evals.len() ==> #[trigger] peval(c, m) == evals[m] as int
}

/// `prod_{j < t, j != i} (x - j)`.
pub open spec fn lag_prod(i: int, t: nat, x: int) -> int
    decreases t,
{
    if t == 0 {
        1
    } else if t - 1 == i {
        lag_prod(i, (t - 1) as nat, x)
    } else {
        lag_prod(i, (t - 1) as nat, x) * (x - (t - 1))
    }
}

/// Some Lagrange denominator `prod_{j != i} (i - j)` over `n` points is
/// zero in the field.
pub open spec fn lagrange_singular(n: nat) -> bool {
    exists|i: int| 0 <= i < n && #[trigger] lag_prod(i, n, i) % modulus() == 0
}

proof fn lemma_lag_prod_nonzero(i: int, t: nat, n: nat)
    requires
        0 <= i < n,
        t <= n,
        n <= modulus(),
    ensures
        lag_prod(i, t, i) % modulus() != 0,
    decreases t,
{
    let m = modulus();
    if t == 0 {
        assert(1int % m == 1);
    } else {
        lemma_lag_prod_nonzero(i, (t - 1) as nat, n);
        if t - 1 != i {
            let prev = lag_prod(i, (t - 1) as nat, i);
            let f = i - (t - 1);
            assert(f != 0 && -m < f < m);
            if f > 0 {
                assert(f % m == f) by {
                    vstd::arithmetic::div_mod::lemma_small_mod(f as nat, m as nat);
                }
            } else {
                assert(f % m == f + m) by (nonlinear_arith)
                    requires -m < f < 0, m > 0;
            }
            crate::field::lemma_no_zero_divisors(prev, f);
        }
    }
}

/// Over fewer points than the modulus no Lagrange denominator vanishes:
/// the points `0 .. n-1` are distinct in the field.
pub proof fn lemma_not_singular(n: nat)
    requires
        n <= modulus(),
    ensures
        !lagrange_singular(n),
{
    assert forall|i: int| 0 <= i < n implies #[trigger] lag_prod(i, n, i) % modulus() != 0 by {
        lemma_lag_prod_nonzero(i, n, n);
    }
}

/// The coefficients of `b(x) * (x - a)`: entry `k` is `b[k-1] - a * b[k]`.
pub open spec fn mul_linear(b: Seq<u32>, a: int) -> Seq<u32> {
    Seq::new(
        b.len() + 1,
        |k: int|
            fsub(
                if k >= 1 { b[k - 1] as int } else { 0 },
                if k < b.len() { fmul(b[k] as int, a) } else { 0 },
            ) as u32,
    )
}

proof fn lemma_sum_sub(n: nat, f: spec_fn(int) -> int, g: spec_fn(int) -> int)
    ensures
        sum(n, |i: int| f(i) - g(i)) == sum(n, f) - sum(n, g),
{
    let ng = |i: int| (-1) * g(i);
    lemma_sum_add(n, f, ng);
    lemma_sum_scale(n, -1, g);
    lemma_sum_ext(n, |i: int| f(i) - g(i), |i: int| f(i) + ng(i));
}

/// Multiplying by `x - a` multiplies the value by `x - a`.
pub proof fn lemma_mul_linear_eval(b: Seq<u32>, a: int, x: int)
    ensures
        cong(poly_eval(mul_linear(b, a), x), poly_eval(b, x) * (x - a)),
{
    let l = b.len();
    let nb = mul_linear(b, a);
    let m = modulus();
    lemma_poly_eval_sum(nb, x);
    lemma_poly_eval_sum(b, x);
    let s = poly_eval(b, x);
    let bt = |k: int| b[k] * pow(x, k as nat);
    assert(s == sum(l, bt));
    let hi = |k: int| (if k >= 1 { b[k - 1] as int } else { 0 }) * pow(x, k as nat);
    let lo = |k: int| (if k < l { (b[k] as int) * a } else { 0 }) * pow(x, k as nat);
    let nt = |k: int| nb[k] * pow(x, k as nat);
    assert forall|k: int| 0 <= k < l + 1 implies cong(#[trigger] nt(k), hi(k) - lo(k)) by {
        let u = if k >= 1 { b[k - 1] as int } else { 0 };
        let v = if k < l { fmul(b[k] as int, a) } else { 0 };
        let vi = if k < l { (b[k] as int) * a } else { 0 };
        lemma_mod_range(u - v);
        lemma_cong_mod(u - v);
        if k < l {
            lemma_cong_mod((b[k] as int) * a);
        } else {
            lemma_small_mod(0, m as nat);
        }
        assert(cong(v, vi));
        lemma_cong_sub(u, u, v, vi);
        lemma_cong_mul(nb[k] as int, u - vi, pow(x, k as nat), pow(x, k as nat));
        assert((u - vi) * pow(x, k as nat) == u * pow(x, k as nat) - vi * pow(x, k as nat)) by (nonlinear_arith);
    }
    lemma_sum_cong(l + 1, nt, |k: int| hi(k) - lo(k));
    lemma_sum_sub(l + 1, hi, lo);
    // the shifted part is x times the value
    lemma_sum_split(1, l, hi);
    assert(1 + l == l + 1);
    assert forall|k: int| 0 <= k < l implies #[trigger] hi(1 + k) == x * bt(k) by {
        lemma_pow_adds(x, 1, k as nat);
        lemma_pow1(x);
        assert(b[k] * (x * pow(x, k as nat)) == x * (b[k] * pow(x, k as nat))) by (nonlinear_arith);
    }
    lemma_sum_ext(l, |k: int| hi(1 + k), |k: int| x * bt(k));
    lemma_sum_scale(l, x, bt);
    assert(sum(1, hi) == 0) by {
        assert(sum(1, hi) == sum(0, hi) + hi(0));
    }
    // the scaled part is a times the value
    lemma_sum_split(l, 1, lo);
    assert(sum(1, |k: int| lo(l + k)) == 0) by {
        assert(sum(1, |k: int| lo(l + k)) == sum(0, |k: int| lo(l + k)) + lo(l as int + 0));
    }
    assert forall|k: int| 0 <= k < l implies #[trigger] lo(k) == a * bt(k) by {
        assert(((b[k] as int) * a) * pow(x, k as nat) == a * (b[k] * pow(x, k as nat))) by (nonlinear_arith);
    }
    lemma_sum_ext(l, lo, |k: int| a * bt(k));
    lemma_sum_scale(l, a, bt);
    assert(x * s - a * s == s * (x - a)) by (nonlinear_arith);
}

/// The product vanishes at the points other than `i` that it runs over.
proof fn lemma_lag_prod_zero(i: int, t: nat, x: int)
    requires
        0 <= x < t,
        x != i,
    ensures
        lag_prod(i, t, x) == 0,
    decreases t,
{
    if x < t - 1 {
        lemma_lag_prod_zero(i, (t - 1) as nat, x);
        if t - 1 != i {
            assert(lag_prod(i, t, x) == lag_prod(i, (t - 1) as nat, x) * (x - (t - 1)));
            assert(0 * (x - (t - 1)) == 0);
        }
    } else {
        assert(x == t - 1);
        assert(lag_prod(i, t, x) == lag_prod(i, (t - 1) as nat, x) * (x - (t - 1)));
        assert(lag_prod(i, (t - 1) as nat, x) * 0 == 0) by (nonlinear_arith);
    }
}

/// `b(x) * (x - a)` in coefficient form.
fn mul_by_linear(b: &Vec<u32>, a: u32) -> (r: Vec<u32>)
    requires
        b@.len() < usize::MAX,
        all_fe(b@),
        a < P,
    ensures
        r@ == mul_linear(b@, a as int),
        all_fe(r@),
{
    let l = b.len();
    let mut r: Vec<u32> = Vec::new();
    let mut k: usize = 0;
    while k <= l
        invariant
            l == b@.len(),
            l < usize::MAX,
            all_fe(b@),
            a < P,
            k <= l + 1,
            r@.len() == k,
            all_fe(r@),
            forall|q: int| 0 <= q < k ==> #[trigger] r@[q] == mul_linear(b@, a as int)[q],
        decreases l + 1 - k,
    {
        let hi: u32 = if k >= 1 { b[k - 1] } else { 0 };
        let lo: u32 = if k < l { fe_mul(b[k], a) } else { 0 };
        let v = fe_sub(hi, lo);
        r.push(v);
        k = k + 1;
    }
    assert(r@ =~= mul_linear(b@, a as int));
    r
}

/// The coefficients of the polynomial of degree below `n` through
/// `(j, evaluations[j])` for the points `j = 0 .. n-1`, by summing
/// `evaluations[i] * prod_{j != i} (x - j) / (i - j)`.
///
/// With no evaluations there is nothing to interpolate; a zero
/// denominator (which the field's primality rules out for `n <= p`) is
/// reported too.
pub fn interpolate_lagrange_naive(evaluations: &[u32]) -> (r: Result<Vec<u32>, DeepAliError>)
    requires
        evaluations@.len() <= P,
        all_fe(evaluations@),
    ensures
        evaluations@.len() == 0 ==> (r matches Err(DeepAliError::InterpolationFailure { reason })
            && reason@ == "empty evaluation vector"@),
        evaluations@.len() > 0 && r is Err ==> lagrange_singular(evaluations@.len())
            && (r matches Err(DeepAliError::InterpolationFailure { reason })
            && reason@ == "singular interpolation denominator"@),
        r matches Ok(c) ==> interpolates(c@, evaluations@) && all_fe(c@),
        r is Ok ==> !lagrange_singular(evaluations@.len()),
{
    let n = evaluations.len();
    if n == 0 {
        return Err(DeepAliError::InterpolationFailure { reason: String::from_str("empty evaluation vector") });
    }
    let ghost m = modulus();
    let mut coeffs: Vec<u32> = Vec::new();
    let mut k: usize = 0;
    while k < n
        invariant
            k <= n,
            coeffs@.len() == k,
            forall|q: int| 0 <= q < k ==> #[trigger] coeffs@[q] == 0,
        decreases n - k,
    {
        coeffs.push(0);
        k = k + 1;
    }
    proof {
        assert forall|x: int| 0 <= x < n implies cong(#[trigger] poly_eval(coeffs@, x), 0) by {
            lemma_poly_eval_zero_coeffs(coeffs@, x);
        }
    }
    let mut i: usize = 0;
    while i < n
        invariant
            m == modulus(),
            n == evaluations@.len(),
            n <= P,
            n > 0,
            all_fe(evaluations@),
            i <= n,
            coeffs@.len() == n,
            all_fe(coeffs@),
            forall|x: int| 0 <= x < n ==> cong(#[trigger] poly_eval(coeffs@, x), if x < i { evaluations@[x] as int } else { 0 }),
            forall|q: int| 0 <= q < i ==> !(#[trigger] lag_prod(q, n as nat, q) % m == 0),
        decreases n - i,
    {
        let mut basis: Vec<u32> = Vec::new();
        basis.push(1);
        let mut denom: u32 = 1;
        let mut j: usize = 0;
        proof {
            lemma_small_mod(1, m as nat);
            assert forall|x: int| cong(#[trigger] poly_eval(basis@, x), lag_prod(i as int, 0, x)) by {
                assert(basis@.drop_first().len() == 0);
                assert(poly_eval(basis@, x) == 1 + x * poly_eval(basis@.drop_first(), x));
            }
        }
        while j < n
            invariant
                m == modulus(),
                n == evaluations@.len(),
                n <= P,
                i < n,
                j <= n,
                all_fe(basis@),
                basis@.len() == 1 + j - (if i < j { 1int } else { 0 }),
                denom < P,
                cong(denom as int, lag_prod(i as int, j as nat, i as int)),
                forall|x: int| cong(#[trigger] poly_eval(basis@, x), lag_prod(i as int, j as nat, x)),
            decreases n - j,
        {
            if i != j {
                let xj = j as u32;
                let xi = i as u32;
                let ghost old_basis = basis@;
                let ghost old_denom = denom;
                basis = mul_by_linear(&basis, xj);
                let d = fe_sub(xi, xj);
                denom = fe_mul(denom, d);
                proof {
                    assert forall|x: int| cong(#[trigger] poly_eval(basis@, x), lag_prod(i as int, (j + 1) as nat, x)) by {
                        lemma_mul_linear_eval(old_basis, xj as int, x);
                        lemma_cong_mul(poly_eval(old_basis, x), lag_prod(i as int, j as nat, x), x - xj, x - xj);
                    }
                    lemma_cong_mod((xi - xj) as int);
                    lemma_cong_mul(old_denom as int, lag_prod(i as int, j as nat, i as int), d as int, i - j);
                    lemma_cong_mod((old_denom as int) * (d as int));
                }
            }
            j = j + 1;
        }
        if denom == 0 {
            proof {
                lemma_small_mod(0, m as nat);
                assert(lag_prod(i as int, n as nat, i as int) % m == 0);
                assert(lagrange_singular(n as nat));
            }
            return Err(DeepAliError::InterpolationFailure { reason: String::from_str("singular interpolation denominator") });
        }
        let scale = fe_inv(denom);
        let e = evaluations[i];
        let ghost old_coeffs = coeffs@;
        let mut k: usize = 0;
        while k < n
            invariant
                n == coeffs@.len(),
                n == basis@.len(),
                n == old_coeffs.len(),
                all_fe(basis@),
                all_fe(coeffs@),
                all_fe(old_coeffs),
                e < P,
                scale < P,
                k <= n,
                forall|q: int| 0 <= q < k ==> #[trigger] coeffs@[q] == fadd(old_coeffs[q] as int, fmul(fmul(basis@[q] as int, e as int), scale as int)),
                forall|q: int| k <= q < n ==> #[trigger] coeffs@[q] == old_coeffs[q],
            decreases n - k,
        {
            let t = fe_mul(fe_mul(basis[k], e), scale);
            let v = fe_add(coeffs[k], t);
            coeffs.set(k, v);
            k = k + 1;
        }
        proof {
            assert forall|x: int| 0 <= x < n implies cong(#[trigger] poly_eval(coeffs@, x), if x < i + 1 { evaluations@[x] as int } else { 0 }) by {
                let w = (e as int) * (scale as int);
                lemma_poly_eval_combine(old_coeffs, basis@, coeffs@, e as int, scale as int, x);
                // basis at x: zero unless x == i, where it is denom
                if x != i {
                    lemma_lag_prod_zero(i as int, n as nat, x);
                    lemma_cong_mul(poly_eval(basis@, x), 0, w, w);
                    lemma_cong_add(poly_eval(old_coeffs, x), if x < i { evaluations@[x] as int } else { 0 }, poly_eval(basis@, x) * w, 0 * w);
                } else {
                    // e * scale * denom is congruent to e
                    lemma_cong_mul(poly_eval(basis@, x), denom as int, w, w);
                    assert((denom as int) * w == (e as int) * ((denom as int) * (scale as int))) by (nonlinear_arith)
                        requires w == (e as int) * (scale as int);
                    lemma_cong_mul(e as int, e as int, (denom as int) * (scale as int), 1);
                    lemma_cong_add(poly_eval(old_coeffs, x), 0, poly_eval(basis@, x) * w, e as int);
                }
            }
        }
        i = i + 1;
    }
    proof {
        assert(!lagrange_singular(n as nat));
        assert forall|x: int| 0 <= x < n implies #[trigger] peval(coeffs@, x) == evaluations@[x] as int by {
            lemma_cong_mod(poly_eval(coeffs@, x));
            lemma_mod_range(poly_eval(coeffs@, x));
            lemma_cong_small_eq(peval(coeffs@, x), evaluations@[x] as int);
        }
    }
    Ok(coeffs)
}

proof fn lemma_poly_eval_zero_coeffs(c: Seq<u32>, x: int)
    requires
        forall|q: int| 0 <= q < c.len() ==> #[trigger] c[q] == 0,
    ensures
        poly_eval(c, x) == 0,
    decreases c.len(),
{
    if c.len() > 0 {
        lemma_poly_eval_zero_coeffs(c.drop_first(), x);
        assert(c[0] == 0);
    }
}

/// Adding `e * s` times `b` entrywise adds `e * s` times its value.
proof fn lemma_poly_eval_combine(a: Seq<u32>, b: Seq<u32>, r: Seq<u32>, e: int, s: int, x: int)
    requires
        a.len() == b.len(),
        r.len() == a.len(),
        forall|q: int| 0 <= q < r.len() ==> #[trigger] r[q] == fadd(a[q] as int, fmul(fmul(b[q] as int, e), s)),
    ensures
        cong(poly_eval(r, x), poly_eval(a, x) + poly_eval(b, x) * (e * s)),
{
    let n = r.len();
    lemma_poly_eval_sum(r, x);
    lemma_poly_eval_sum(a, x);
    lemma_poly_eval_sum(b, x);
    let w = e * s;
    let at = |k: int| a[k] * pow(x, k as nat);
    let bt = |k: int| b[k] * pow(x, k as nat);
    let rt = |k: int| r[k] * pow(x, k as nat);
    let bw = |k: int| w * bt(k);
    assert forall|k: int| 0 <= k < n implies cong(#[trigger] rt(k), at(k) + bw(k)) by {
        let bs = fmul(fmul(b[k] as int, e), s);
        lemma_cong_mod((b[k] as int) * e);
        lemma_cong_mul(fmul(b[k] as int, e), (b[k] as int) * e, s, s);
        lemma_cong_mod(fmul(b[k] as int, e) * s);
        lemma_cong_add(a[k] as int, a[k] as int, bs, ((b[k] as int) * e) * s);
        lemma_cong_mod((a[k] as int) + bs);
        lemma_cong_mul(r[k] as int, (a[k] as int) + ((b[k] as int) * e) * s, pow(x, k as nat), pow(x, k as nat));
        assert(((a[k] as int) + ((b[k] as int) * e) * s) * pow(x, k as nat) == a[k] * pow(x, k as nat) + w * (b[k] * pow(x, k as nat))) by (nonlinear_arith)
            requires w == e * s;
    }
    lemma_sum_cong(n, rt, |k: int| at(k) + bw(k));
    lemma_sum_add(n, at, bw);
    lemma_sum_scale(n, w, bt);
    assert(w * sum(n, bt) == sum(n, bt) * w) by (nonlinear_arith);
}

/// The quotient of `c` by `x - z`: entry `k` is the value at `z` of the
/// coefficients `c[k+1..]`.
pub open spec fn quotient_by_linear(c: Seq<u32>, z: int) -> Seq<u32> {
    Seq::new((c.len() - 1) as nat, |k: int| peval(c.subrange(k + 1, c.len() as int), z) as u32)
}

/// Division by `x - z` leaves the value at `z`:
/// `c(x) = (x - z) * q(x) + c(z)` in the field.
pub proof fn lemma_quotient_by_linear(c: Seq<u32>, z: int, x: int)
    requires
        c.len() >= 1,
    ensures
        cong(poly_eval(c, x), (x - z) * poly_eval(quotient_by_linear(c, z), x) + poly_eval(c, z)),
    decreases c.len(),
{
    let m = modulus();
    let q = quotient_by_linear(c, z);
    let t = c.drop_first();
    if c.len() == 1 {
        assert(q.len() == 0);
        assert(t.len() == 0);
        assert(poly_eval(c, x) == c[0] + x * poly_eval(t, x));
        assert(poly_eval(c, z) == c[0] + z * poly_eval(t, z));
        assert((x - z) * 0 == 0);
    } else {
        lemma_quotient_by_linear(t, z, x);
        let qt = quotient_by_linear(t, z);
        // q = [t(z)] ++ qt
        assert(c.subrange(1, c.len() as int) =~= t);
        assert forall|k: int| 0 <= k < qt.len() implies #[trigger] q[k + 1] == qt[k] by {
            assert(c.subrange(k + 2, c.len() as int) =~= t.subrange(k + 1, t.len() as int));
        }
        assert(q.drop_first() =~= qt);
        let tz = peval(t, z);
        lemma_mod_range(poly_eval(t, z));
        assert(q[0] == tz);
        // q(x) = tz + x * qt(x)
        let qx = poly_eval(q, x);
        let qtx = poly_eval(qt, x);
        assert(qx == tz + x * qtx);
        let tx = poly_eval(t, x);
        let tzz = poly_eval(t, z);
        // t(x) is congruent to (x - z) qt(x) + t(z)
        lemma_cong_mod(tzz);
        assert(cong(tz, tzz));
        // c(x) - c(z) = x t(x) - z t(z)
        lemma_cong_mul(x, x, tx, (x - z) * qtx + tzz);
        assert(x * ((x - z) * qtx + tzz) - z * tzz == (x - z) * (tz + x * qtx) + (x - z) * (tzz - tz)) by (nonlinear_arith);
        // (x - z) * (tzz - tz) is a multiple of m
        lemma_cong_sub(tzz, tz, tz, tz);
        assert(cong(tzz - tz, 0));
        lemma_cong_mul(x - z, x - z, tzz - tz, 0);
        assert((x - z) * 0 == 0);
        lemma_cong_add(x * tx, x * ((x - z) * qtx + tzz), c[0] as int, c[0] as int);
        assert(poly_eval(c, x) == c[0] + x * tx);
        assert(poly_eval(c, z) == c[0] + z * tzz);
        lemma_cong_add((x - z) * (tz + x * qtx), (x - z) * (tz + x * qtx), (x - z) * (tzz - tz), 0);
        assert(cong(poly_eval(c, x), (x - z) * qx + poly_eval(c, z)));
    }
}

/// The coefficient-wise difference of two polynomials, in the field.
pub open spec fn poly_sub(a: Seq<u32>, b: Seq<u32>) -> Seq<u32> {
    Seq::new(a.len(), |i: int| fsub(a[i] as int, b[i] as int) as u32)
}

proof fn lemma_poly_sub_eval(a: Seq<u32>, b: Seq<u32>, x: int)
    requires
        a.len() == b.len(),
    ensures
        cong(poly_eval(poly_sub(a, b), x), poly_eval(a, x) - poly_eval(b, x)),
    decreases a.len(),
{
    let d = poly_sub(a, b);
    if a.len() == 0 {
        lemma_cong_mod(0);
    } else {
        lemma_poly_sub_eval(a.drop_first(), b.drop_first(), x);
        assert(d.drop_first() =~= poly_sub(a.drop_first(), b.drop_first()));
        let da = poly_eval(a.drop_first(), x);
        let db = poly_eval(b.drop_first(), x);
        let dd = poly_eval(d.drop_first(), x);
        lemma_mod_range(a[0] - b[0]);
        assert(d[0] == fsub(a[0] as int, b[0] as int));
        lemma_cong_mod(a[0] - b[0]);
        lemma_cong_mul(x, x, dd, da - db);
        lemma_cong_add(d[0] as int, a[0] - b[0], x * dd, x * (da - db));
        assert((a[0] - b[0]) + x * (da - db) == (a[0] + x * da) - (b[0] + x * db)) by (nonlinear_arith);
    }
}

/// A polynomial of at most `k` coefficients that vanishes at `0 .. k-1`,
/// with `k` at most the modulus, vanishes everywhere.
proof fn lemma_vanishing_everywhere(c: Seq<u32>, k: nat, x: int)
    requires
        c.len() <= k,
        k <= modulus(),
        forall|j: int| 0 <= j < k ==> #[trigger] peval(c, j) == 0,
    ensures
        peval(c, x) == 0,
    decreases k,
{
    let m = modulus();
    if c.len() == 0 {
        assert(poly_eval(c, x) == 0);
    } else {
        let z = (k - 1) as int;
        let q = quotient_by_linear(c, z);
        assert forall|j: int| 0 <= j < k - 1 implies #[trigger] peval(q, j) == 0 by {
            lemma_quotient_by_linear(c, z, j);
            assert(peval(c, j) == 0);
            assert(peval(c, z) == 0);
            lemma_cong_mod(poly_eval(c, z));
            lemma_cong_mod(poly_eval(c, j));
            // (j - z) * q(j) is congruent to zero
            let f = j - z;
            assert(f != 0 && -m < f < m);
            if poly_eval(q, j) % m != 0 {
                if f > 0 {
                    vstd::arithmetic::div_mod::lemma_small_mod(f as nat, m as nat);
                } else {
                    assert(f % m == f + m) by (nonlinear_arith)
                        requires -m < f < 0, m > 0;
                }
                crate::field::lemma_no_zero_divisors(f, poly_eval(q, j));
                assert(cong(poly_eval(c, j), f * poly_eval(q, j) + poly_eval(c, z)));
                lemma_cong_add(f * poly_eval(q, j), f * poly_eval(q, j), poly_eval(c, z), 0);
            }
        }
        lemma_vanishing_everywhere(q, (k - 1) as nat, x);
        lemma_quotient_by_linear(c, z, x);
        assert(peval(c, z) == 0);
        lemma_cong_mod(poly_eval(q, x));
        lemma_cong_mul(x - z, x - z, poly_eval(q, x), 0);
        lemma_cong_mod(poly_eval(c, z));
        lemma_cong_add((x - z) * poly_eval(q, x), 0, poly_eval(c, z), 0);
        assert((x - z) * 0 == 0) by (nonlinear_arith);
    }
}

/// Interpolation is unique: two polynomials through the same values at
/// `0 .. n-1`, for `n` at most the modulus, agree at every point.
pub proof fn lemma_interpolation_unique(c1: Seq<u32>, c2: Seq<u32>, evals: Seq<u32>, x: int)
    requires
        interpolates(c1, evals),
        interpolates(c2, evals),
        evals.len() <= modulus(),
    ensures
        peval(c1, x) == peval(c2, x),
{
    let d = poly_sub(c1, c2);
    assert forall|j: int| 0 <= j < evals.len() implies #[trigger] peval(d, j) == 0 by {
        lemma_poly_sub_eval(c1, c2, j);
        assert(peval(c1, j) == evals[j] as int);
        assert(peval(c2, j) == evals[j] as int);
        lemma_cong_mod(poly_eval(c1, j));
        lemma_cong_mod(poly_eval(c2, j));
        lemma_cong_sub(poly_eval(c1, j), evals[j] as int, poly_eval(c2, j), evals[j] as int);
    }
    lemma_vanishing_everywhere(d, evals.len(), x);
    lemma_poly_sub_eval(c1, c2, x);
    lemma_cong_mod(poly_eval(c1, x));
    lemma_cong_mod(poly_eval(c2, x));
    assert(cong(poly_eval(c1, x) - poly_eval(c2, x), 0));
    lemma_cong_sub(poly_eval(c1, x) - poly_eval(c2, x), 0, -poly_eval(c2, x), -poly_eval(c2, x));
    lemma_mod_range(poly_eval(c1, x));
    lemma_mod_range(poly_eval(c2, x));
    lemma_cong_mod(-poly_eval(c2, x));
    lemma_cong_sub(0, 0, poly_eval(c2, x), poly_eval(c2, x));
    lemma_cong_small_eq(peval(c1, x), peval(c2, x));
}

/// The quotient of `c` (at least two coefficients) by `x - z`, by
/// synthetic division from the top coefficient down.
pub fn divide_by_linear(c: &Vec<u32>, z: u32) -> (q: Vec<u32>)
    requires
        c@.len() >= 2,
        all_fe(c@),
        z < P,
    ensures
        q@ == quotient_by_linear(c@, z as int),
        all_fe(q@),
{
    let n = c.len();
    let mut q: Vec<u32> = Vec::new();
    let mut k: usize = 0;
    while k < n - 1
        invariant
            n == c@.len(),
            n >= 2,
            k <= n - 1,
            q@.len() == k,
            forall|t: int| 0 <= t < k ==> #[trigger] q@[t] == 0,
        decreases n - 1 - k,
    {
        q.push(0);
        k = k + 1;
    }
    q.set(n - 2, c[n - 1]);
    proof {
        let s = c@.subrange(n - 1, n as int);
        assert(s.drop_first().len() == 0);
        assert(poly_eval(s, z as int) == c@[n - 1] + (z as int) * poly_eval(s.drop_first(), z as int));
        lemma_small_mod(c@[n - 1] as nat, modulus() as nat);
    }
    let mut k: usize = n - 2;
    while k > 0
        invariant
            n == c@.len(),
            n >= 2,
            all_fe(c@),
            z < P,
            k <= n - 2,
            q@.len() == n - 1,
            forall|t: int| k <= t < n - 1 ==> #[trigger] q@[t] == peval(c@.subrange(t + 1, n as int), z as int),
            forall|t: int| k <= t < n - 1 ==> #[trigger] q@[t] < P,
        decreases k,
    {
        k = k - 1;
        let v = fe_add(c[k + 1], fe_mul(z, q[k + 1]));
        q.set(k, v);
        proof {
            let s = c@.subrange(k + 1, n as int);
            let s2 = c@.subrange(k + 2, n as int);
            assert(s.drop_first() =~= s2);
            let pe = poly_eval(s2, z as int);
            assert(poly_eval(s, z as int) == c@[k + 1] + (z as int) * pe);
            lemma_cong_mod(pe);
            lemma_cong_mul(z as int, z as int, pe % modulus(), pe);
            lemma_cong_mod((z as int) * (pe % modulus()));
            lemma_cong_add(c@[k + 1] as int, c@[k + 1] as int, fmul(z as int, pe % modulus()), (z as int) * pe);
            lemma_cong_mod(c@[k + 1] + fmul(z as int, pe % modulus()));
            lemma_mod_range(c@[k + 1] + fmul(z as int, pe % modulus()));
            lemma_mod_range(poly_eval(s, z as int));
            lemma_cong_mod(poly_eval(s, z as int));
            lemma_cong_small_eq(v as int, peval(s, z as int));
        }
    }
    assert(q@ =~= quotient_by_linear(c@, z as int));
    q
}

} // verus!
