//! Radix-2 evaluation and interpolation over a multiplicative subgroup of
//! power-of-two order.
//!
//! The transform of `c` with generator `omega` is the sequence of values of
//! the polynomial `c` at `omega^0, omega^1, ..., omega^(n-1)`.
use vstd::prelude::*;
use vstd::arithmetic::div_mod::*;
use vstd::arithmetic::power::*;
use crate::field::{P, modulus, all_fe, fadd, fsub, fmul, fpow, finv, is_inverse, lemma_finv_is, fe_add, fe_sub, fe_mul, fe_inv, fe_from_u64, lemma_mod_range};
use crate::algebra::{cong, poly_eval, peval, lemma_cong_add, lemma_cong_sub, lemma_cong_mul, lemma_cong_mod, lemma_cong_small_eq};

verus! {

/// `n` is a power of two (one included, zero excluded).
pub open spec fn is_pow2(n: nat) -> bool
    decreases n,
{
    if n == 1 {
        true
    } else if n < 2 || n % 2 == 1 {
        false
    } else {
        is_pow2(n / 2)
    }
}

/// `omega` generates the subgroup of order `n`: for `n >= 2`,
/// `omega^(n/2) = -1`, which for a power of two `n` says exactly that
/// `omega` is a primitive `n`-th root of unity.
pub open spec fn is_root_for(omega: int, n: nat) -> bool {
    n >= 2 ==> fpow(omega, n / 2) == modulus() - 1
}

/// The coefficients at even positions.
pub open spec fn evens(s: Seq<u32>) -> Seq<u32> {
    Seq::new(((s.len() + 1) / 2) as nat, |i: int| s[2 * i])
}

/// The coefficients at odd positions.
pub open spec fn odds(s: Seq<u32>) -> Seq<u32> {
    Seq::new((s.len() / 2) as nat, |i: int| s[2 * i + 1])
}

/// The values of the polynomial `c` at `omega^0 .. omega^(len - 1)`.
pub open spec fn dft(c: Seq<u32>, omega: int) -> Seq<int> {
    Seq::new(c.len(), |k: int| peval(c, fpow(omega, k as nat)))
}

/// The bits `0 .. b` of `x` in reverse order.
pub open spec fn rev_bits(x: nat, b: nat) -> nat
    decreases b,
{
    if b == 0 {
        0
    } else {
        ((x % 2) * pow(2, (b - 1) as nat) + rev_bits(x / 2, (b - 1) as nat)) as nat
    }
}

/// Congruent points give congruent values.
pub proof fn lemma_poly_eval_cong(c: Seq<u32>, y1: int, y2: int)
    requires
        cong(y1, y2),
    ensures
        cong(poly_eval(c, y1), poly_eval(c, y2)),
    decreases c.len(),
{
    if c.len() > 0 {
        let r = c.drop_first();
        lemma_poly_eval_cong(r, y1, y2);
        lemma_cong_mul(y1, y2, poly_eval(r, y1), poly_eval(r, y2));
        lemma_cong_add(c[0] as int, c[0] as int, y1 * poly_eval(r, y1), y2 * poly_eval(r, y2));
    }
}

/// The even/odd split: `c(x) = evens(c)(x^2) + x * odds(c)(x^2)`.
pub proof fn lemma_poly_eval_even_odd(c: Seq<u32>, x: int)
    ensures
        poly_eval(c, x) == poly_eval(evens(c), x * x) + x * poly_eval(odds(c), x * x),
    decreases c.len(),
{
    if c.len() == 0 {
        assert(evens(c).len() == 0);
        assert(odds(c).len() == 0);
    } else {
        let r = c.drop_first();
        let y = x * x;
        lemma_poly_eval_even_odd(r, x);
        assert(evens(c).drop_first() =~= odds(r));
        assert(odds(c) =~= evens(r));
        assert(evens(c)[0] == c[0]);
        let a = poly_eval(evens(r), y);
        let b = poly_eval(odds(r), y);
        assert(poly_eval(evens(c), y) == c[0] + y * b);
        assert(x * (a + x * b) == x * a + (x * x) * b) by (nonlinear_arith);
    }
}

/// The field power of a reduced square: `(w^2 mod p)^k = w^(2k)` in the field.
proof fn lemma_fpow_square(w: int, k: nat)
    ensures
        fpow((w * w) % modulus(), k) == pow(w, 2 * k) % modulus(),
        pow(w, 2 * k) == pow(w, k) * pow(w, k),
{
    lemma_pow_mod_noop(w * w, k, modulus());
    lemma_square_is_pow2(w);
    lemma_pow_multiplies(w, 2, k);
    lemma_pow_adds(w, k, k);
    assert(k + k == 2 * k);
}

/// One butterfly of the transform: from the values of the even and odd
/// halves at `omega^(2k)`, the values of the whole at `omega^k` and
/// `omega^(k + h)`, where `omega^h = -1`.
proof fn lemma_butterfly(a: Seq<u32>, omega: int, h: nat, k: nat, ek: int, ok: int, tw: int)
    requires
        omega >= 0,
        fpow(omega, h) == modulus() - 1,
        ek == peval(evens(a), fpow((omega * omega) % modulus(), k)),
        ok == peval(odds(a), fpow((omega * omega) % modulus(), k)),
        tw == fpow(omega, k),
    ensures
        fadd(ek, fmul(tw, ok)) == peval(a, fpow(omega, k)),
        fsub(ek, fmul(tw, ok)) == peval(a, fpow(omega, k + h)),
{
    let m = modulus();
    let x = pow(omega, k);
    let y = x * x;
    let ev = evens(a);
    let od = odds(a);
    lemma_fpow_square(omega, k);
    let s = fpow((omega * omega) % m, k);
    // s is congruent to x^2
    lemma_cong_mod(pow(omega, 2 * k));
    assert(cong(s, y));
    lemma_poly_eval_cong(ev, s, y);
    lemma_poly_eval_cong(od, s, y);
    let pe = poly_eval(ev, y);
    let po = poly_eval(od, y);
    lemma_cong_mod(poly_eval(ev, s));
    lemma_cong_mod(poly_eval(od, s));
    assert(cong(ek, pe));
    assert(cong(ok, po));
    lemma_cong_mod(x);
    assert(cong(tw, x));
    lemma_cong_mul(tw, x, ok, po);
    lemma_cong_mod(tw * ok);
    assert(cong(fmul(tw, ok), x * po));
    lemma_poly_eval_even_odd(a, x);
    // low half
    lemma_cong_add(ek, pe, fmul(tw, ok), x * po);
    lemma_cong_mod(ek + fmul(tw, ok));
    lemma_poly_eval_cong(a, fpow(omega, k), x);
    lemma_cong_mod(poly_eval(a, fpow(omega, k)));
    lemma_mod_range(ek + fmul(tw, ok));
    lemma_mod_range(poly_eval(a, fpow(omega, k)));
    lemma_cong_small_eq(fadd(ek, fmul(tw, ok)), peval(a, fpow(omega, k)));
    // high half: omega^(k + h) is congruent to -x
    lemma_pow_adds(omega, k, h);
    let xh = pow(omega, k + h);
    assert(xh == x * pow(omega, h));
    lemma_cong_mod(pow(omega, h));
    assert(cong(pow(omega, h), -1)) by {
        lemma_mod_range(pow(omega, h));
        assert((-1) % m == m - 1) by {
            lemma_fundamental_div_mod(-1, m);
            lemma_mod_range(-1);
        }
    }
    lemma_cong_mul(x, x, pow(omega, h), -1);
    assert(x * (-1) == -x) by (nonlinear_arith);
    assert(cong(xh, -x));
    lemma_poly_eval_even_odd(a, -x);
    assert((-x) * (-x) == y) by (nonlinear_arith)
        requires
            y == x * x,
    ;
    assert(poly_eval(a, -x) == pe + (-x) * po);
    assert(pe + (-x) * po == pe - x * po) by (nonlinear_arith);
    lemma_cong_sub(ek, pe, fmul(tw, ok), x * po);
    lemma_cong_mod(ek - fmul(tw, ok));
    lemma_poly_eval_cong(a, fpow(omega, k + h), xh);
    lemma_poly_eval_cong(a, xh, -x);
    lemma_cong_mod(pow(omega, k + h));
    lemma_cong_mod(poly_eval(a, fpow(omega, k + h)));
    lemma_mod_range(ek - fmul(tw, ok));
    lemma_mod_range(poly_eval(a, fpow(omega, (k + h) as nat)));
    lemma_cong_small_eq(fsub(ek, fmul(tw, ok)), peval(a, fpow(omega, (k + h) as nat)));
}


/// A power of two of at least two is even, and its half is a power of two.
proof fn lemma_pow2_half(n: nat)
    requires
        is_pow2(n),
        n >= 2,
    ensures
        n % 2 == 0,
        is_pow2(n / 2),
        n / 2 >= 1,
{
}

/// The transform by halving: transform the even and the odd coefficients
/// at `omega^2`, then combine them with one butterfly per index.
fn transform(a: &Vec<u32>, omega: u32) -> (r: Vec<u32>)
    requires
        is_pow2(a@.len()),
        all_fe(a@),
        omega < P,
        is_root_for(omega as int, a@.len()),
    ensures
        r@.len() == a@.len(),
        all_fe(r@),
        forall|k: int| 0 <= k < a@.len() ==> #[trigger] r@[k] == peval(a@, fpow(omega as int, k as nat)),
    decreases a@.len(),
{
    let n = a.len();
    if n == 1 {
        proof {
            assert forall|k: int| 0 <= k < 1 implies a@[k] == peval(a@, fpow(omega as int, k as nat)) by {
                let x = fpow(omega as int, k as nat);
                assert(a@.drop_first().len() == 0);
                assert(poly_eval(a@.drop_first(), x) == 0);
                assert(poly_eval(a@, x) == a@[0] + x * 0);
                lemma_small_mod(a@[0] as nat, modulus() as nat);
            }
        }
        let mut r: Vec<u32> = Vec::new();
        r.push(a[0]);
        return r;
    }
    proof {
        lemma_pow2_half(n as nat);
    }
    let h = n / 2;
    let mut ev: Vec<u32> = Vec::new();
    let mut od: Vec<u32> = Vec::new();
    let mut i: usize = 0;
    while i < h
        invariant
            h == n / 2,
            n == a@.len(),
            n % 2 == 0,
            i <= h,
            ev@.len() == i,
            od@.len() == i,
            forall|j: int| 0 <= j < i ==> #[trigger] ev@[j] == a@[2 * j],
            forall|j: int| 0 <= j < i ==> #[trigger] od@[j] == a@[2 * j + 1],
        decreases h - i,
    {
        ev.push(a[2 * i]);
        od.push(a[2 * i + 1]);
        i = i + 1;
    }
    assert(ev@ =~= evens(a@));
    assert(od@ =~= odds(a@));
    let w2 = fe_mul(omega, omega);
    proof {
        if h >= 2 {
            lemma_pow2_half(h as nat);
            lemma_fpow_square(omega as int, (h / 2) as nat);
            assert(2 * (h / 2) == h);
            assert(h as nat == n as nat / 2);
        }
    }
    let e = transform(&ev, w2);
    let o = transform(&od, w2);
    let mut lo: Vec<u32> = Vec::new();
    let mut hi: Vec<u32> = Vec::new();
    let mut tw: u32 = 1;
    let mut k: usize = 0;
    proof {
        lemma_small_mod(1, modulus() as nat);
        reveal(pow);
    }
    while k < h
        invariant
            h == n / 2,
            n == a@.len(),
            h >= 1,
            omega < P,
            w2 == fmul(omega as int, omega as int),
            fpow(omega as int, h as nat) == modulus() - 1,
            k <= h,
            tw < P,
            tw == fpow(omega as int, k as nat),
            e@.len() == h,
            o@.len() == h,
            all_fe(e@),
            all_fe(o@),
            forall|j: int| 0 <= j < h ==> #[trigger] e@[j] == peval(evens(a@), fpow(w2 as int, j as nat)),
            forall|j: int| 0 <= j < h ==> #[trigger] o@[j] == peval(odds(a@), fpow(w2 as int, j as nat)),
            lo@.len() == k,
            hi@.len() == k,
            all_fe(lo@),
            all_fe(hi@),
            forall|j: int| 0 <= j < k ==> #[trigger] lo@[j] == peval(a@, fpow(omega as int, j as nat)),
            forall|j: int| 0 <= j < k ==> #[trigger] hi@[j] == peval(a@, fpow(omega as int, (j + h) as nat)),
        decreases h - k,
    {
        let t = fe_mul(tw, o[k]);
        let x = fe_add(e[k], t);
        let y = fe_sub(e[k], t);
        proof {
            lemma_butterfly(a@, omega as int, h as nat, k as nat, e@[k as int] as int, o@[k as int] as int, tw as int);
        }
        lo.push(x);
        hi.push(y);
        let ghost old_tw = tw;
        tw = fe_mul(tw, omega);
        proof {
            lemma_pow_adds(omega as int, k as nat, 1);
            lemma_pow1(omega as int);
            lemma_mul_mod_noop_left(pow(omega as int, k as nat), omega as int, modulus());
        }
        k = k + 1;
    }
    let mut r = lo;
    let mut j: usize = 0;
    while j < h
        invariant
            h == n / 2,
            n == a@.len(),
            j <= h,
            hi@.len() == h,
            all_fe(hi@),
            forall|q: int| 0 <= q < h ==> #[trigger] hi@[q] == peval(a@, fpow(omega as int, (q + h) as nat)),
            r@.len() == h + j,
            all_fe(r@),
            forall|q: int| 0 <= q < h + j ==> #[trigger] r@[q] == peval(a@, fpow(omega as int, q as nat)),
        decreases h - j,
    {
        r.push(hi[j]);
        proof {
            assert(r@[h + j] == peval(a@, fpow(omega as int, ((j as int) + h) as nat)));
        }
        j = j + 1;
    }
    r
}


/// A power of two is not a multiple of the (odd) modulus.
pub proof fn lemma_pow2_not_multiple(n: nat)
    requires
        is_pow2(n),
    ensures
        (n as int) % modulus() != 0,
    decreases n,
{
    let m = modulus();
    if n == 1 {
        lemma_small_mod(1, m as nat);
    } else {
        let h = n / 2;
        lemma_pow2_not_multiple(h);
        assert(n == 2 * h);
        lemma_mul_mod_noop_right(2, h as int, m);
        lemma_mod_range(h as int);
        let r: int = (h as int) % m;
        assert(0 < 2 * r < 2 * m);
        assert((2 * r) % m != 0) by {
            lemma_fundamental_div_mod(2 * r, m);
            let q = (2 * r) / m;
            if (2 * r) % m == 0 {
                assert(m * q == 2 * r);
                assert(false) by (nonlinear_arith)
                    requires
                        m * q == 2 * r,
                        0 < 2 * r < 2 * m,
                        m == 2013265921,
                ;
            }
        }
    }
}

/// The inverse of a generator of the subgroup of order `n` generates it too.
pub proof fn lemma_inverse_is_root(omega: int, oi: int, n: nat)
    requires
        is_inverse(omega, oi),
        is_root_for(omega, n),
    ensures
        is_root_for(oi, n),
{
    if n >= 2 {
        let m = modulus();
        let h = n / 2;
        lemma_pow_distributes(oi, omega, h);
        lemma_pow_mod_noop(oi * omega, h, m);
        assert(oi * omega == omega * oi) by (nonlinear_arith);
        lemma1_pow(h);
        assert(cong(pow(oi, h) * pow(omega, h), 1));
        lemma_cong_mod(pow(omega, h));
        lemma_cong_mod(pow(oi, h));
        assert(cong(pow(omega, h), m - 1));
        assert(cong(m - 1, -1)) by {
            lemma_mod_range(-1);
            lemma_fundamental_div_mod(-1, m);
            lemma_small_mod((m - 1) as nat, m as nat);
        }
        lemma_cong_mul(pow(oi, h), pow(oi, h), pow(omega, h), -1);
        assert(pow(oi, h) * (-1) == -pow(oi, h)) by (nonlinear_arith);
        assert(cong(-pow(oi, h), 1));
        lemma_cong_mul(-pow(oi, h), 1, -1, -1);
        assert((-pow(oi, h)) * (-1) == pow(oi, h)) by (nonlinear_arith);
        assert(cong(pow(oi, h), -1));
        lemma_mod_range(pow(oi, h));
        lemma_cong_small_eq(fpow(oi, h), m - 1);
    }
}

/// The values that interpolation on the subgroup generated by `omega`
/// gives back for the evaluations `evals`:
/// `n^(-1) * sum_k evals[k] * omega^(-jk)` at each index `j`.
pub open spec fn inverse_dft(evals: Seq<u32>, omega: int) -> Seq<int> {
    Seq::new(
        evals.len(),
        |j: int| fmul(finv(evals.len() as int), peval(evals, fpow(finv(omega), j as nat))),
    )
}

/// Column `c` of a matrix given as rows.
pub open spec fn column_of(rows: Seq<Vec<u32>>, c: int) -> Seq<u32> {
    Seq::new(rows.len(), |r: int| rows[r]@[c])
}

/// Radix-2 transforms over a subgroup of power-of-two order.
pub struct Radix2Interpolator;

impl Radix2Interpolator {
    /// Forward transform: coefficient form to the values at
    /// `omega^0, ..., omega^(n-1)`. `omega` must generate the subgroup of
    /// order `n`, a power of two.
    pub fn fft(coeffs: &Vec<u32>, omega: u32) -> (r: Vec<u32>)
        requires
            is_pow2(coeffs@.len()),
            all_fe(coeffs@),
            omega < P,
            is_root_for(omega as int, coeffs@.len()),
        ensures
            r@.len() == coeffs@.len(),
            all_fe(r@),
            forall|k: int| 0 <= k < r@.len() ==> #[trigger] r@[k] == dft(coeffs@, omega as int)[k],
    {
        let mut a = coeffs.clone();
        assert(a@ == coeffs@);
        Self::fft_in_place(&mut a, omega);
        a
    }

    /// Inverse transform: the values at `omega^0, ..., omega^(n-1)` back to
    /// coefficient form, by the forward transform at `omega^(-1)` and a
    /// division by `n`.
    pub fn ifft(evals: &Vec<u32>, omega: u32) -> (r: Vec<u32>)
        requires
            is_pow2(evals@.len()),
            all_fe(evals@),
            0 < omega < P,
            is_root_for(omega as int, evals@.len()),
        ensures
            r@.len() == evals@.len(),
            all_fe(r@),
            forall|j: int| 0 <= j < r@.len() ==> #[trigger] r@[j] == inverse_dft(evals@, omega as int)[j],
    {
        let n = evals.len();
        let omega_inv = fe_inv(omega);
        proof {
            lemma_inverse_is_root(omega as int, omega_inv as int, n as nat);
        }
        let mut a = evals.clone();
        assert(a@ == evals@);
        Self::fft_in_place(&mut a, omega_inv);
        let nf = fe_from_u64(n as u64);
        proof {
            lemma_pow2_not_multiple(n as nat);
        }
        let n_inv = fe_inv(nf);
        proof {
            lemma_mul_mod_noop_left(n as int, n_inv as int, modulus());
            lemma_finv_is(n as int, n_inv as int);
        }
        let ghost t = a@;
        let mut i: usize = 0;
        while i < n
            invariant
                n == a@.len(),
                n == t.len(),
                n == evals@.len(),
                n_inv < P,
                n_inv == finv(n as int),
                omega_inv == finv(omega as int),
                all_fe(t),
                forall|k: int| 0 <= k < n ==> #[trigger] t[k] == peval(evals@, fpow(omega_inv as int, k as nat)),
                i <= n,
                all_fe(a@),
                forall|k: int| i <= k < n ==> #[trigger] a@[k] == t[k],
                forall|k: int| 0 <= k < i ==> #[trigger] a@[k] == inverse_dft(evals@, omega as int)[k],
            decreases n - i,
        {
            let v = fe_mul(a[i], n_inv);
            a.set(i, v);
            proof {
                assert(fmul(t[i as int] as int, n_inv as int) == fmul(n_inv as int, t[i as int] as int)) by {
                    assert((t[i as int] as int) * (n_inv as int) == (n_inv as int) * (t[i as int] as int)) by (nonlinear_arith);
                }
            }
            i = i + 1;
        }
        a
    }

    /// The transform in place: `a` becomes its values at the powers of
    /// `omega`.
    fn fft_in_place(a: &mut Vec<u32>, omega: u32)
        requires
            old(a)@.len() == 0 || is_pow2(old(a)@.len()),
            all_fe(old(a)@),
            omega < P,
            is_root_for(omega as int, old(a)@.len()),
        ensures
            final(a)@.len() == old(a)@.len(),
            all_fe(final(a)@),
            forall|k: int| 0 <= k < final(a)@.len() ==> #[trigger] final(a)@[k] == peval(old(a)@, fpow(omega as int, k as nat)),
    {
        let n = a.len();
        if n == 0 {
            return;
        }
        let r = transform(a, omega);
        *a = r;
    }

    /// `x` with its lowest `bits` bits reversed (higher bits dropped).
    pub fn reverse_bits(x: usize, bits: u32) -> (r: usize)
        requires
            bits <= usize::BITS,
        ensures
            r == rev_bits(x as nat, bits as nat),
    {
        let mut y = x;
        let mut r: usize = 0;
        let mut i: u32 = 0;
        let ghost x0 = y;
        proof {
            reveal(pow);
            assert(rev_bits(x0 as nat, bits as nat) == 0 * pow(2, bits as nat) + rev_bits(x0 as nat, bits as nat));
        }
        while i < bits
            invariant
                bits <= usize::BITS,
                i <= bits,
                r < pow(2, i as nat),
                r * pow(2, (bits - i) as nat) + rev_bits(y as nat, (bits - i) as nat) == rev_bits(x0 as nat, bits as nat),
            decreases bits - i,
        {
            let ghost r0 = r;
            let ghost x1 = y;
            let b = y % 2;
            proof {
                lemma_pow_adds(2, i as nat, 1);
                lemma_pow1(2);
                assert(pow(2, (i + 1) as nat) <= pow(2, usize::BITS as nat)) by {
                    lemma_pow_increases(2, (i + 1) as nat, usize::BITS as nat);
                }
                assert(pow(2, usize::BITS as nat) == usize::MAX + 1) by {
                    vstd::arithmetic::power2::lemma2_to64();
                    vstd::arithmetic::power2::lemma2_to64_rest();
                    vstd::arithmetic::power2::lemma_pow2(usize::BITS as nat);
                }
            }
            let nr = r * 2 + b;
            r = nr;
            y = y / 2;
            proof {
                let k = (bits - i - 1) as nat;
                lemma_pow_positive(2, k);
                assert(rev_bits(x1 as nat, k + 1) == (x1 as nat % 2) * pow(2, k) + rev_bits(x1 as nat / 2, k));
                lemma_pow_adds(2, k, 1);
                assert((bits - i) as nat == k + 1);
                assert(r0 * pow(2, k + 1) == (2 * r0) * pow(2, k)) by (nonlinear_arith)
                    requires
                        pow(2, k + 1) == pow(2, k) * pow(2, 1),
                        pow(2, 1) == 2,
                ;
                assert((2 * r0 + b) * pow(2, k) == (2 * r0) * pow(2, k) + b * pow(2, k)) by (nonlinear_arith);
            }
            i = i + 1;
        }
        proof {
            lemma_pow0(2);
            assert(rev_bits(y as nat, 0) == 0);
            assert(i == bits);
            assert(pow(2, (bits - i) as nat) == 1);
            assert(r * pow(2, (bits - i) as nat) == r) by (nonlinear_arith)
                requires
                    pow(2, (bits - i) as nat) == 1,
            ;
            assert(r == rev_bits(x0 as nat, bits as nat));
            assert(x0 == x);
        }
        r
    }

    /// Interpolate one column: its values at the powers of `omega` back to
    /// coefficient form.
    pub fn interpolate_column(evals: &Vec<u32>, omega: u32) -> (r: Vec<u32>)
        requires
            is_pow2(evals@.len()),
            all_fe(evals@),
            0 < omega < P,
            is_root_for(omega as int, evals@.len()),
        ensures
            r@.len() == evals@.len(),
            all_fe(r@),
            forall|j: int| 0 <= j < r@.len() ==> #[trigger] r@[j] == inverse_dft(evals@, omega as int)[j],
    {
        Self::ifft(evals, omega)
    }

    /// Interpolate every column of a matrix given as rows (rows are the
    /// evaluation points, columns independent polynomials); one
    /// coefficient vector per column, as many columns as the first row has.
    pub fn interpolate_matrix(matrix: &Vec<Vec<u32>>, omega: u32) -> (r: Vec<Vec<u32>>)
        requires
            forall|i: int| 0 <= i < matrix@.len() ==> #[trigger] matrix@[i]@.len() >= matrix@[0]@.len(),
            forall|i: int| 0 <= i < matrix@.len() ==> all_fe(#[trigger] matrix@[i]@),
            matrix@.len() > 0 && matrix@[0]@.len() > 0 ==> {
                &&& is_pow2(matrix@.len())
                &&& 0 < omega < P
                &&& is_root_for(omega as int, matrix@.len())
            },
        ensures
            r@.len() == (if matrix@.len() > 0 { matrix@[0]@.len() } else { 0 }),
            forall|c: int| 0 <= c < r@.len() ==> #[trigger] r@[c]@.len() == matrix@.len(),
            forall|c: int, j: int| 0 <= c < r@.len() && 0 <= j < matrix@.len()
                ==> #[trigger] r@[c]@[j] == inverse_dft(column_of(matrix@, c), omega as int)[j],
    {
        let n_rows = matrix.len();
        let n_cols = if n_rows > 0 { matrix[0].len() } else { 0 };
        let mut out: Vec<Vec<u32>> = Vec::new();
        let mut c: usize = 0;
        while c < n_cols
            invariant
                n_rows == matrix@.len(),
                n_cols == (if n_rows > 0 { matrix@[0]@.len() } else { 0 }),
                forall|i: int| 0 <= i < matrix@.len() ==> #[trigger] matrix@[i]@.len() >= matrix@[0]@.len(),
                forall|i: int| 0 <= i < matrix@.len() ==> all_fe(#[trigger] matrix@[i]@),
                n_cols > 0 ==> {
                    &&& is_pow2(n_rows as nat)
                    &&& 0 < omega < P
                    &&& is_root_for(omega as int, n_rows as nat)
                },
                c <= n_cols,
                out@.len() == c,
                forall|q: int| 0 <= q < c ==> #[trigger] out@[q]@.len() == n_rows,
                forall|q: int, j: int| 0 <= q < c && 0 <= j < n_rows
                    ==> #[trigger] out@[q]@[j] == inverse_dft(column_of(matrix@, q), omega as int)[j],
            decreases n_cols - c,
        {
            let mut col: Vec<u32> = Vec::new();
            let mut r: usize = 0;
            while r < n_rows
                invariant
                    n_rows == matrix@.len(),
                    n_rows > 0,
                    c < matrix@[0]@.len(),
                    forall|i: int| 0 <= i < matrix@.len() ==> #[trigger] matrix@[i]@.len() >= matrix@[0]@.len(),
                    forall|i: int| 0 <= i < matrix@.len() ==> all_fe(#[trigger] matrix@[i]@),
                    r <= n_rows,
                    col@.len() == r,
                    forall|i: int| 0 <= i < r ==> #[trigger] col@[i] == matrix@[i]@[c as int],
                    all_fe(col@),
                decreases n_rows - r,
            {
                let v = matrix[r][c];
                proof {
                    assert(all_fe(matrix@[r as int]@));
                }
                col.push(v);
                r = r + 1;
            }
            assert(col@ =~= column_of(matrix@, c as int));
            let coeffs = Self::interpolate_column(&col, omega);
            out.push(coeffs);
            c = c + 1;
        }
        out
    }

    /// The value of the polynomial `coeffs` at `point`, by Horner's rule.
    pub fn evaluate_coeffs(coeffs: &Vec<u32>, point: u32) -> (r: u32)
        requires
            all_fe(coeffs@),
            point < P,
        ensures
            r == peval(coeffs@, point as int),
    {
        let n = coeffs.len();
        let mut result: u32 = 0;
        let mut i: usize = n;
        proof {
            assert(coeffs@.subrange(n as int, n as int).len() == 0);
            lemma_small_mod(0, modulus() as nat);
        }
        while i > 0
            invariant
                n == coeffs@.len(),
                all_fe(coeffs@),
                point < P,
                i <= n,
                result < P,
                result == peval(coeffs@.subrange(i as int, n as int), point as int),
            decreases i,
        {
            let ghost tail = coeffs@.subrange(i as int, n as int);
            i = i - 1;
            let t = fe_mul(result, point);
            result = fe_add(t, coeffs[i]);
            proof {
                let s = coeffs@.subrange(i as int, n as int);
                assert(s.drop_first() =~= tail);
                let m = modulus();
                let pe = poly_eval(tail, point as int);
                // result = (((pe % m) * point) % m + c) % m and poly_eval(s) = c + point * pe
                lemma_cong_mod(pe);
                lemma_cong_mul(pe % m, pe, point as int, point as int);
                lemma_cong_mod((pe % m) * point);
                lemma_cong_add(((pe % m) * point) % m, pe * point, coeffs@[i as int] as int, coeffs@[i as int] as int);
                assert(pe * point == point * pe) by (nonlinear_arith);
                lemma_cong_mod(((pe % m) * point) % m + coeffs@[i as int]);
                lemma_mod_range(((pe % m) * point) % m + coeffs@[i as int]);
                lemma_mod_range(poly_eval(s, point as int));
                lemma_cong_mod(poly_eval(s, point as int));
                lemma_cong_small_eq(result as int, peval(s, point as int));
            }
        }
        assert(coeffs@.subrange(0, n as int) =~= coeffs@);
        result
    }
}

} // verus!
