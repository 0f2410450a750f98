//! Coefficient-form polynomials over BabyBear: vanishing polynomials, long
//! division and constraint quotients.
use vstd::prelude::*;
use vstd::arithmetic::power::*;
use crate::algebra::{cong, lemma_cong_add, lemma_cong_mod, lemma_cong_mul, lemma_cong_multiple, lemma_cong_small_eq, lemma_cong_sub, lemma_poly_eval_push, lemma_poly_eval_split, lemma_poly_eval_take_zeros, lemma_poly_eval_update, lemma_poly_eval_zeros, poly_eval};
use crate::field::{all_fe, fe_inv, fe_mul, fe_neg, fe_sub, fmul, fsub, modulus, P};
use crate::fft::{is_pow2, is_root_for, dft, inverse_dft};
use crate::oracle::{log2, ilog2};
use p3_baby_bear::BabyBear;
use p3_dft::{Radix2Dit, TwoAdicSubgroupDft};
use p3_field::{PrimeField32, TwoAdicField};

verus! {

/// `r` is a remainder of dividing `num` by `den` with quotient `q`: it has
/// fewer coefficients than `den`, holds field elements, and
/// `num(x) = q(x) * den(x) + r(x)` in the field for every `x`.
pub open spec fn is_division(num: Seq<u32>, den: Seq<u32>, q: Seq<u32>, r: Seq<u32>) -> bool {
    &&& r.len() < den.len()
    &&& all_fe(r)
    &&& forall|x: int|
        #![trigger poly_eval(num, x)]
        cong(poly_eval(num, x), poly_eval(q, x) * poly_eval(den, x) + poly_eval(r, x))
}

/// The coefficients of `x^n - 1` (the polynomial `1` when `n` is zero).
pub open spec fn vanishing_spec(n: nat) -> Seq<u32> {
    Seq::new(
        n + 1,
        |i: int|
            if i == n {
                1u32
            } else if i == 0 {
                (P - 1) as u32
            } else {
                0u32
            },
    )
}

/// Compute the vanishing polynomial Z_H(x) = x^n - 1 of a domain of size `n`.
pub fn vanishing_poly(n: usize) -> (c: Vec<u32>)
    requires
        n < usize::MAX,
    ensures
        c@ == vanishing_spec(n as nat),
        all_fe(c@),
{
    let mut coeffs: Vec<u32> = Vec::new();
    let mut i: usize = 0;
    while i <= n
        invariant
            n < usize::MAX,
            i <= n + 1,
            coeffs@.len() == i,
            forall|j: int| 0 <= j < i ==> coeffs@[j] == 0,
        decreases n + 1 - i,
    {
        coeffs.push(0);
        i = i + 1;
    }
    coeffs.set(0, fe_neg(1));
    coeffs.set(n, 1);
    assert(coeffs@ =~= vanishing_spec(n as nat));
    coeffs
}

/// `x^n - 1` evaluates to `x^n - 1`.
pub proof fn lemma_vanishing_eval(n: nat, x: int)
    requires
        n >= 1,
    ensures
        cong(poly_eval(vanishing_spec(n), x), pow(x, n) - 1),
{
    let v = vanishing_spec(n);
    let low = v.subrange(0, n as int);
    assert(v =~= low.push(1u32));
    lemma_poly_eval_push(low, 1u32, x);
    assert(low =~= Seq::<u32>::empty().push((P - 1) as u32) + Seq::new((n - 1) as nat, |i: int| 0u32));
    lemma_poly_eval_split(low, 1, x);
    let tail = low.subrange(1, n as int);
    lemma_poly_eval_zeros(tail, x);
    assert(low.subrange(0, 1) =~= seq![(P - 1) as u32]);
    assert(poly_eval(seq![(P - 1) as u32], x) == (P - 1) as int) by {
        assert(seq![(P - 1) as u32].drop_first() =~= Seq::<u32>::empty());
        assert(poly_eval(Seq::<u32>::empty(), x) == 0);
        assert(x * 0 == 0);
    }
    assert(pow(x, 1) * 0 == 0);
    assert(poly_eval(v, x) == (P - 1) as int + pow(x, n));
    assert(((P - 1) as int + pow(x, n)) - (pow(x, n) - 1) == modulus());
    vstd::arithmetic::div_mod::lemma_mod_self_0(modulus());
    lemma_cong_multiple(1, 1);
    assert(cong((P - 1) as int + pow(x, n), pow(x, n) - 1)) by {
        vstd::arithmetic::div_mod::lemma_mod_add_multiples_vanish(pow(x, n) - 1, modulus());
    }
}

/// Polynomial long division: the quotient of `num` by `den`. When `num`
/// has fewer coefficients than `den` the quotient is the zero polynomial,
/// returned empty.
pub fn poly_div(num: &[u32], den: &[u32]) -> (q: Vec<u32>)
    requires
        all_fe(num@),
        all_fe(den@),
        den@.len() > 0,
        num@.len() >= den@.len() ==> den@.last() != 0,
    ensures
        all_fe(q@),
        q@.len() == (if num@.len() < den@.len() { 0 } else { num@.len() - den@.len() + 1 }),
        exists|r: Seq<u32>| #[trigger] is_division(num@, den@, q@, r),
{
    if num.len() < den.len() {
        let empty: Vec<u32> = Vec::new();
        proof {
            assert forall|x: int| #![trigger poly_eval(num@, x)] cong(
                poly_eval(num@, x),
                poly_eval(Seq::<u32>::empty(), x) * poly_eval(den@, x) + poly_eval(num@, x),
            ) by {
                assert(poly_eval(Seq::<u32>::empty(), x) == 0);
            }
            assert(empty@ =~= Seq::<u32>::empty());
            assert(is_division(num@, den@, empty@, num@));
        }
        return empty;
    }
    let n = num.len();
    let d = den.len();
    let m = n - d + 1;
    let mut q: Vec<u32> = Vec::new();
    let mut i: usize = 0;
    while i < m
        invariant
            i <= m,
            q@.len() == i,
            forall|j: int| 0 <= j < i ==> q@[j] == 0,
        decreases m - i,
    {
        q.push(0);
        i = i + 1;
    }
    let mut r: Vec<u32> = Vec::new();
    i = 0;
    while i < n
        invariant
            i <= n,
            n == num@.len(),
            r@ == num@.subrange(0, i as int),
        decreases n - i,
    {
        r.push(num[i]);
        i = i + 1;
    }
    assert(r@ =~= num@);
    proof {
        lemma_poly_eval_zeros(q@, 0);
        assert forall|x: int| #![trigger poly_eval(num@, x)] cong(
            poly_eval(num@, x),
            poly_eval(q@, x) * poly_eval(den@, x) + poly_eval(r@, x),
        ) by {
            lemma_poly_eval_zeros(q@, x);
        }
    }
    let den_lead = den[d - 1];
    let mut k: usize = m;
    while k > 0
        invariant
            n == num@.len(),
            d == den@.len(),
            d > 0,
            m == n - d + 1,
            den_lead == den@[d - 1],
            0 < den_lead < P,
            all_fe(num@),
            all_fe(den@),
            k <= m,
            q@.len() == m,
            r@.len() == n,
            all_fe(q@),
            all_fe(r@),
            forall|j: int| 0 <= j < k ==> q@[j] == 0,
            forall|j: int| k + d - 1 <= j < n ==> r@[j] == 0,
            forall|x: int|
                #![trigger poly_eval(num@, x)]
                cong(poly_eval(num@, x), poly_eval(q@, x) * poly_eval(den@, x) + poly_eval(r@, x)),
        decreases k,
    {
        k = k - 1;
        let inv = fe_inv(den_lead);
        let coeff = fe_mul(r[k + d - 1], inv);
        let ghost r0 = r@;
        let ghost q0 = q@;
        let mut j: usize = 0;
        while j < d
            invariant
                n == num@.len(),
                d == den@.len(),
                k + d <= n,
                coeff < P,
                all_fe(den@),
                r@.len() == n,
                r0.len() == n,
                all_fe(r@),
                j <= d,
                forall|t: int| 0 <= t < n && !(k <= t < k + j) ==> r@[t] == r0[t],
                forall|t: int|
                    0 <= t < j ==> r@[k + t] == fsub(
                        r0[k + t] as int,
                        fmul(coeff as int, den@[t] as int),
                    ),
                forall|x: int|
                    #![trigger poly_eval(r@, x)]
                    cong(
                        poly_eval(r@, x),
                        poly_eval(r0, x) - coeff * pow(x, k as nat) * poly_eval(
                            den@.subrange(0, j as int),
                            x,
                        ),
                    ),
            decreases d - j,
        {
            let ghost r1 = r@;
            let v = fe_sub(r[k + j], fe_mul(coeff, den[j]));
            r.set(k + j, v);
            proof {
                assert forall|x: int| #![trigger poly_eval(r@, x)] cong(
                    poly_eval(r@, x),
                    poly_eval(r0, x) - coeff * pow(x, k as nat) * poly_eval(
                        den@.subrange(0, j + 1),
                        x,
                    ),
                ) by {
                    lemma_poly_eval_update(r1, (k + j) as int, v, x);
                    assert(den@.subrange(0, j + 1) =~= den@.subrange(0, j as int).push(den@[j as int]));
                    lemma_poly_eval_push(den@.subrange(0, j as int), den@[j as int], x);
                    lemma_pow_adds(x, k as nat, j as nat);
                    let pk = pow(x, k as nat);
                    let pj = pow(x, j as nat);
                    let a = poly_eval(den@.subrange(0, j as int), x);
                    let dj = den@[j as int] as int;
                    let old_v = r1[(k + j) as int] as int;
                    // v == old_v - coeff * dj   (mod p)
                    lemma_cong_mod(old_v - coeff * dj);
                    lemma_cong_mod(coeff * dj);
                    lemma_cong_sub(old_v, old_v, (coeff * dj) % modulus(), coeff * dj);
                    assert(cong(v as int, old_v - coeff * dj));
                    lemma_cong_sub(v as int, old_v - coeff * dj, old_v, old_v);
                    lemma_cong_mul(v - old_v, -(coeff * dj), pk * pj, pk * pj);
                    assert((-(coeff * dj)) * (pk * pj) == -(coeff * pk * (dj * pj))) by (nonlinear_arith);
                    assert(coeff * pk * (a + dj * pj) == coeff * pk * a + coeff * pk * (dj * pj))
                        by (nonlinear_arith);
                    let lhs_old = poly_eval(r1, x);
                    let rhs_old = poly_eval(r0, x) - coeff * pk * a;
                    lemma_cong_add(lhs_old, rhs_old, (v - old_v) * (pk * pj), -(coeff * pk * (dj * pj)));
                }
            }
            j = j + 1;
        }
        proof {
            assert(den@.subrange(0, d as int) =~= den@);
            // the leading position is cleared
            let top = (k + d - 1) as int;
            let lead_val = r0[top] as int;
            assert(coeff == fmul(lead_val, inv as int));
            assert(r@[top] == fsub(lead_val, fmul(coeff as int, den_lead as int)));
            // coeff * den_lead == lead_val (mod p)
            lemma_cong_mod(lead_val * inv);
            lemma_cong_mul(coeff as int, lead_val * inv, den_lead as int, den_lead as int);
            assert(lead_val * inv * den_lead == lead_val * (inv * den_lead)) by (nonlinear_arith);
            assert(inv * den_lead == den_lead * inv) by (nonlinear_arith);
            lemma_cong_mul(lead_val, lead_val, inv * den_lead, 1);
            lemma_cong_mod(coeff * den_lead);
            assert(cong(fmul(coeff as int, den_lead as int), lead_val));
            lemma_cong_sub(lead_val, lead_val, fmul(coeff as int, den_lead as int), lead_val);
            lemma_cong_mod(lead_val - fmul(coeff as int, den_lead as int));
            lemma_cong_small_eq(r@[top] as int, 0);
        }
        let ghost q_before = q@;
        q.set(k, coeff);
        proof {
            assert forall|x: int| #![trigger poly_eval(num@, x)] cong(
                poly_eval(num@, x),
                poly_eval(q@, x) * poly_eval(den@, x) + poly_eval(r@, x),
            ) by {
                lemma_poly_eval_update(q_before, k as int, coeff, x);
                let pk = pow(x, k as nat);
                let qv = poly_eval(q_before, x);
                let dv = poly_eval(den@, x);
                let rv = poly_eval(r0, x);
                assert((qv + coeff * pk) * dv + (rv - coeff * pk * dv) == qv * dv + rv) by (nonlinear_arith);
                lemma_cong_add(
                    (qv + coeff * pk) * dv,
                    (qv + coeff * pk) * dv,
                    poly_eval(r@, x),
                    rv - coeff * pk * dv,
                );
                assert(q_before[k as int] == 0);
            }
            assert forall|t: int| k + d - 1 <= t < n implies r@[t] == 0 by {
                if t > k + d - 1 {
                    assert(r@[t] == r0[t]);
                }
            }
        }
    }
    proof {
        let rr = r@.subrange(0, (d - 1) as int);
        assert forall|x: int| #![trigger poly_eval(num@, x)] cong(
            poly_eval(num@, x),
            poly_eval(q@, x) * poly_eval(den@, x) + poly_eval(rr, x),
        ) by {
            lemma_poly_eval_take_zeros(r@, (d - 1) as int, x);
        }
        assert(is_division(num@, den@, q@, rr));
    }
    q
}

/// The quotient `Q(x) = C(x) / Z_H(x)` of a constraint polynomial by the
/// vanishing polynomial of a domain of size `domain_size`.
pub fn build_quotient(constraint_poly: &[u32], domain_size: usize) -> (q: Vec<u32>)
    requires
        all_fe(constraint_poly@),
        domain_size < usize::MAX,
    ensures
        all_fe(q@),
        q@.len() == (if constraint_poly@.len() < domain_size + 1 {
            0
        } else {
            constraint_poly@.len() - domain_size
        }),
        exists|r: Seq<u32>| #[trigger] is_division(constraint_poly@, vanishing_spec(domain_size as nat), q@, r),
{
    let van = vanishing_poly(domain_size);
    poly_div(constraint_poly, van.as_slice())
}

/// The largest power of two whose subgroup BabyBear has: `2^27`.
pub const TWO_ADICITY: usize = 27;

/// The generator Plonky3 picks for the subgroup of order `2^bits`: entry
/// `bits` of BabyBear's table of two-adic generators (each the square of
/// the next), for `bits` up to the two-adicity.
pub open spec fn two_adic_generator_spec(bits: nat) -> u32 {
    let table = seq![
        0x1u32, 0x78000000, 0x67055c21, 0x5ee99486, 0xbb4c4e4, 0x2d4cc4da, 0x669d6090, 0x17b56c64,
        0x67456167, 0x688442f9, 0x145e952d, 0x4fe61226, 0x4c734715, 0x11c33e2a, 0x62c3d2b1,
        0x77cad399, 0x54c131f4, 0x4cabd6a6, 0x5cf5713f, 0x3e9430e8, 0xba067a3, 0x18adc27d,
        0x21fd55bc, 0x4b859b3d, 0x3bd57996, 0x4483d85a, 0x3a26eef8, 0x1a427a41,
    ];
    if bits < table.len() { table[bits as int] } else { 0 }
}

/// `TwoAdicField::two_adic_generator`: entry `bits` of the table above, a
/// field element generating the subgroup of order `2^bits`, for `bits` up
/// to the two-adicity. That each entry has that order is claimed, not
/// proved here.
#[verifier::external_body]
fn two_adic_generator(bits: usize) -> (g: u32)
    requires
        bits <= TWO_ADICITY,
    ensures
        g == two_adic_generator_spec(bits as nat),
        0 < g < P,
        is_root_for(g as int, vstd::arithmetic::power2::pow2(bits as nat)),
{
    BabyBear::two_adic_generator(bits).as_canonical_u32()
}

/// `Radix2Dit::dft`: the values of the polynomial `coeffs` on the subgroup
/// of order `coeffs.len()`, in the order of the powers of its generator.
#[verifier::external_body]
pub(crate) fn radix2_dft(coeffs: &[u32]) -> (r: Vec<u32>)
    requires
        is_pow2(coeffs@.len()),
        coeffs@.len() <= vstd::arithmetic::power2::pow2(TWO_ADICITY as nat),
        all_fe(coeffs@),
    ensures
        r@.len() == coeffs@.len(),
        all_fe(r@),
        forall|k: int| 0 <= k < r@.len() ==> #[trigger] r@[k] == dft(
            coeffs@,
            two_adic_generator_spec(log2(coeffs@.len())) as int,
        )[k],
{
    let v: Vec<BabyBear> = coeffs.iter().map(|&c| BabyBear::new(c)).collect();
    Radix2Dit::default().dft(v).iter().map(|x| x.as_canonical_u32()).collect()
}

/// `Radix2Dit::idft`: the coefficients of the polynomial with values
/// `evals` on the subgroup of order `evals.len()`.
#[verifier::external_body]
pub(crate) fn radix2_idft(evals: &[u32]) -> (r: Vec<u32>)
    requires
        is_pow2(evals@.len()),
        evals@.len() <= vstd::arithmetic::power2::pow2(TWO_ADICITY as nat),
        all_fe(evals@),
    ensures
        r@.len() == evals@.len(),
        all_fe(r@),
        forall|j: int| 0 <= j < r@.len() ==> #[trigger] r@[j] == inverse_dft(
            evals@,
            two_adic_generator_spec(log2(evals@.len())) as int,
        )[j],
{
    let v: Vec<BabyBear> = evals.iter().map(|&c| BabyBear::new(c)).collect();
    Radix2Dit::default().idft(v).iter().map(|x| x.as_canonical_u32()).collect()
}

/// The generator of the subgroup of order `n`, a power of two.
pub fn subgroup_generator(n: usize) -> (g: u32)
    requires
        is_pow2(n as nat),
        n <= vstd::arithmetic::power2::pow2(TWO_ADICITY as nat),
    ensures
        g == two_adic_generator_spec(log2(n as nat)),
        0 < g < P,
        is_root_for(g as int, n as nat),
{
    let bits = ilog2(n);
    proof {
        crate::oracle::lemma_log2_pow2(n as nat);
        if bits > TWO_ADICITY {
            vstd::arithmetic::power2::lemma_pow2_strictly_increases(TWO_ADICITY as nat, bits as nat);
        }
    }
    two_adic_generator(bits)
}

/// Interpolate values on the subgroup of order `evals.len()` (a power of
/// two) to coefficient form.
pub fn interpolate(evals: &[u32]) -> (c: Vec<u32>)
    requires
        is_pow2(evals@.len()),
        evals@.len() <= vstd::arithmetic::power2::pow2(TWO_ADICITY as nat),
        all_fe(evals@),
    ensures
        c@.len() == evals@.len(),
        all_fe(c@),
        forall|j: int| 0 <= j < c@.len() ==> #[trigger] c@[j] == inverse_dft(
            evals@,
            two_adic_generator_spec(log2(evals@.len())) as int,
        )[j],
{
    radix2_idft(evals)
}

/// Evaluate coefficients on the subgroup of order `coeffs.len()` (a power
/// of two).
pub fn evaluate(coeffs: &[u32]) -> (e: Vec<u32>)
    requires
        is_pow2(coeffs@.len()),
        coeffs@.len() <= vstd::arithmetic::power2::pow2(TWO_ADICITY as nat),
        all_fe(coeffs@),
    ensures
        e@.len() == coeffs@.len(),
        all_fe(e@),
        forall|k: int| 0 <= k < e@.len() ==> #[trigger] e@[k] == dft(
            coeffs@,
            two_adic_generator_spec(log2(coeffs@.len())) as int,
        )[k],
{
    radix2_dft(coeffs)
}

/// Interpolating the evaluations gives back the coefficients.
pub proof fn lemma_interpolate_evaluate(coeffs: Seq<u32>, evals: Seq<u32>, back: Seq<u32>)
    requires
        is_pow2(coeffs.len()),
        coeffs.len() <= vstd::arithmetic::power2::pow2(TWO_ADICITY as nat),
        all_fe(coeffs),
        evals.len() == coeffs.len(),
        forall|k: int| 0 <= k < evals.len() ==> #[trigger] evals[k] == dft(coeffs, two_adic_generator_spec(log2(coeffs.len())) as int)[k],
        back.len() == evals.len(),
        forall|j: int| 0 <= j < back.len() ==> #[trigger] back[j] == inverse_dft(evals, two_adic_generator_spec(log2(evals.len())) as int)[j],
        0 < two_adic_generator_spec(log2(coeffs.len())) < P,
        is_root_for(two_adic_generator_spec(log2(coeffs.len())) as int, coeffs.len()),
    ensures
        back == coeffs,
{
    crate::dft::lemma_inverse_dft_of_dft(coeffs, evals, two_adic_generator_spec(log2(coeffs.len())) as int);
    assert(back =~= coeffs);
}

} // verus!
