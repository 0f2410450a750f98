//! One FRI folding round: from the values of `p` on a domain closed under
//! negation (`domain[i + n/2] = -domain[i]`) to the values of
//! `p_even + beta * p_odd` on the squares.
use vstd::prelude::*;
use vstd::arithmetic::div_mod::*;
use crate::field::{P, TWO_INV, modulus, all_fe, fadd, fsub, fmul, finv, is_inverse, fe_add, fe_sub, fe_mul, fe_inv, lemma_mod_range, lemma_two_inv, lemma_finv_is};
use crate::algebra::{cong, poly_eval, peval, lemma_cong_add, lemma_cong_sub, lemma_cong_mul, lemma_cong_mod, lemma_cong_small_eq};
use crate::fft::{is_pow2, evens, odds, lemma_poly_eval_even_odd};

verus! {

/// The folded value from `p(x)`, `p(-x)`, the point `x` and the challenge:
/// `(p(x) + p(-x))/2 + beta * (p(x) - p(-x))/(2x)`.
pub open spec fn fold_value(px: int, pnx: int, x: int, beta: int) -> int {
    fadd(fmul(fadd(px, pnx), TWO_INV as int), fmul(beta, fmul(fmul(fsub(px, pnx), TWO_INV as int), finv(x))))
}

/// One folding round of the values `evals` on `domain`.
pub open spec fn fold_step_spec(evals: Seq<u32>, domain: Seq<u32>, beta: int) -> Seq<u32> {
    Seq::new(
        evals.len() / 2,
        |i: int| fold_value(evals[i] as int, evals[i + evals.len() / 2] as int, domain[i] as int, beta) as u32,
    )
}

/// The domain after one round: the squares of its first half.
pub open spec fn fold_domain_spec(domain: Seq<u32>) -> Seq<u32> {
    Seq::new(domain.len() / 2, |i: int| fmul(domain[i] as int, domain[i] as int) as u32)
}

/// The points of the first half of `domain` are not zero.
pub open spec fn first_half_nonzero(domain: Seq<u32>) -> bool {
    forall|i: int| 0 <= i < domain.len() / 2 ==> #[trigger] domain[i] != 0
}

/// Fold the values `evals` on `domain` with challenge `beta`.
pub fn fri_fold_step(evals: &Vec<u32>, domain: &Vec<u32>, beta: u32) -> (r: Vec<u32>)
    requires
        domain@.len() == evals@.len(),
        is_pow2(evals@.len()),
        evals@.len() >= 2,
        all_fe(evals@),
        all_fe(domain@),
        beta < P,
        first_half_nonzero(domain@),
    ensures
        r@ == fold_step_spec(evals@, domain@, beta as int),
        all_fe(r@),
{
    let n = evals.len();
    let half = n / 2;
    let two_inv = fe_inv(2);
    proof {
        lemma_two_inv();
    }
    let mut out: Vec<u32> = Vec::new();
    let mut i: usize = 0;
    while i < half
        invariant
            n == evals@.len(),
            n == domain@.len(),
            half == n / 2,
            all_fe(evals@),
            all_fe(domain@),
            beta < P,
            two_inv == TWO_INV,
            first_half_nonzero(domain@),
            i <= half,
            out@.len() == i,
            all_fe(out@),
            forall|k: int| 0 <= k < i ==> #[trigger] out@[k] == fold_step_spec(evals@, domain@, beta as int)[k],
        decreases half - i,
    {
        let x = domain[i];
        let p_x = evals[i];
        let p_neg_x = evals[i + half];
        let even_part = fe_mul(fe_add(p_x, p_neg_x), two_inv);
        let x_inv = fe_inv(x);
        let odd_part = fe_mul(fe_mul(fe_sub(p_x, p_neg_x), two_inv), x_inv);
        let v = fe_add(even_part, fe_mul(beta, odd_part));
        out.push(v);
        i = i + 1;
    }
    assert(out@ =~= fold_step_spec(evals@, domain@, beta as int));
    out
}

/// The domain of the next round: the squares of the first half.
pub fn fold_domain(domain: &Vec<u32>) -> (r: Vec<u32>)
    requires
        all_fe(domain@),
    ensures
        r@ == fold_domain_spec(domain@),
        all_fe(r@),
{
    let half = domain.len() / 2;
    let mut out: Vec<u32> = Vec::new();
    let mut i: usize = 0;
    while i < half
        invariant
            half == domain@.len() / 2,
            all_fe(domain@),
            i <= half,
            out@.len() == i,
            all_fe(out@),
            forall|k: int| 0 <= k < i ==> #[trigger] out@[k] == fold_domain_spec(domain@)[k],
        decreases half - i,
    {
        let x = domain[i];
        out.push(fe_mul(x, x));
        i = i + 1;
    }
    assert(out@ =~= fold_domain_spec(domain@));
    out
}

/// FRI folding is sound arithmetic: at a point `x` with an inverse, folding
/// the values of `p` at `x` and `-x` gives the value at `x^2` of
/// `p_even + beta * p_odd`.
pub proof fn lemma_fold_value_correct(c: Seq<u32>, x: int, xi: int, beta: int)
    requires
        is_inverse(x, xi),
    ensures
        fold_value(peval(c, x), peval(c, -x), x, beta) == (poly_eval(evens(c), x * x) + beta * poly_eval(odds(c), x * x))
            % modulus(),
{
    let m = modulus();
    let t = TWO_INV as int;
    lemma_two_inv();
    lemma_finv_is(x, xi);
    let y = x * x;
    let e = poly_eval(evens(c), y);
    let o = poly_eval(odds(c), y);
    lemma_poly_eval_even_odd(c, x);
    lemma_poly_eval_even_odd(c, -x);
    assert((-x) * (-x) == y) by (nonlinear_arith)
        requires
            y == x * x,
    ;
    let px = peval(c, x);
    let pnx = peval(c, -x);
    lemma_cong_mod(poly_eval(c, x));
    lemma_cong_mod(poly_eval(c, -x));
    assert(cong(px, e + x * o));
    assert(cong(pnx, e + (-x) * o));
    // even part: (px + pnx) * t is congruent to 2e * t, i.e. to e
    lemma_cong_add(px, e + x * o, pnx, e + (-x) * o);
    assert((e + x * o) + (e + (-x) * o) == 2 * e) by (nonlinear_arith);
    lemma_cong_mod(px + pnx);
    lemma_cong_mul(fadd(px, pnx), 2 * e, t, t);
    assert((2 * e) * t == e * (2 * t)) by (nonlinear_arith);
    lemma_cong_mul(e, e, 2 * t, 1);
    lemma_cong_mod(fadd(px, pnx) * t);
    assert(cong(fmul(fadd(px, pnx), t), e));
    // odd part: (px - pnx) * t * xi is congruent to 2xo * t * xi, i.e. to o
    lemma_cong_sub(px, e + x * o, pnx, e + (-x) * o);
    assert((e + x * o) - (e + (-x) * o) == 2 * (x * o)) by (nonlinear_arith);
    lemma_cong_mod(px - pnx);
    lemma_cong_mul(fsub(px, pnx), 2 * (x * o), t, t);
    lemma_cong_mod(fsub(px, pnx) * t);
    lemma_cong_mul(fmul(fsub(px, pnx), t), (2 * (x * o)) * t, xi, xi);
    assert(((2 * (x * o)) * t) * xi == o * ((2 * t) * (x * xi))) by (nonlinear_arith);
    lemma_cong_mul(2 * t, 1, x * xi, 1);
    lemma_cong_mul(o, o, (2 * t) * (x * xi), 1);
    lemma_cong_mod(fmul(fsub(px, pnx), t) * xi);
    let od = fmul(fmul(fsub(px, pnx), t), xi);
    assert(cong(od, o));
    lemma_cong_mul(beta, beta, od, o);
    lemma_cong_mod(beta * od);
    lemma_cong_add(fmul(fadd(px, pnx), t), e, fmul(beta, od), beta * o);
    lemma_cong_mod(fmul(fadd(px, pnx), t) + fmul(beta, od));
    lemma_mod_range(fmul(fadd(px, pnx), t) + fmul(beta, od));
    lemma_mod_range(e + beta * o);
    lemma_cong_mod(e + beta * o);
    lemma_cong_small_eq(fold_value(px, pnx, x, beta), (e + beta * o) % m);
}

} // verus!
