//! The multilinear extension is affine in each coordinate: with every
//! other coordinate fixed, its value at `r` is the line through its values
//! at 0 and 1.
use vstd::prelude::*;
use crate::field::{modulus, fadd, fsub, fmul, lemma_mod_range};
use crate::algebra::{cong, lemma_cong_mod, lemma_cong_add, lemma_cong_sub, lemma_cong_mul, lemma_cong_small_eq};
use crate::oracle::{eq_factor, eq_basis, mle_sum, mle};

verus! {

/// The line through `(0, g0)` and `(1, g1)`, at `r`, in the field.
pub open spec fn line_at(g0: int, g1: int, r: int) -> int {
    fadd(g0, fmul(r, fsub(g1, g0)))
}

/// The `eq` products of `p` with coordinate `j` set to `r`, 0 and 1.
proof fn lemma_eq_basis_affine(x: nat, p: Seq<u32>, j: int, r: u32, t: nat)
    requires
        0 <= j < p.len(),
        t <= p.len(),
    ensures
        t <= j ==> eq_basis(x, p.update(j, r), t) == eq_basis(x, p.update(j, 0), t) && eq_basis(
            x,
            p.update(j, 1),
            t,
        ) == eq_basis(x, p.update(j, 0), t),
        t > j ==> cong(
            eq_basis(x, p.update(j, r), t),
            eq_basis(x, p.update(j, 0), t) + r * (eq_basis(x, p.update(j, 1), t) - eq_basis(
                x,
                p.update(j, 0),
                t,
            )),
        ),
    decreases t,
{
    let pr = p.update(j, r);
    let p0 = p.update(j, 0);
    let p1 = p.update(j, 1);
    if t > 0 {
        let t1 = (t - 1) as nat;
        lemma_eq_basis_affine(x, p, j, r, t1);
        let er = eq_basis(x, pr, t1);
        let e0 = eq_basis(x, p0, t1);
        let e1 = eq_basis(x, p1, t1);
        if t1 < j {
            assert(eq_factor(x, pr, t1) == eq_factor(x, p0, t1));
            assert(eq_factor(x, p1, t1) == eq_factor(x, p0, t1));
        } else if t1 == j {
            // the factor of coordinate j: r or 1 - r, against 0/1 or 1/0
            let m = modulus();
            assert(er == e0 && e1 == e0);
            let fr = eq_factor(x, pr, t1);
            let f0 = eq_factor(x, p0, t1);
            let f1 = eq_factor(x, p1, t1);
            assert(pr[j] == r && p0[j] == 0 && p1[j] == 1);
            if crate::oracle::bit(x, t1) == 1 {
                assert(fr == r as int && f0 == 0 && f1 == 1);
            } else {
                assert(fr == fsub(1, r as int));
                assert(f0 == fsub(1, 0));
                assert(f1 == fsub(1, 1));
                lemma_cong_mod(1 - r as int);
                lemma_cong_mod(1int);
                lemma_cong_mod(0int);
                assert(cong(f0, 1));
                assert(cong(f1, 0));
            }
            // fr is congruent to f0 + r * (f1 - f0)
            lemma_cong_sub(f1, f1, f0, f0);
            assert(cong(fr, f0 + r * (f1 - f0))) by {
                if crate::oracle::bit(x, t1) == 1 {
                    assert(f0 + r * (f1 - f0) == r as int) by (nonlinear_arith)
                        requires f0 == 0, f1 == 1;
                } else {
                    lemma_cong_mul(r as int, r as int, f1 - f0, 0 - 1);
                    assert(r * (0 - 1) == -(r as int)) by (nonlinear_arith);
                    lemma_cong_add(f0, 1, r * (f1 - f0), -(r as int));
                    lemma_cong_mod(1 - r as int);
                }
            }
            let fe = e0;
            lemma_cong_mul(fe, fe, fr, f0 + r * (f1 - f0));
            lemma_cong_mod(fe * fr);
            assert(fe * (f0 + r * (f1 - f0)) == fe * f0 + r * (fe * f1 - fe * f0)) by (nonlinear_arith);
            lemma_cong_mod(fe * f0);
            lemma_cong_mod(fe * f1);
            lemma_cong_sub(fe * f1, fmul(fe, f1), fe * f0, fmul(fe, f0));
            lemma_cong_mul(r as int, r as int, fe * f1 - fe * f0, fmul(fe, f1) - fmul(fe, f0));
            lemma_cong_add(fe * f0, fmul(fe, f0), r * (fe * f1 - fe * f0), r * (fmul(fe, f1) - fmul(fe, f0)));
        } else {
            // t1 > j: one more common factor
            let f = eq_factor(x, p0, t1);
            assert(eq_factor(x, pr, t1) == f);
            assert(eq_factor(x, p1, t1) == f);
            lemma_cong_mul(er, e0 + r * (e1 - e0), f, f);
            assert((e0 + r * (e1 - e0)) * f == e0 * f + r * (e1 * f - e0 * f)) by (nonlinear_arith);
            lemma_cong_mod(er * f);
            lemma_cong_mod(e0 * f);
            lemma_cong_mod(e1 * f);
            lemma_cong_sub(e1 * f, fmul(e1, f), e0 * f, fmul(e0, f));
            lemma_cong_mul(r as int, r as int, e1 * f - e0 * f, fmul(e1, f) - fmul(e0, f));
            lemma_cong_add(e0 * f, fmul(e0, f), r * (e1 * f - e0 * f), r * (fmul(e1, f) - fmul(e0, f)));
        }
    }
}

/// The first `t` terms of the extension, with coordinate `j` set to `r`,
/// are congruent to the line through their values at 0 and 1.
proof fn lemma_mle_sum_affine(vals: Seq<u32>, p: Seq<u32>, j: int, r: u32, t: nat)
    requires
        0 <= j < p.len(),
        t <= vals.len(),
    ensures
        cong(
            mle_sum(vals, p.update(j, r), t),
            mle_sum(vals, p.update(j, 0), t) + r * (mle_sum(vals, p.update(j, 1), t) - mle_sum(
                vals,
                p.update(j, 0),
                t,
            )),
        ),
    decreases t,
{
    let pr = p.update(j, r);
    let p0 = p.update(j, 0);
    let p1 = p.update(j, 1);
    let n = p.len();
    if t == 0 {
        assert(0 + r * (0 - 0) == 0) by (nonlinear_arith);
    } else {
        let t1 = (t - 1) as nat;
        lemma_mle_sum_affine(vals, p, j, r, t1);
        let sr = mle_sum(vals, pr, t1);
        let s0 = mle_sum(vals, p0, t1);
        let s1 = mle_sum(vals, p1, t1);
        let v = vals[t1 as int] as int;
        lemma_eq_basis_affine(t1, p, j, r, n);
        let er = eq_basis(t1, pr, n);
        let e0 = eq_basis(t1, p0, n);
        let e1 = eq_basis(t1, p1, n);
        // term: v * er ~ v*e0 + r*(v*e1 - v*e0)
        lemma_cong_mul(v, v, er, e0 + r * (e1 - e0));
        assert(v * (e0 + r * (e1 - e0)) == v * e0 + r * (v * e1 - v * e0)) by (nonlinear_arith);
        lemma_cong_mod(v * er);
        lemma_cong_mod(v * e0);
        lemma_cong_mod(v * e1);
        let a0 = fmul(v, e0);
        let a1 = fmul(v, e1);
        let ar = fmul(v, er);
        lemma_cong_sub(a1, v * e1, a0, v * e0);
        lemma_cong_mul(r as int, r as int, a1 - a0, v * e1 - v * e0);
        lemma_cong_add(a0, v * e0, r * (a1 - a0), r * (v * e1 - v * e0));
        assert(cong(ar, a0 + r * (a1 - a0)));
        // sums
        lemma_cong_add(sr, s0 + r * (s1 - s0), ar, a0 + r * (a1 - a0));
        lemma_cong_mod(sr + ar);
        lemma_cong_mod(s0 + a0);
        lemma_cong_mod(s1 + a1);
        let n0 = mle_sum(vals, p0, t);
        let n1 = mle_sum(vals, p1, t);
        assert((s0 + r * (s1 - s0)) + (a0 + r * (a1 - a0)) == (s0 + a0) + r * ((s1 + a1) - (s0 + a0))) by (nonlinear_arith);
        lemma_cong_sub(n1, s1 + a1, n0, s0 + a0);
        lemma_cong_mul(r as int, r as int, n1 - n0, (s1 + a1) - (s0 + a0));
        lemma_cong_add(n0, s0 + a0, r * (n1 - n0), r * ((s1 + a1) - (s0 + a0)));
    }
}

/// The extension is affine in each coordinate: setting coordinate `j` to
/// `r` gives the line through the values with it set to 0 and to 1.
pub proof fn lemma_mle_affine(vals: Seq<u32>, p: Seq<u32>, j: int, r: u32)
    requires
        0 <= j < p.len(),
    ensures
        mle(vals, p.update(j, r)) == line_at(mle(vals, p.update(j, 0)), mle(vals, p.update(j, 1)), r as int),
{
    let t = vals.len();
    lemma_mle_sum_affine(vals, p, j, r, t);
    let mr = mle(vals, p.update(j, r));
    let m0 = mle(vals, p.update(j, 0));
    let m1 = mle(vals, p.update(j, 1));
    lemma_cong_mod(m1 - m0);
    lemma_cong_mul(r as int, r as int, m1 - m0, fsub(m1, m0));
    lemma_cong_mod(r * fsub(m1, m0));
    lemma_cong_add(m0, m0, r * (m1 - m0), fmul(r as int, fsub(m1, m0)));
    lemma_cong_mod(m0 + fmul(r as int, fsub(m1, m0)));
    if t == 0 {
        lemma_mod_range(0);
    } else {
        lemma_mod_range(mle_sum(vals, p.update(j, r), (t - 1) as nat) + fmul(vals[t - 1] as int, eq_basis((t - 1) as nat, p.update(j, r), p.update(j, r).len())));
    }
    lemma_mod_range(m0 + fmul(r as int, fsub(m1, m0)));
    lemma_cong_small_eq(mr, line_at(m0, m1, r as int));
}

} // verus!
