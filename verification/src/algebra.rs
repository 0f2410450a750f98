//! Congruence modulo the field prime and evaluation of coefficient
//! sequences: the mathematical model the polynomial code is stated over.
use vstd::prelude::*;
use vstd::arithmetic::div_mod::*;
use vstd::arithmetic::power::*;
use crate::field::modulus;

verus! {

/// `a` and `b` are congruent modulo the field prime.
pub open spec fn cong(a: int, b: int) -> bool {
    a % modulus() == b % modulus()
}

/// The value at `x` of the polynomial with coefficients `c` (lowest degree
/// first), over the integers.
pub open spec fn poly_eval(c: Seq<u32>, x: int) -> int
    decreases c.len(),
{
    if c.len() == 0 {
        0
    } else {
        c[0] + x * poly_eval(c.drop_first(), x)
    }
}

/// The value in the field of the polynomial `c` at `x`.
pub open spec fn peval(c: Seq<u32>, x: int) -> int {
    poly_eval(c, x) % modulus()
}

pub proof fn lemma_cong_mod(a: int)
    ensures
        cong(a % modulus(), a),
{
    lemma_mod_twice(a, modulus());
}

pub proof fn lemma_cong_add(a: int, b: int, c: int, d: int)
    requires
        cong(a, b),
        cong(c, d),
    ensures
        cong(a + c, b + d),
{
    lemma_add_mod_noop(a, c, modulus());
    lemma_add_mod_noop(b, d, modulus());
}

pub proof fn lemma_cong_sub(a: int, b: int, c: int, d: int)
    requires
        cong(a, b),
        cong(c, d),
    ensures
        cong(a - c, b - d),
{
    lemma_sub_mod_noop(a, c, modulus());
    lemma_sub_mod_noop(b, d, modulus());
}

pub proof fn lemma_cong_mul(a: int, b: int, c: int, d: int)
    requires
        cong(a, b),
        cong(c, d),
    ensures
        cong(a * c, b * d),
{
    lemma_mul_mod_noop(a, c, modulus());
    lemma_mul_mod_noop(b, d, modulus());
}

/// A multiple of the modulus is congruent to zero.
pub proof fn lemma_cong_multiple(k: int, y: int)
    ensures
        cong(k * modulus() * y, 0),
{
    assert(k * modulus() * y == (k * y) * modulus()) by (nonlinear_arith);
    lemma_mod_multiples_basic(k * y, modulus());
}

/// Two values below the modulus that are congruent are equal.
pub proof fn lemma_cong_small_eq(a: int, b: int)
    requires
        0 <= a < modulus(),
        0 <= b < modulus(),
        cong(a, b),
    ensures
        a == b,
{
    lemma_small_mod(a as nat, modulus() as nat);
    lemma_small_mod(b as nat, modulus() as nat);
}

/// Appending a coefficient adds it times `x` to the power of the old length.
pub proof fn lemma_poly_eval_push(s: Seq<u32>, v: u32, x: int)
    ensures
        poly_eval(s.push(v), x) == poly_eval(s, x) + v * pow(x, s.len()),
    decreases s.len(),
{
    if s.len() == 0 {
        assert(s.push(v).drop_first() =~= Seq::<u32>::empty());
        assert(poly_eval(Seq::<u32>::empty(), x) == 0);
        assert(poly_eval(s.push(v), x) == v + x * 0);
        lemma_pow0(x);
        assert(v * pow(x, 0) == v);
    } else {
        assert(s.push(v)[0] == s[0]);
        assert(s.push(v).drop_first() =~= s.drop_first().push(v));
        lemma_poly_eval_push(s.drop_first(), v, x);
        let a = poly_eval(s.drop_first(), x);
        let pw = pow(x, (s.len() - 1) as nat);
        assert(pow(x, s.len()) == x * pw) by { reveal(pow); }
        assert(x * (a + v * pw) == x * a + v * (x * pw)) by (nonlinear_arith);
    }
}

/// Replacing the coefficient at `k` by `v` changes the value by
/// `(v - s[k]) * x^k`.
pub proof fn lemma_poly_eval_update(s: Seq<u32>, k: int, v: u32, x: int)
    requires
        0 <= k < s.len(),
    ensures
        poly_eval(s.update(k, v), x) == poly_eval(s, x) + (v - s[k]) * pow(x, k as nat),
    decreases s.len(),
{
    if k == 0 {
        assert(s.update(0, v).drop_first() =~= s.drop_first());
        lemma_pow0(x);
    } else {
        assert(s.update(k, v).drop_first() =~= s.drop_first().update(k - 1, v));
        lemma_poly_eval_update(s.drop_first(), k - 1, v, x);
        let a = poly_eval(s.drop_first(), x);
        let pw = pow(x, (k - 1) as nat);
        assert(pow(x, k as nat) == x * pw) by { reveal(pow); }
        let d = v - s[k];
        assert(x * (a + d * pw) == x * a + d * (x * pw)) by (nonlinear_arith);
    }
}

/// The all-zero coefficient sequence evaluates to zero.
pub proof fn lemma_poly_eval_zeros(s: Seq<u32>, x: int)
    requires
        forall|i: int| 0 <= i < s.len() ==> s[i] == 0,
    ensures
        poly_eval(s, x) == 0,
    decreases s.len(),
{
    if s.len() > 0 {
        lemma_poly_eval_zeros(s.drop_first(), x);
    }
}

/// Trailing zero coefficients do not change the value.
pub proof fn lemma_poly_eval_take_zeros(s: Seq<u32>, n: int, x: int)
    requires
        0 <= n <= s.len(),
        forall|i: int| n <= i < s.len() ==> s[i] == 0,
    ensures
        poly_eval(s, x) == poly_eval(s.subrange(0, n), x),
    decreases s.len() - n,
{
    if n < s.len() {
        let t = s.subrange(0, s.len() - 1);
        assert(s =~= t.push(s[s.len() - 1]));
        lemma_poly_eval_push(t, s[s.len() - 1], x);
        assert(s[s.len() - 1] == 0);
        assert(poly_eval(s, x) == poly_eval(t, x) + (s[s.len() - 1] as int) * pow(x, t.len()));
        assert((0 as int) * pow(x, t.len()) == 0);
        assert(poly_eval(s, x) == poly_eval(t, x));
        assert(t.subrange(0, n) =~= s.subrange(0, n));
        assert forall|i: int| n <= i < t.len() implies t[i] == 0 by {
            assert(t[i] == s[i]);
        }
        lemma_poly_eval_take_zeros(t, n, x);
    } else {
        assert(s.subrange(0, n) =~= s);
    }
}

/// Evaluation splits over a prefix and the rest.
pub proof fn lemma_poly_eval_split(s: Seq<u32>, n: int, x: int)
    requires
        0 <= n <= s.len(),
    ensures
        poly_eval(s, x) == poly_eval(s.subrange(0, n), x) + pow(x, n as nat) * poly_eval(
            s.subrange(n, s.len() as int),
            x,
        ),
    decreases n,
{
    if n == 0 {
        lemma_pow0(x);
        assert(s.subrange(0, s.len() as int) =~= s);
    } else {
        assert(s.drop_first().subrange(0, n - 1) =~= s.subrange(0, n).drop_first());
        assert(s.drop_first().subrange(n - 1, s.drop_first().len() as int) =~= s.subrange(
            n,
            s.len() as int,
        ));
        lemma_poly_eval_split(s.drop_first(), n - 1, x);
        let a = poly_eval(s.drop_first().subrange(0, n - 1), x);
        let b = poly_eval(s.subrange(n, s.len() as int), x);
        let pw = pow(x, (n - 1) as nat);
        assert(pow(x, n as nat) == x * pw) by { reveal(pow); }
        assert(x * (a + pw * b) == x * a + (x * pw) * b) by (nonlinear_arith);
    }
}

} // verus!
