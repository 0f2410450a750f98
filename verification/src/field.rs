//! Arithmetic in the BabyBear prime field, p = 15 * 2^27 + 1.
//!
//! A field element is carried as a `u32` holding its canonical
//! representative, the integer in `0 .. P`. Every operation here is stated
//! against the integers modulo `P`.
use vstd::prelude::*;
use vstd::arithmetic::div_mod::*;
use vstd::arithmetic::power::*;

verus! {

/// The BabyBear modulus.
pub const P: u32 = 2013265921;

/// The modulus as a mathematical integer.
pub open spec fn modulus() -> int {
    2013265921
}

/// Every entry of `s` is a canonical field element.
pub open spec fn all_fe(s: Seq<u32>) -> bool {
    forall|i: int| 0 <= i < s.len() ==> #[trigger] s[i] < P
}

/// Field addition.
pub open spec fn fadd(a: int, b: int) -> int {
    (a + b) % modulus()
}

/// Field subtraction.
pub open spec fn fsub(a: int, b: int) -> int {
    (a - b) % modulus()
}

/// Field multiplication.
pub open spec fn fmul(a: int, b: int) -> int {
    (a * b) % modulus()
}

/// Field negation.
pub open spec fn fneg(a: int) -> int {
    (-a) % modulus()
}

/// `r` is a multiplicative inverse of `a`.
pub open spec fn is_inverse(a: int, r: int) -> bool {
    0 <= r < modulus() && (a * r) % modulus() == 1
}

/// The multiplicative inverse of `a` (meaningful when `a` is not zero mod p).
pub open spec fn finv(a: int) -> int {
    choose|r: int| is_inverse(a, r)
}

/// Exponentiation in the field.
pub open spec fn fpow(a: int, e: nat) -> int {
    pow(a, e) % modulus()
}

/// The inverse of two, (p + 1) / 2.
pub const TWO_INV: u32 = 1006632961;

pub proof fn lemma_mod_range(x: int)
    ensures
        0 <= x % modulus() < modulus(),
{
    lemma_mod_bound(x, modulus());
}

/// An inverse is unique: any two inverses of `a` are equal.
pub proof fn lemma_inverse_unique(a: int, r1: int, r2: int)
    requires
        is_inverse(a, r1),
        is_inverse(a, r2),
    ensures
        r1 == r2,
{
    let ghost m = modulus();
    // r1 = r1 * (a * r2) = (r1 * a) * r2 = r2   (mod m)
    lemma_mul_mod_noop_right(r1, a * r2, m);
    lemma_mul_mod_noop_left(r1 * a, r2, m);
    assert(r1 * (a * r2) == (r1 * a) * r2) by (nonlinear_arith);
    assert(r1 * a == a * r1) by (nonlinear_arith);
    lemma_small_mod(r1 as nat, m as nat);
    lemma_small_mod(r2 as nat, m as nat);
}

/// A value shown to be an inverse of `a` is `finv(a)`.
pub proof fn lemma_finv_is(a: int, r: int)
    requires
        is_inverse(a, r),
    ensures
        finv(a) == r,
{
    let f = finv(a);
    assert(is_inverse(a, f));
    lemma_inverse_unique(a, r, f);
}

pub proof fn lemma_two_inv()
    ensures
        is_inverse(2, TWO_INV as int),
        finv(2) == TWO_INV as int,
{
    assert((2 * 1006632961int) % 2013265921int == 1);
    lemma_finv_is(2, TWO_INV as int);
}

/// `a + b` in the field.
pub fn fe_add(a: u32, b: u32) -> (r: u32)
    requires
        a < P,
        b < P,
    ensures
        r < P,
        r == fadd(a as int, b as int),
{
    let s: u32 = a + b;
    if s >= P {
        proof {
            lemma_fundamental_div_mod_converse(a + b, modulus(), 1, a + b - modulus());
        }
        s - P
    } else {
        proof {
            lemma_small_mod((a + b) as nat, modulus() as nat);
        }
        s
    }
}

/// `a - b` in the field.
pub fn fe_sub(a: u32, b: u32) -> (r: u32)
    requires
        a < P,
        b < P,
    ensures
        r < P,
        r == fsub(a as int, b as int),
{
    if a >= b {
        proof {
            lemma_small_mod((a - b) as nat, modulus() as nat);
        }
        a - b
    } else {
        proof {
            lemma_fundamental_div_mod_converse(a - b, modulus(), -1, a - b + modulus());
        }
        P - b + a
    }
}

/// `-a` in the field.
pub fn fe_neg(a: u32) -> (r: u32)
    requires
        a < P,
    ensures
        r < P,
        r == fneg(a as int),
        r == fsub(0, a as int),
{
    fe_sub(0, a)
}

/// `a * b` in the field.
pub fn fe_mul(a: u32, b: u32) -> (r: u32)
    requires
        a < P,
        b < P,
    ensures
        r < P,
        r == fmul(a as int, b as int),
{
    proof {
        assert((a as int) * (b as int) <= 0xFFFF_FFFF_FFFF_FFFFint) by (nonlinear_arith)
            requires a < P, b < P;
    }
    let prod: u64 = (a as u64) * (b as u64);
    proof {
        lemma_mod_range(a * b);
    }
    (prod % (P as u64)) as u32
}

/// The field element `x mod p`.
pub fn fe_from_u64(x: u64) -> (r: u32)
    ensures
        r < P,
        r == (x as int) % modulus(),
{
    proof {
        lemma_mod_range(x as int);
    }
    (x % (P as u64)) as u32
}

/// Calls `Field::inverse` of Plonky3's `BabyBear` (a gcd-based inversion).
/// Its contract claims that the result is the canonical representative
/// of the multiplicative inverse of `x`; `inverse` panics on zero, which the
/// `requires` rules out.
#[verifier::external_body]
fn babybear_inverse(x: u32) -> (r: u32)
    requires
        0 < x < P,
    ensures
        r < P,
        ((x as int) * (r as int)) % modulus() == 1,
{
    let y = <p3_baby_bear::BabyBear as p3_field::Field>::inverse(&p3_baby_bear::BabyBear::new(x));
    <p3_baby_bear::BabyBear as p3_field::PrimeField32>::as_canonical_u32(&y)
}

/// The multiplicative inverse of a nonzero field element.
pub fn fe_inv(x: u32) -> (r: u32)
    requires
        0 < x < P,
    ensures
        r < P,
        r == finv(x as int),
        is_inverse(x as int, r as int),
{
    let r = babybear_inverse(x);
    proof {
        lemma_finv_is(x as int, r as int);
    }
    r
}

/// `base ^ exp` in the field, by square-and-multiply.
pub fn fe_pow(base: u32, exp: u64) -> (r: u32)
    requires
        base < P,
    ensures
        r < P,
        r == fpow(base as int, exp as nat),
{
    let ghost m = modulus();
    let mut result: u32 = 1;
    let mut b: u32 = base;
    let mut e: u64 = exp;
    proof {
        assert(1 * pow(b as int, e as nat) == pow(base as int, exp as nat));
    }
    while e > 0
        invariant
            m == modulus(),
            result < P,
            b < P,
            (result * pow(b as int, e as nat)) % m == pow(base as int, exp as nat) % m,
        decreases e,
    {
        let ghost old_result = result;
        let ghost old_b = b;
        let ghost old_e = e;
        let ghost k: nat = (e / 2) as nat;
        proof {
            assert(old_e as nat == 2 * k + old_e % 2);
            lemma_pow_adds(old_b as int, 2 * k, (old_e % 2) as nat);
            lemma_pow_multiplies(old_b as int, 2, k);
            lemma_square_is_pow2(old_b as int);
            assert(2 * k == k * 2) by (nonlinear_arith);
            lemma_pow_multiplies(old_b as int, 2, k);
        }
        if e % 2 == 1 {
            result = fe_mul(result, b);
        }
        b = fe_mul(b, b);
        e = e / 2;
        proof {
            let pb2k = pow(old_b * old_b, k);
            assert(pow(old_b as int, 2 * k) == pb2k) by {
                lemma_pow_multiplies(old_b as int, 2, k);
            }
            lemma_pow_mod_noop(old_b * old_b, k, m);
            // pow(b, k) % m == pb2k % m
            if old_e % 2 == 1 {
                lemma_pow1(old_b as int);
                // old_result * pow(old_b, old_e) == old_result * old_b * pb2k
                assert(pow(old_b as int, old_e as nat) == pb2k * old_b);
                assert(old_result * (pb2k * old_b) == (old_result * old_b) * pb2k) by (nonlinear_arith);
                lemma_mul_mod_noop_left(old_result * old_b, pb2k, m);
                lemma_mul_mod_noop_right(result as int, pb2k, m);
                lemma_mul_mod_noop_right(result as int, pow(b as int, k), m);
            } else {
                lemma_pow0(old_b as int);
                assert(pow(old_b as int, old_e as nat) == pb2k);
                lemma_mul_mod_noop_right(result as int, pb2k, m);
                lemma_mul_mod_noop_right(result as int, pow(b as int, k), m);
            }
        }
    }
    proof {
        lemma_pow0(b as int);
        lemma_small_mod(result as nat, m as nat);
    }
    result
}


/// No number from 2 to 65535 divides the modulus (checked bit by bit).
#[verifier::rlimit(100)]
proof fn lemma_no_small_factor(d: u16, q: u32)
    by (bit_vector)
    requires
        1 < d,
    ensures
        (d as u64) * (q as u64) != 2013265921u64,
{
}

/// The modulus is prime: it is no product of two factors above one.
pub proof fn lemma_modulus_prime(a: int, b: int)
    requires
        1 < a,
        1 < b,
    ensures
        a * b != modulus(),
{
    if a * b == modulus() {
        if a < 65536 {
            assert(b < 2013265921) by (nonlinear_arith)
                requires a * b == 2013265921, 1 < a;
            lemma_no_small_factor(a as u16, b as u32);
        } else if b < 65536 {
            assert(a < 2013265921) by (nonlinear_arith)
                requires a * b == 2013265921, 1 < b;
            lemma_no_small_factor(b as u16, a as u32);
            assert(b * a == a * b) by (nonlinear_arith);
        } else {
            assert(a * b >= 65536 * 65536) by (nonlinear_arith)
                requires a >= 65536, b >= 65536;
        }
    }
}

/// Euclid's lemma for the modulus, by descent on `a`: if the modulus divides
/// `a * b` with `0 < a < p`, it divides `b`.
proof fn lemma_divides_product(a: int, b: int)
    requires
        0 < a < modulus(),
        (a * b) % modulus() == 0,
    ensures
        b % modulus() == 0,
    decreases a,
{
    let m = modulus();
    if a > 1 {
        let q = m / a;
        let r = m % a;
        assert(m == q * a + r && 0 <= r < a) by (nonlinear_arith)
            requires q == m / a, r == m % a, a > 0;
        if r == 0 {
            assert(q > 1) by (nonlinear_arith)
                requires m == q * a, a < m, a > 1;
            lemma_modulus_prime(a, q);
            assert(a * q == q * a) by (nonlinear_arith);
        } else {
            let k = (a * b) / m;
            assert(a * b == k * m) by (nonlinear_arith)
                requires (a * b) % m == 0, k == (a * b) / m, m > 0;
            assert(r * b == m * (b - q * k)) by (nonlinear_arith)
                requires m == q * a + r, a * b == k * m;
            assert((r * b) % m == 0) by (nonlinear_arith)
                requires r * b == m * (b - q * k), m > 0;
            lemma_divides_product(r, b);
        }
    }
}

/// The field has no zero divisors: a product of two elements that are not
/// zero modulo p is not zero modulo p.
pub proof fn lemma_no_zero_divisors(a: int, b: int)
    requires
        a % modulus() != 0,
        b % modulus() != 0,
    ensures
        (a * b) % modulus() != 0,
{
    let m = modulus();
    let ar = a % m;
    assert(0 < ar < m);
    lemma_mul_mod_noop_left(a, b, m);
    if (a * b) % m == 0 {
        assert((ar * b) % m == 0);
        lemma_divides_product(ar, b);
    }
}

/// Every element below the modulus other than zero has an inverse, by
/// descent on `a`: with `p = q * a + r` and `0 < r < a`, an inverse `y` of
/// `r` gives `-q * y` as an inverse of `a`.
proof fn lemma_inverse_exists(a: int)
    requires
        0 < a < modulus(),
    ensures
        exists|r: int| is_inverse(a, r),
    decreases a,
{
    let m = modulus();
    if a == 1 {
        assert(is_inverse(1, 1));
    } else {
        let q = m / a;
        let r = m % a;
        assert(m == q * a + r && 0 <= r < a) by (nonlinear_arith)
            requires q == m / a, r == m % a, a > 0;
        if r == 0 {
            assert(q > 1) by (nonlinear_arith)
                requires m == q * a, a < m, a > 1;
            lemma_modulus_prime(a, q);
            assert(a * q == q * a) by (nonlinear_arith);
        }
        lemma_inverse_exists(r);
        let y = choose|y: int| is_inverse(r, y);
        let x = (-(q * y)) % m;
        lemma_mod_range(-(q * y));
        assert((a * x) % m == 1) by {
            lemma_mul_mod_noop_right(a, -(q * y), m);
            assert(a * -(q * y) == m * (-y) + r * y) by (nonlinear_arith)
                requires m == q * a + r;
            lemma_mod_multiples_vanish(-y, r * y, m);
        }
        assert(is_inverse(a, x));
    }
}

/// `finv` is the inverse: for every `a` that is not zero modulo p,
/// `finv(a)` is a field element and `a * finv(a)` is one modulo p.
pub proof fn lemma_finv_inverse(a: int)
    requires
        a % modulus() != 0,
    ensures
        is_inverse(a, finv(a)),
        0 <= finv(a) < modulus(),
        (a * finv(a)) % modulus() == 1,
{
    let m = modulus();
    let ar = a % m;
    lemma_mod_range(a);
    lemma_inverse_exists(ar);
    let r = choose|r: int| is_inverse(ar, r);
    lemma_mul_mod_noop_left(a, r, m);
    assert(is_inverse(a, r));
    lemma_finv_is(a, r);
}

/// Two field elements that agree modulo p are equal.
pub proof fn lemma_fe_eq(u: int, v: int)
    requires
        0 <= u < modulus(),
        0 <= v < modulus(),
        (u - v) % modulus() == 0,
    ensures
        u == v,
{
    lemma_mod_equivalence(u, v, modulus());
    lemma_small_mod(u as nat, modulus() as nat);
    lemma_small_mod(v as nat, modulus() as nat);
}
} // verus!
