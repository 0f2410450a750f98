//! Division of a coefficient-form polynomial C(x) by the vanishing
//! polynomial Z_H(x) = x^n - 1 of a domain of size n.
//!
//! The division only succeeds cleanly (zero remainder) when C vanishes on
//! all n-th roots of unity, which is exactly the soundness condition an
//! AIR constraint polynomial must satisfy on its execution domain. A
//! nonzero remainder is reported, not silently dropped.
use vstd::prelude::*;
use vstd::arithmetic::power::*;
use crate::algebra::{cong, lemma_cong_add, lemma_cong_mod, lemma_cong_mul, lemma_cong_small_eq, lemma_cong_sub, lemma_poly_eval_take_zeros, lemma_poly_eval_update, poly_eval};
use crate::field::{all_fe, fadd, fe_add, modulus};

verus! {

/// The quotient and remainder of a division by `x^n - 1`.
pub struct QuotientResult {
    pub quotient: Vec<u32>,
    pub remainder: Vec<u32>,
}

/// The sum of the coefficients of `c` at `t, t + n, t + 2n, ...`: since
/// `x^n = 1` modulo `x^n - 1`, this is what all those terms reduce to.
pub open spec fn class_sum(c: Seq<u32>, t: int, n: nat) -> int
    decreases c.len() - t,
{
    if t < 0 || t >= c.len() {
        0
    } else if n == 0 || t + n >= c.len() {
        c[t] as int
    } else {
        c[t] + class_sum(c, t + n, n)
    }
}

/// The quotient and remainder of `c` by `x^n - 1`, for `n >= 1`:
/// `remainder[j]` is the class sum at `j` and `quotient[s]` the class sum
/// at `s + n`, reduced into the field; when `c` has at most `n`
/// coefficients the quotient is `[0]` and the remainder is `c`.
pub open spec fn is_vanishing_division(c: Seq<u32>, n: nat, q: Seq<u32>, r: Seq<u32>) -> bool {
    if c.len() <= n {
        q == seq![0u32] && r == c
    } else if n == 0 {
        q == c && r.len() == 0
    } else {
        &&& q.len() == c.len() - n
        &&& r.len() == n
        &&& forall|s: int| 0 <= s < q.len() ==> #[trigger] q[s] == class_sum(c, s + n, n) % modulus()
        &&& forall|j: int| 0 <= j < r.len() ==> #[trigger] r[j] == class_sum(c, j, n) % modulus()
    }
}

/// Divides `coeffs` by the vanishing polynomial `x^n - 1` of a domain of
/// size `n = domain_size`, returning quotient and remainder.
pub fn divide_by_vanishing(coeffs: &[u32], domain_size: usize) -> (res: QuotientResult)
    requires
        all_fe(coeffs@),
    ensures
        is_vanishing_division(coeffs@, domain_size as nat, res.quotient@, res.remainder@),
        all_fe(res.quotient@),
        all_fe(res.remainder@),
        domain_size >= 1 ==> forall|x: int|
            #![trigger poly_eval(coeffs@, x)]
            cong(
                poly_eval(coeffs@, x),
                poly_eval(res.quotient@, x) * (pow(x, domain_size as nat) - 1) + poly_eval(
                    res.remainder@,
                    x,
                ),
            ),
{
    let n = domain_size;
    let mut work: Vec<u32> = Vec::new();
    let mut k: usize = 0;
    while k < coeffs.len()
        invariant
            k <= coeffs@.len(),
            work@ == coeffs@.subrange(0, k as int),
        decreases coeffs@.len() - k,
    {
        work.push(coeffs[k]);
        k = k + 1;
    }
    assert(work@ =~= coeffs@);
    let deg = work.len();

    if deg <= n {
        let quotient: Vec<u32> = vec![0u32];
        proof {
            assert(quotient@ =~= seq![0u32]);
            if n >= 1 {
                assert forall|x: int| #![trigger poly_eval(coeffs@, x)] cong(
                    poly_eval(coeffs@, x),
                    poly_eval(quotient@, x) * (pow(x, n as nat) - 1) + poly_eval(work@, x),
                ) by {
                    assert(quotient@.drop_first() =~= Seq::<u32>::empty());
                    assert(poly_eval(Seq::<u32>::empty(), x) == 0);
                    assert(poly_eval(quotient@, x) == 0 + x * 0);
                }
            }
        }
        return QuotientResult { quotient, remainder: work };
    }

    let mut quotient: Vec<u32> = Vec::new();
    k = 0;
    while k < deg - n
        invariant
            deg > n,
            k <= deg - n,
            quotient@.len() == k,
            forall|j: int| 0 <= j < k ==> quotient@[j] == 0,
        decreases deg - n - k,
    {
        quotient.push(0);
        k = k + 1;
    }
    proof {
        assert forall|x: int| #![trigger poly_eval(coeffs@, x)] cong(
            poly_eval(coeffs@, x),
            poly_eval(quotient@, x) * (pow(x, n as nat) - 1) + poly_eval(work@, x),
        ) by {
            crate::algebra::lemma_poly_eval_zeros(quotient@, x);
        }
    }

    // Process from the highest-degree term down: x^n = 1 (mod Z_H), so a
    // coefficient at degree i >= n folds into degree i - n.
    let mut i: usize = deg;
    while i > n
        invariant
            deg == coeffs@.len(),
            deg > n,
            n <= i <= deg,
            work@.len() == deg,
            quotient@.len() == deg - n,
            all_fe(coeffs@),
            all_fe(work@),
            all_fe(quotient@),
            forall|s: int| 0 <= s < i - n ==> quotient@[s] == 0,
            n >= 1 ==> forall|t: int| i <= t < deg ==> work@[t] == 0,
            n >= 1 ==> forall|t: int|
                #![trigger work@[t]]
                0 <= t < i ==> cong(
                    work@[t] as int,
                    coeffs@[t] + (if t + n >= i { class_sum(coeffs@, t + n, n as nat) } else { 0 }),
                ),
            n >= 1 ==> forall|s: int|
                #![trigger quotient@[s]]
                i - n <= s < deg - n ==> quotient@[s] == class_sum(coeffs@, s + n, n as nat)
                    % modulus(),
            n == 0 ==> work@ == coeffs@,
            n == 0 ==> forall|s: int| i <= s < deg ==> quotient@[s] == coeffs@[s],
            forall|x: int|
                #![trigger poly_eval(coeffs@, x)]
                cong(
                    poly_eval(coeffs@, x),
                    poly_eval(quotient@, x) * (pow(x, n as nat) - 1) + poly_eval(work@, x),
                ),
        decreases i,
    {
        i = i - 1;
        let ghost w0 = work@;
        let ghost q0 = quotient@;
        let c = work[i];
        quotient.set(i - n, c);
        work.set(i, 0);
        let ghost w1 = work@;
        let updated = fe_add(work[i - n], c);
        work.set(i - n, updated);
        proof {
            let ti = i as int;
            let tl = (i - n) as int;
            if n >= 1 {
                // the value moved down is the whole class sum from i
                assert(cong(w0[ti] as int, coeffs@[ti] + (if ti + n >= ti + 1 {
                    class_sum(coeffs@, ti + n, n as nat)
                } else {
                    0
                })));
                assert(class_sum(coeffs@, ti, n as nat) == coeffs@[ti] + class_sum(coeffs@, ti + n, n as nat));
                lemma_cong_mod(class_sum(coeffs@, ti, n as nat));
                lemma_cong_small_eq(c as int, class_sum(coeffs@, ti, n as nat) % modulus());
                assert forall|t: int| #![trigger work@[t]] 0 <= t < ti implies cong(
                    work@[t] as int,
                    coeffs@[t] + (if t + n >= ti { class_sum(coeffs@, t + n, n as nat) } else { 0 }),
                ) by {
                    if t == tl {
                        assert(cong(w0[t] as int, coeffs@[t] + 0));
                        lemma_cong_mod(w0[t] + c);
                        lemma_cong_add(w0[t] as int, coeffs@[t] as int, c as int, class_sum(coeffs@, ti, n as nat));
                        assert(t + n == ti);
                    } else {
                        assert(work@[t] == w0[t]);
                        assert(cong(w0[t] as int, coeffs@[t] + (if t + n >= ti + 1 {
                            class_sum(coeffs@, t + n, n as nat)
                        } else {
                            0
                        })));
                        assert(t + n != ti);
                    }
                }
                assert forall|s: int| #![trigger quotient@[s]] ti - n <= s < deg - n implies quotient@[s]
                    == class_sum(coeffs@, s + n, n as nat) % modulus() by {
                    if s != tl {
                        assert(quotient@[s] == q0[s]);
                    }
                }
                assert forall|t: int| ti <= t < deg implies work@[t] == 0 by {
                    if t != ti {
                        assert(work@[t] == w0[t]);
                    }
                }
            } else {
                assert(updated == fadd(0, c as int));
                vstd::arithmetic::div_mod::lemma_small_mod(c as nat, modulus() as nat);
                assert(work@ =~= coeffs@);
            }
            // the identity C = Q * Z_H + W is preserved
            assert forall|x: int| #![trigger poly_eval(coeffs@, x)] cong(
                poly_eval(coeffs@, x),
                poly_eval(quotient@, x) * (pow(x, n as nat) - 1) + poly_eval(work@, x),
            ) by {
                lemma_poly_eval_update(q0, tl, c, x);
                lemma_poly_eval_update(w0, ti, 0u32, x);
                lemma_poly_eval_update(w1, tl, updated, x);
                lemma_pow_adds(x, tl as nat, n as nat);
                let pl = pow(x, tl as nat);
                let pn = pow(x, n as nat);
                let qv = poly_eval(q0, x);
                let wv = poly_eval(w0, x);
                let wl = w1[tl] as int;
                // updated == wl + c (mod p)
                lemma_cong_mod(wl + c);
                lemma_cong_sub(updated as int, wl + c, wl, wl);
                lemma_cong_mul(updated - wl, c as int, pl, pl);
                let new_w = wv + (0 - c) * (pl * pn) + (updated - wl) * pl;
                assert((qv + c * pl) * (pn - 1) + (wv + (0 - c) * (pl * pn) + c * pl) == qv * (pn - 1) + wv)
                    by (nonlinear_arith);
                lemma_cong_add(
                    (qv + c * pl) * (pn - 1) + wv + (0 - c) * (pl * pn),
                    (qv + c * pl) * (pn - 1) + wv + (0 - c) * (pl * pn),
                    (updated - wl) * pl,
                    c * pl,
                );
            }
        }
    }

    let mut remainder: Vec<u32> = Vec::new();
    k = 0;
    while k < n
        invariant
            k <= n,
            n < deg,
            work@.len() == deg,
            remainder@ == work@.subrange(0, k as int),
        decreases n - k,
    {
        remainder.push(work[k]);
        k = k + 1;
    }
    proof {
        assert(i == n);
        if n >= 1 {
            assert forall|j: int| 0 <= j < remainder@.len() implies #[trigger] remainder@[j]
                == class_sum(coeffs@, j, n as nat) % modulus() by {
                assert(remainder@[j] == work@[j]);
                assert(cong(work@[j] as int, coeffs@[j] + class_sum(coeffs@, j + n, n as nat)));
                lemma_cong_mod(class_sum(coeffs@, j, n as nat));
                crate::field::lemma_mod_range(class_sum(coeffs@, j, n as nat));
                lemma_cong_small_eq(work@[j] as int, class_sum(coeffs@, j, n as nat) % modulus());
            }
            assert forall|x: int| #![trigger poly_eval(coeffs@, x)] cong(
                poly_eval(coeffs@, x),
                poly_eval(quotient@, x) * (pow(x, n as nat) - 1) + poly_eval(remainder@, x),
            ) by {
                lemma_poly_eval_take_zeros(work@, n as int, x);
            }
        } else {
            assert(quotient@ =~= coeffs@);
        }
    }
    QuotientResult { quotient, remainder }
}

/// Does this polynomial vanish on the domain of size `domain_size`, i.e.
/// is the remainder of dividing by Z_H exactly zero?
pub fn vanishes_on_domain(coeffs: &[u32], domain_size: usize) -> (r: bool)
    requires
        all_fe(coeffs@),
    ensures
        r == (forall|j: int|
            0 <= j < coeffs@.len() && j < domain_size ==> #[trigger] class_sum(
                coeffs@,
                j,
                domain_size as nat,
            ) % modulus() == 0),
{
    let result = divide_by_vanishing(coeffs, domain_size);
    let mut k: usize = 0;
    while k < result.remainder.len()
        invariant
            k <= result.remainder@.len(),
            forall|j: int| 0 <= j < k ==> result.remainder@[j] == 0,
            is_vanishing_division(coeffs@, domain_size as nat, result.quotient@, result.remainder@),
            all_fe(coeffs@),
        decreases result.remainder@.len() - k,
    {
        if result.remainder[k] != 0 {
            proof {
                if domain_size as int >= coeffs@.len() {
                    assert(result.remainder@ == coeffs@);
                    assert(class_sum(coeffs@, k as int, domain_size as nat) == coeffs@[k as int] + class_sum(
                        coeffs@,
                        k + domain_size,
                        domain_size as nat,
                    )) by {
                        if domain_size == 0 {
                        }
                    }
                    vstd::arithmetic::div_mod::lemma_small_mod(coeffs@[k as int] as nat, modulus() as nat);
                } else if domain_size == 0 {
                    assert(result.remainder@.len() == 0);
                }
                assert(class_sum(coeffs@, k as int, domain_size as nat) % modulus() != 0);
            }
            return false;
        }
        k = k + 1;
    }
    proof {
        assert forall|j: int| 0 <= j < coeffs@.len() && j < domain_size implies #[trigger] class_sum(
            coeffs@,
            j,
            domain_size as nat,
        ) % modulus() == 0 by {
            if domain_size as int >= coeffs@.len() {
                assert(result.remainder@[j] == coeffs@[j]);
                vstd::arithmetic::div_mod::lemma_small_mod(coeffs@[j] as nat, modulus() as nat);
                if domain_size > 0 {
                    assert(class_sum(coeffs@, j + domain_size, domain_size as nat) == 0);
                }
            } else {
                assert(result.remainder@[j] == 0);
            }
        }
    }
    true
}

/// A polynomial whose remainder by `x^n - 1` is zero evaluates to zero at
/// every `x` with `x^n = 1`: in particular at every point of the size-`n`
/// domain of roots of unity.
pub proof fn lemma_vanishing_means_zero_on_domain(
    c: Seq<u32>,
    n: nat,
    q: Seq<u32>,
    r: Seq<u32>,
    x: int,
)
    requires
        n >= 1,
        forall|y: int|
            #![trigger poly_eval(c, y)]
            cong(poly_eval(c, y), poly_eval(q, y) * (pow(y, n) - 1) + poly_eval(r, y)),
        forall|j: int| 0 <= j < r.len() ==> r[j] == 0,
        cong(pow(x, n), 1),
    ensures
        cong(poly_eval(c, x), 0),
{
    crate::algebra::lemma_poly_eval_zeros(r, x);
    assert(cong(poly_eval(c, x), poly_eval(q, x) * (pow(x, n) - 1) + poly_eval(r, x)));
    lemma_cong_sub(pow(x, n), 1, 1, 1);
    lemma_cong_mul(poly_eval(q, x), poly_eval(q, x), pow(x, n) - 1, 0);
    assert(poly_eval(q, x) * 0 == 0);
}

} // verus!
