//! NTT backends: a uniform interface over number-theoretic transform
//! implementations, each naming itself so that a proof can record which
//! backend produced it. Every backend computes the same transform, the DFT
//! over the two-adic subgroup of the input's size.
use vstd::prelude::*;
use vstd::arithmetic::power2::pow2;
use crate::field::all_fe;
use crate::fft::{is_pow2, dft, inverse_dft};
use crate::oracle::log2;
use crate::poly::{TWO_ADICITY, two_adic_generator_spec, radix2_dft, radix2_idft};

verus! {

/// What a transform accepts: a power-of-two number of field elements, at
/// most the two-adic subgroup's size.
pub open spec fn ntt_input(v: Seq<u32>) -> bool {
    &&& is_pow2(v.len())
    &&& v.len() <= pow2(TWO_ADICITY as nat)
    &&& all_fe(v)
}

/// The forward transform of `v`: its evaluations on the subgroup.
pub open spec fn forward_of(v: Seq<u32>) -> Seq<int> {
    dft(v, two_adic_generator_spec(log2(v.len())) as int)
}

/// The inverse transform of `v`: the coefficients it evaluates from.
pub open spec fn inverse_of(v: Seq<u32>) -> Seq<int> {
    inverse_dft(v, two_adic_generator_spec(log2(v.len())) as int)
}

/// A backend for number-theoretic transforms.
pub trait NttBackend {
    /// The backend's name.
    spec fn spec_name(&self) -> Seq<char>;

    /// Forward NTT: coefficient form to evaluation form, in place.
    fn forward(&self, vals: &mut Vec<u32>)
        requires
            ntt_input(old(vals)@),
        ensures
            final(vals)@.len() == old(vals)@.len(),
            all_fe(final(vals)@),
            forall|k: int| 0 <= k < final(vals)@.len() ==> #[trigger] final(vals)@[k] == forward_of(old(vals)@)[k],
    ;

    /// Inverse NTT: evaluation form to coefficient form, in place.
    fn inverse(&self, vals: &mut Vec<u32>)
        requires
            ntt_input(old(vals)@),
        ensures
            final(vals)@.len() == old(vals)@.len(),
            all_fe(final(vals)@),
            forall|k: int| 0 <= k < final(vals)@.len() ==> #[trigger] final(vals)@[k] == inverse_of(old(vals)@)[k],
    ;

    /// The backend's identity, for provenance.
    fn name(&self) -> (s: &'static str)
        ensures
            s@ == self.spec_name(),
    ;
}

/// The scalar reference backend: the radix-2 decimation-in-time DFT.
pub struct ScalarBackend;

/// The backend for wide vector units, computing the same radix-2 DFT.
pub struct Avx512Backend;

impl Default for ScalarBackend {
    fn default() -> (b: Self)
        ensures
            b == ScalarBackend,
    {
        ScalarBackend
    }
}

impl Default for Avx512Backend {
    fn default() -> (b: Self)
        ensures
            b == Avx512Backend,
    {
        Avx512Backend
    }
}

fn forward_in_place(vals: &mut Vec<u32>)
    requires
        ntt_input(old(vals)@),
    ensures
        final(vals)@.len() == old(vals)@.len(),
        all_fe(final(vals)@),
        forall|k: int| 0 <= k < final(vals)@.len() ==> #[trigger] final(vals)@[k] == forward_of(old(vals)@)[k],
{
    let r = radix2_dft(vals.as_slice());
    *vals = r;
}

fn inverse_in_place(vals: &mut Vec<u32>)
    requires
        ntt_input(old(vals)@),
    ensures
        final(vals)@.len() == old(vals)@.len(),
        all_fe(final(vals)@),
        forall|k: int| 0 <= k < final(vals)@.len() ==> #[trigger] final(vals)@[k] == inverse_of(old(vals)@)[k],
{
    let r = radix2_idft(vals.as_slice());
    *vals = r;
}

impl NttBackend for ScalarBackend {
    open spec fn spec_name(&self) -> Seq<char> {
        "scalar-radix2-dit"@
    }

    fn forward(&self, vals: &mut Vec<u32>) {
        forward_in_place(vals);
    }

    fn inverse(&self, vals: &mut Vec<u32>) {
        inverse_in_place(vals);
    }

    fn name(&self) -> (s: &'static str) {
        "scalar-radix2-dit"
    }
}

impl NttBackend for Avx512Backend {
    open spec fn spec_name(&self) -> Seq<char> {
        "avx512-radix2-butterfly"@
    }

    fn forward(&self, vals: &mut Vec<u32>) {
        forward_in_place(vals);
    }

    fn inverse(&self, vals: &mut Vec<u32>) {
        inverse_in_place(vals);
    }

    fn name(&self) -> (s: &'static str) {
        "avx512-radix2-butterfly"
    }
}

/// Every backend agrees with the scalar reference: two results that each
/// meet the forward (or each the inverse) contract on one input are the same
/// sequence.
pub proof fn lemma_backends_agree(input: Seq<u32>, a: Seq<u32>, b: Seq<u32>, forward: bool)
    requires
        a.len() == input.len(),
        b.len() == input.len(),
        forall|k: int| 0 <= k < a.len() ==> #[trigger] a[k] == (if forward {
            forward_of(input)[k]
        } else {
            inverse_of(input)[k]
        }),
        forall|k: int| 0 <= k < b.len() ==> #[trigger] b[k] == (if forward {
            forward_of(input)[k]
        } else {
            inverse_of(input)[k]
        }),
    ensures
        a == b,
{
    assert(a =~= b);
}

} // verus!
