//! Fiat-Shamir transcripts: Plonky3's duplex-sponge challengers over
//! BabyBear with the Poseidon2 permutation, built from its fixed default
//! round constants.
//!
//! A transcript is modelled by the sequence of operations performed on it
//! since it was created: an observed field element (`Some(v)`) or a sample
//! (`None`). The sponge is deterministic, so a sample is a function of the
//! operations before it.
use vstd::prelude::*;
use p3_baby_bear::{BabyBear, Poseidon2BabyBear, default_babybear_poseidon2_16, default_babybear_poseidon2_24};
use p3_challenger::{CanObserve, CanSample, DuplexChallenger};
use p3_field::PrimeField32;
use crate::field::P;

verus! {

/// The challenger of width 16 and rate 8 used by sumcheck and FRI.
#[verifier::external_body]
pub struct Transcript {
    inner: DuplexChallenger<BabyBear, Poseidon2BabyBear<16>, 16, 8>,
}

/// The challenger of width 24 and rate 7 used by DEEP-ALI.
#[verifier::external_body]
pub struct DeepTranscript {
    inner: DuplexChallenger<BabyBear, Poseidon2BabyBear<24>, 24, 7>,
}

/// The operations performed on a width-16 transcript since its creation.
pub uninterp spec fn transcript_log(t: Transcript) -> Seq<Option<u32>>;

/// The operations performed on a width-24 transcript since its creation.
pub uninterp spec fn deep_transcript_log(t: DeepTranscript) -> Seq<Option<u32>>;

/// What a width-16 transcript samples after the operations `log`.
pub uninterp spec fn duplex16_sample(log: Seq<Option<u32>>) -> u32;

/// What a width-24 transcript samples after the operations `log`.
pub uninterp spec fn duplex24_sample(log: Seq<Option<u32>>) -> u32;

/// `DuplexChallenger::new` with the default width-16 Poseidon2 permutation:
/// a challenger on which nothing has been done yet.
#[verifier::external_body]
fn duplex16_new() -> (t: Transcript)
    ensures
        transcript_log(t) == Seq::<Option<u32>>::empty(),
{
    Transcript { inner: DuplexChallenger::new(default_babybear_poseidon2_16()) }
}

/// `CanObserve::observe` of one canonical field element: the operation is
/// appended to the transcript.
#[verifier::external_body]
fn duplex16_observe(t: &mut Transcript, v: u32)
    requires
        v < P,
    ensures
        transcript_log(*final(t)) == transcript_log(*old(t)).push(Some(v)),
{
    t.inner.observe(BabyBear::new(v));
}

/// `CanSample::sample` of one base-field element, returned canonical: a
/// function of the operations so far, appended to the transcript.
#[verifier::external_body]
fn duplex16_sample_op(t: &mut Transcript) -> (r: u32)
    ensures
        r < P,
        r == duplex16_sample(transcript_log(*old(t))),
        transcript_log(*final(t)) == transcript_log(*old(t)).push(None),
{
    let x: BabyBear = t.inner.sample();
    x.as_canonical_u32()
}

/// `DuplexChallenger::new` with the default width-24 Poseidon2 permutation.
#[verifier::external_body]
fn duplex24_new() -> (t: DeepTranscript)
    ensures
        deep_transcript_log(t) == Seq::<Option<u32>>::empty(),
{
    DeepTranscript { inner: DuplexChallenger::new(default_babybear_poseidon2_24()) }
}

/// `CanObserve::observe` on the width-24 challenger.
#[verifier::external_body]
fn duplex24_observe(t: &mut DeepTranscript, v: u32)
    requires
        v < P,
    ensures
        deep_transcript_log(*final(t)) == deep_transcript_log(*old(t)).push(Some(v)),
{
    t.inner.observe(BabyBear::new(v));
}

/// `CanSample::sample` on the width-24 challenger, returned canonical.
#[verifier::external_body]
fn duplex24_sample_op(t: &mut DeepTranscript) -> (r: u32)
    ensures
        r < P,
        r == duplex24_sample(deep_transcript_log(*old(t))),
        deep_transcript_log(*final(t)) == deep_transcript_log(*old(t)).push(None),
{
    let x: BabyBear = t.inner.sample();
    x.as_canonical_u32()
}

/// The log after observing each of `vs` in order.
pub open spec fn observe_all(log: Seq<Option<u32>>, vs: Seq<u32>) -> Seq<Option<u32>> {
    log + vs.map_values(|v: u32| Some(v))
}

impl Transcript {
    /// A fresh transcript.
    pub fn new() -> (t: Self)
        ensures
            transcript_log(t) == Seq::<Option<u32>>::empty(),
    {
        duplex16_new()
    }

    /// Absorb a field element.
    pub fn observe(&mut self, v: u32)
        requires
            v < P,
        ensures
            transcript_log(*final(self)) == transcript_log(*old(self)).push(Some(v)),
    {
        duplex16_observe(self, v)
    }

    /// Squeeze a challenge.
    pub fn sample(&mut self) -> (r: u32)
        ensures
            r < P,
            r == duplex16_sample(transcript_log(*old(self))),
            transcript_log(*final(self)) == transcript_log(*old(self)).push(None),
    {
        duplex16_sample_op(self)
    }

    /// Absorb each of `vs` in order.
    pub fn observe_slice(&mut self, vs: &[u32])
        requires
            forall|i: int| 0 <= i < vs@.len() ==> #[trigger] vs@[i] < P,
        ensures
            transcript_log(*final(self)) == observe_all(transcript_log(*old(self)), vs@),
    {
        let ghost start = transcript_log(*self);
        let mut i: usize = 0;
        while i < vs.len()
            invariant
                forall|k: int| 0 <= k < vs@.len() ==> #[trigger] vs@[k] < P,
                i <= vs@.len(),
                transcript_log(*self) == observe_all(start, vs@.take(i as int)),
            decreases vs@.len() - i,
        {
            self.observe(vs[i]);
            proof {
                assert(vs@.take(i as int + 1) =~= vs@.take(i as int).push(vs@[i as int]));
                assert(observe_all(start, vs@.take(i as int + 1)) =~= observe_all(start, vs@.take(i as int)).push(Some(vs@[i as int])));
            }
            i = i + 1;
        }
        assert(vs@.take(vs@.len() as int) =~= vs@);
    }
}

impl DeepTranscript {
    /// A fresh transcript.
    pub fn new() -> (t: Self)
        ensures
            deep_transcript_log(t) == Seq::<Option<u32>>::empty(),
    {
        duplex24_new()
    }

    /// Absorb a field element.
    pub fn observe(&mut self, v: u32)
        requires
            v < P,
        ensures
            deep_transcript_log(*final(self)) == deep_transcript_log(*old(self)).push(Some(v)),
    {
        duplex24_observe(self, v)
    }

    /// Squeeze a challenge.
    pub fn sample(&mut self) -> (r: u32)
        ensures
            r < P,
            r == duplex24_sample(deep_transcript_log(*old(self))),
            deep_transcript_log(*final(self)) == deep_transcript_log(*old(self)).push(None),
    {
        duplex24_sample_op(self)
    }
}

} // verus!
