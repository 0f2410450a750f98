//! DEEP-ALI: out-of-domain checks of trace polynomials and AIR constraints,
//! with a soundness budget.
use vstd::prelude::*;
use vstd::string::*;
use crate::text::{append_decimal, decimal};

verus! {

pub const DEEP_ALI_LAMBDA: usize = 128;
pub const MAX_DEEP_POINTS: usize = 16;
pub const FRI_FOLDING_FACTOR: usize = 2;

/// The soundness budget, in bits, and how much of it has been spent.
#[derive(Clone, Debug)]
pub struct SoundnessAccumulator {
    pub bits_consumed: usize,
    pub bits_remaining: usize,
    pub round: usize,
}

/// Why a DEEP-ALI step failed.
#[derive(Debug, Clone, PartialEq)]
pub enum DeepAliError {
    SoundnessDepleted { requested: usize, remaining: usize },
    InvalidDeepPoint { point: String, reason: String },
    OracleMismatch { expected: String, actual: String },
    ConstraintViolation { index: usize, deep_point: String },
    FriCommitmentMismatch { round: usize },
    InterpolationFailure { reason: String },
    QuotientRemainderNonZero { expected: String, actual: String },
    TraceEvaluationFailure { column: usize, point: String, reason: String },
    ConstraintDegreeMismatch { expected: usize, actual: usize },
    ChallengerError { reason: String },
}

impl SoundnessAccumulator {
    /// A fresh budget of `lambda` bits.
    pub fn new(lambda: usize) -> (a: Self)
        ensures
            a.bits_consumed == 0,
            a.bits_remaining == lambda,
            a.round == 0,
    {
        Self { bits_consumed: 0, bits_remaining: lambda, round: 0 }
    }

    /// Spends `bits` of the budget in a new round; asking for more than
    /// remains fails and spends nothing.
    pub fn consume(&mut self, bits: usize) -> (r: Result<(), DeepAliError>)
        requires
            old(self).bits_consumed + old(self).bits_remaining <= usize::MAX,
            old(self).round < usize::MAX,
        ensures
            r is Ok <==> bits <= old(self).bits_remaining,
            r is Ok ==> {
                &&& final(self).bits_consumed == old(self).bits_consumed + bits
                &&& final(self).bits_remaining == old(self).bits_remaining - bits
                &&& final(self).round == old(self).round + 1
            },
            r matches Err(e) ==> {
                &&& e == DeepAliError::SoundnessDepleted {
                    requested: bits,
                    remaining: old(self).bits_remaining,
                }
                &&& *final(self) == *old(self)
            },
            final(self).bits_consumed + final(self).bits_remaining == old(self).bits_consumed
                + old(self).bits_remaining,
            *final(self) == consume_step(*old(self), bits),
    {
        if bits > self.bits_remaining {
            return Err(DeepAliError::SoundnessDepleted { requested: bits, remaining: self.bits_remaining });
        }
        self.bits_consumed = self.bits_consumed + bits;
        self.bits_remaining = self.bits_remaining - bits;
        self.round = self.round + 1;
        Ok(())
    }
}

/// The accumulator after one request of `bits`: spent when it fits in what
/// remains, refused and left unchanged otherwise.
pub open spec fn consume_step(a: SoundnessAccumulator, bits: usize) -> SoundnessAccumulator {
    if bits <= a.bits_remaining {
        SoundnessAccumulator {
            bits_consumed: (a.bits_consumed + bits) as usize,
            bits_remaining: (a.bits_remaining - bits) as usize,
            round: (a.round + 1) as usize,
        }
    } else {
        a
    }
}

/// The accumulator after the requests of `reqs`, made in order.
pub open spec fn consume_all(a: SoundnessAccumulator, reqs: Seq<usize>) -> SoundnessAccumulator
    decreases reqs.len(),
{
    if reqs.len() == 0 {
        a
    } else {
        consume_step(consume_all(a, reqs.drop_last()), reqs.last())
    }
}

/// How many of the requests of `reqs`, made in order, were granted.
pub open spec fn granted_count(a: SoundnessAccumulator, reqs: Seq<usize>) -> nat
    decreases reqs.len(),
{
    if reqs.len() == 0 {
        0
    } else {
        granted_count(a, reqs.drop_last()) + if reqs.last() <= consume_all(
            a,
            reqs.drop_last(),
        ).bits_remaining {
            1nat
        } else {
            0nat
        }
    }
}

/// Budget conservation: from a fresh budget of `lambda` bits, after any
/// sequence of requests the bits spent and the bits left add up to `lambda`
/// (so every request meets the first precondition of `consume`), and as
/// long as the round counter fits its type (at most `usize::MAX` granted
/// requests; `consume` refuses to run past that) it equals the number of
/// granted requests.
pub proof fn lemma_budget_conserved(lambda: usize, reqs: Seq<usize>)
    ensures
        ({
            let init = SoundnessAccumulator { bits_consumed: 0, bits_remaining: lambda, round: 0 };
            let a = consume_all(init, reqs);
            &&& a.bits_consumed + a.bits_remaining == lambda
            &&& granted_count(init, reqs) <= usize::MAX ==> a.round == granted_count(init, reqs)
            &&& granted_count(init, reqs) <= reqs.len()
        }),
    decreases reqs.len(),
{
    if reqs.len() > 0 {
        lemma_budget_conserved(lambda, reqs.drop_last());
    }
}

/// The human-readable text of an error.
pub open spec fn deep_ali_error_message(e: DeepAliError) -> Seq<char> {
    match e {
        DeepAliError::SoundnessDepleted { requested, remaining } => "DEEP-ALI soundness depleted: requested "@
            + decimal(requested as nat) + " bits, "@ + decimal(remaining as nat) + " remaining"@,
        DeepAliError::InvalidDeepPoint { point, reason } => "Invalid DEEP point "@ + point@ + ": "@
            + reason@,
        DeepAliError::OracleMismatch { expected, actual } => "Oracle mismatch: expected "@
            + expected@ + ", got "@ + actual@,
        DeepAliError::ConstraintViolation { index, deep_point } => "Constraint "@ + decimal(
            index as nat,
        ) + " violated at DEEP point "@ + deep_point@,
        DeepAliError::FriCommitmentMismatch { round } => "FRI commitment mismatch at round "@
            + decimal(round as nat),
        DeepAliError::InterpolationFailure { reason } => "Interpolation failure: "@ + reason@,
        DeepAliError::QuotientRemainderNonZero { expected, actual } => "Quotient remainder non-zero: expected "@
            + expected@ + ", got "@ + actual@,
        DeepAliError::TraceEvaluationFailure { column, point, reason } => "Trace evaluation failed for column "@
            + decimal(column as nat) + " at point "@ + point@ + ": "@ + reason@,
        DeepAliError::ConstraintDegreeMismatch { expected, actual } => "Constraint degree mismatch: expected "@
            + decimal(expected as nat) + ", got "@ + decimal(actual as nat),
        DeepAliError::ChallengerError { reason } => "Challenger error: "@ + reason@,
    }
}

impl DeepAliError {
    /// The error's message.
    pub fn message(&self) -> (s: String)
        ensures
            s@ == deep_ali_error_message(*self),
    {
        match self {
            DeepAliError::SoundnessDepleted { requested, remaining } => {
                let mut s = String::from_str("DEEP-ALI soundness depleted: requested ");
                append_decimal(&mut s, *requested as u64);
                s.append(" bits, ");
                append_decimal(&mut s, *remaining as u64);
                s.append(" remaining");
                s
            },
            DeepAliError::InvalidDeepPoint { point, reason } => {
                let mut s = String::from_str("Invalid DEEP point ");
                s.append(point.as_str());
                s.append(": ");
                s.append(reason.as_str());
                s
            },
            DeepAliError::OracleMismatch { expected, actual } => {
                let mut s = String::from_str("Oracle mismatch: expected ");
                s.append(expected.as_str());
                s.append(", got ");
                s.append(actual.as_str());
                s
            },
            DeepAliError::ConstraintViolation { index, deep_point } => {
                let mut s = String::from_str("Constraint ");
                append_decimal(&mut s, *index as u64);
                s.append(" violated at DEEP point ");
                s.append(deep_point.as_str());
                s
            },
            DeepAliError::FriCommitmentMismatch { round } => {
                let mut s = String::from_str("FRI commitment mismatch at round ");
                append_decimal(&mut s, *round as u64);
                s
            },
            DeepAliError::InterpolationFailure { reason } => {
                let mut s = String::from_str("Interpolation failure: ");
                s.append(reason.as_str());
                s
            },
            DeepAliError::QuotientRemainderNonZero { expected, actual } => {
                let mut s = String::from_str("Quotient remainder non-zero: expected ");
                s.append(expected.as_str());
                s.append(", got ");
                s.append(actual.as_str());
                s
            },
            DeepAliError::TraceEvaluationFailure { column, point, reason } => {
                let mut s = String::from_str("Trace evaluation failed for column ");
                append_decimal(&mut s, *column as u64);
                s.append(" at point ");
                s.append(point.as_str());
                s.append(": ");
                s.append(reason.as_str());
                s
            },
            DeepAliError::ConstraintDegreeMismatch { expected, actual } => {
                let mut s = String::from_str("Constraint degree mismatch: expected ");
                append_decimal(&mut s, *expected as u64);
                s.append(", got ");
                append_decimal(&mut s, *actual as u64);
                s
            },
            DeepAliError::ChallengerError { reason } => {
                let mut s = String::from_str("Challenger error: ");
                s.append(reason.as_str());
                s
            },
        }
    }
}

} // verus!
