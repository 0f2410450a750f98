//! Locating where a failed proof most likely diverged, from its phase
//! events.
use vstd::prelude::*;
use vstd::string::*;
use crate::telemetry::ProverEvent;

verus! {

/// `pat` occurs in `s`.
pub open spec fn occurs_in(s: Seq<char>, pat: Seq<char>) -> bool {
    exists|i: int| 0 <= i && i + pat.len() <= s.len() && #[trigger] s.subrange(i, i + pat.len()) == pat
}

/// Whether `pat` occurs in `s`.
pub fn str_contains(s: &str, pat: &str) -> (r: bool)
    ensures
        r == occurs_in(s@, pat@),
{
    let n = s.unicode_len();
    let m = pat.unicode_len();
    if m > n {
        proof {
            assert forall|i: int| 0 <= i && i + pat@.len() <= s@.len() implies #[trigger] s@.subrange(i, i + pat@.len()) != pat@ by {
            }
        }
        return false;
    }
    let mut i: usize = 0;
    while i <= n - m
        invariant
            n == s@.len(),
            m == pat@.len(),
            m <= n,
            i <= n - m + 1,
            forall|j: int| 0 <= j < i ==> #[trigger] s@.subrange(j, j + m) != pat@,
        decreases n - m + 1 - i,
    {
        let mut k: usize = 0;
        let mut same = true;
        while k < m
            invariant
                n == s@.len(),
                m == pat@.len(),
                i + m <= n,
                k <= m,
                same == (forall|t: int| 0 <= t < k ==> s@[i + t] == pat@[t]),
            decreases m - k,
        {
            if s.get_char(i + k) != pat.get_char(k) {
                same = false;
            }
            k = k + 1;
        }
        if same {
            assert(s@.subrange(i as int, i + m) =~= pat@);
            return true;
        }
        proof {
            let t = choose|t: int| 0 <= t < m && s@[i + t] != pat@[t];
            assert(s@.subrange(i as int, i + m)[t] != pat@[t]);
        }
        i = i + 1;
    }
    proof {
        assert forall|j: int| 0 <= j && j + pat@.len() <= s@.len() implies #[trigger] s@.subrange(j, j + pat@.len()) != pat@ by {
        }
    }
    false
}

/// A phase where a divergence is likely: one about sumcheck, DEEP or
/// folding.
pub open spec fn divergence_phase(phase: Seq<char>) -> bool {
    occurs_in(phase, "sumcheck"@) || occurs_in(phase, "deep"@) || occurs_in(phase, "folding"@)
}

/// The report for an event.
pub open spec fn divergence_report(e: ProverEvent) -> Seq<char> {
    "First divergence likely in phase '"@ + e.phase@ + "' (request_id: "@ + e.request_id@ + ")"@
}

/// Walk the events backwards and report the last one in a phase where a
/// divergence is likely; `None` if there is none.
pub fn reverse_trace_debug(events: &[ProverEvent]) -> (r: Option<String>)
    ensures
        r is None <==> forall|k: int| 0 <= k < events@.len() ==> !divergence_phase(#[trigger] events@[k].phase@),
        r matches Some(s) ==> exists|k: int| {
            &&& 0 <= k < events@.len()
            &&& divergence_phase(#[trigger] events@[k].phase@)
            &&& forall|j: int| k < j < events@.len() ==> !divergence_phase(#[trigger] events@[j].phase@)
            &&& s@ == divergence_report(events@[k])
        },
{
    let mut i: usize = events.len();
    while i > 0
        invariant
            i <= events@.len(),
            forall|j: int| i <= j < events@.len() ==> !divergence_phase(#[trigger] events@[j].phase@),
        decreases i,
    {
        let e = &events[i - 1];
        let p = e.phase.as_str();
        let hit = str_contains(p, "sumcheck") || str_contains(p, "deep") || str_contains(p, "folding");
        if hit {
            let mut s = String::from_str("First divergence likely in phase '");
            s.append(p);
            s.append("' (request_id: ");
            s.append(e.request_id.as_str());
            s.append(")");
            assert(s@ =~= divergence_report(events@[i - 1]));
            return Some(s);
        }
        i = i - 1;
    }
    None
}

} // verus!
