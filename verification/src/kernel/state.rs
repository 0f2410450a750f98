//! The kernel state: a version counter and the set of claims by identifier.
use vstd::prelude::*;
use crate::hashing::{blake3, blake3_spec};
use crate::kernel::state_encoding::{cbor_state, encode_state};
use crate::kernel::types::StateHash;

verus! {

/// Where a claim stands.
#[derive(Debug, Clone, Copy, PartialEq, Eq, Structural)]
pub enum ClaimStatus {
    Created,
    Verified,
}

/// What the state records about one claim.
#[derive(Debug)]
pub struct ClaimState {
    pub content_hash: [u8; 32],
    pub status: ClaimStatus,
    pub verified_by: Option<String>,
    pub score: Option<u8>,
}

/// A claim as a mathematical value.
pub struct ClaimView {
    pub content_hash: Seq<u8>,
    pub status: ClaimStatus,
    pub verified_by: Option<Seq<char>>,
    pub score: Option<u8>,
}

impl View for ClaimState {
    type V = ClaimView;

    open spec fn view(&self) -> ClaimView {
        ClaimView {
            content_hash: self.content_hash@,
            status: self.status,
            verified_by: match self.verified_by {
                Some(s) => Some(s@),
                None => None,
            },
            score: self.score,
        }
    }
}

impl Clone for ClaimState {
    fn clone(&self) -> (r: Self)
        ensures
            r@ == self@,
    {
        let verified_by = match &self.verified_by {
            Some(s) => Some(s.clone()),
            None => None,
        };
        ClaimState {
            content_hash: self.content_hash,
            status: self.status,
            verified_by,
            score: self.score,
        }
    }
}

/// One claim under its identifier.
#[derive(Debug)]
pub struct ClaimEntry {
    pub claim_id: String,
    pub claim: ClaimState,
}

impl Clone for ClaimEntry {
    fn clone(&self) -> (r: Self)
        ensures
            r.claim_id@ == self.claim_id@,
            r.claim@ == self.claim@,
    {
        ClaimEntry { claim_id: self.claim_id.clone(), claim: self.claim.clone() }
    }
}

/// The kernel state. `claims` holds each identifier at most once.
#[derive(Debug)]
pub struct State {
    pub version: u64,
    pub claims: Vec<ClaimEntry>,
}

/// The claims of a list of entries, as a map from identifier to claim; a
/// later entry for the same identifier wins.
pub open spec fn claims_map(s: Seq<ClaimEntry>) -> Map<Seq<char>, ClaimView>
    decreases s.len(),
{
    if s.len() == 0 {
        Map::empty()
    } else {
        claims_map(s.drop_last()).insert(s.last().claim_id@, s.last().claim@)
    }
}

/// No identifier occurs twice.
pub open spec fn unique_ids(s: Seq<ClaimEntry>) -> bool {
    forall|i: int, j: int|
        0 <= i < j < s.len() ==> #[trigger] s[i].claim_id@ != #[trigger] s[j].claim_id@
}

/// Looking up an identifier that occurs at index `i`.
pub proof fn lemma_claims_map_at(s: Seq<ClaimEntry>, i: int)
    requires
        unique_ids(s),
        0 <= i < s.len(),
    ensures
        claims_map(s).dom().contains(s[i].claim_id@),
        claims_map(s)[s[i].claim_id@] == s[i].claim@,
    decreases s.len(),
{
    if i < s.len() - 1 {
        let t = s.drop_last();
        assert(t[i] == s[i]);
        assert(unique_ids(t)) by {
            assert forall|a: int, b: int| 0 <= a < b < t.len() implies #[trigger] t[a].claim_id@
                != #[trigger] t[b].claim_id@ by {
                assert(t[a] == s[a] && t[b] == s[b]);
            }
        }
        lemma_claims_map_at(t, i);
        assert(s.last() == s[s.len() - 1]);
    }
}

/// An identifier that occurs nowhere is not in the map.
pub proof fn lemma_claims_map_absent(s: Seq<ClaimEntry>, k: Seq<char>)
    requires
        forall|i: int| 0 <= i < s.len() ==> #[trigger] s[i].claim_id@ != k,
    ensures
        !claims_map(s).dom().contains(k),
    decreases s.len(),
{
    if s.len() > 0 {
        let t = s.drop_last();
        assert forall|i: int| 0 <= i < t.len() implies #[trigger] t[i].claim_id@ != k by {
            assert(t[i] == s[i]);
        }
        lemma_claims_map_absent(t, k);
        assert(s.last() == s[s.len() - 1]);
    }
}

/// Replacing the entry at `i` by one with the same identifier updates the
/// map at that identifier only.
pub proof fn lemma_claims_map_update(s: Seq<ClaimEntry>, i: int, e: ClaimEntry)
    requires
        unique_ids(s),
        0 <= i < s.len(),
        e.claim_id@ == s[i].claim_id@,
    ensures
        claims_map(s.update(i, e)) == claims_map(s).insert(e.claim_id@, e.claim@),
        unique_ids(s.update(i, e)),
    decreases s.len(),
{
    let u = s.update(i, e);
    assert(unique_ids(u)) by {
        assert forall|a: int, b: int| 0 <= a < b < u.len() implies #[trigger] u[a].claim_id@
            != #[trigger] u[b].claim_id@ by {
            assert(u[a].claim_id@ == s[a].claim_id@);
            assert(u[b].claim_id@ == s[b].claim_id@);
        }
    }
    let t = s.drop_last();
    assert(unique_ids(t)) by {
        assert forall|a: int, b: int| 0 <= a < b < t.len() implies #[trigger] t[a].claim_id@
            != #[trigger] t[b].claim_id@ by {
            assert(t[a] == s[a] && t[b] == s[b]);
        }
    }
    if i == s.len() - 1 {
        assert(u.drop_last() == t);
        assert(claims_map(u) == claims_map(t).insert(e.claim_id@, e.claim@));
        assert(claims_map(s) == claims_map(t).insert(e.claim_id@, s[i].claim@));
        assert(claims_map(u) =~= claims_map(s).insert(e.claim_id@, e.claim@));
    } else {
        lemma_claims_map_update(t, i, e);
        assert(u.drop_last() == t.update(i, e));
        let last = s.last();
        assert(last == s[s.len() - 1]);
        assert(u.last() == last);
        assert(last.claim_id@ != e.claim_id@);
        assert(claims_map(u) =~= claims_map(s).insert(e.claim_id@, e.claim@));
    }
}

impl Default for State {
    fn default() -> (s: Self)
        ensures
            s.version == 0,
            s.claims@.len() == 0,
    {
        State { version: 0, claims: Vec::new() }
    }
}

impl State {
    /// The state is well formed: no identifier occurs twice.
    pub open spec fn wf(&self) -> bool {
        unique_ids(self.claims@)
    }

    /// The claims as a map from identifier to claim.
    pub open spec fn claims_view(&self) -> Map<Seq<char>, ClaimView> {
        claims_map(self.claims@)
    }

    /// The index of the entry for `claim_id`, if any.
    fn find(&self, claim_id: &String) -> (r: Option<usize>)
        requires
            self.wf(),
        ensures
            match r {
                Some(i) => i < self.claims@.len() && self.claims@[i as int].claim_id@ == claim_id@,
                None => forall|i: int|
                    0 <= i < self.claims@.len() ==> #[trigger] self.claims@[i].claim_id@
                        != claim_id@,
            },
    {
        let mut i: usize = 0;
        while i < self.claims.len()
            invariant
                i <= self.claims@.len(),
                forall|j: int| 0 <= j < i ==> #[trigger] self.claims@[j].claim_id@ != claim_id@,
            decreases self.claims@.len() - i,
        {
            if self.claims[i].claim_id == *claim_id {
                return Some(i);
            }
            i = i + 1;
        }
        None
    }

    /// Records a new claim (replacing any claim under the same identifier)
    /// with status `Created`, and bumps the version.
    pub fn apply_claim_created(&mut self, claim_id: String, content_hash: [u8; 32])
        requires
            old(self).wf(),
            old(self).version < u64::MAX,
        ensures
            final(self).wf(),
            final(self).version == old(self).version + 1,
            final(self).claims_view() == old(self).claims_view().insert(
                claim_id@,
                ClaimView {
                    content_hash: content_hash@,
                    status: ClaimStatus::Created,
                    verified_by: None,
                    score: None,
                },
            ),
    {
        let ghost k = claim_id@;
        let entry = ClaimEntry {
            claim_id,
            claim: ClaimState { content_hash, status: ClaimStatus::Created, verified_by: None, score: None },
        };
        match self.find(&entry.claim_id) {
            Some(i) => {
                proof {
                    lemma_claims_map_update(self.claims@, i as int, entry);
                }
                self.claims.set(i, entry);
            },
            None => {
                let ghost old_claims = self.claims@;
                self.claims.push(entry);
                proof {
                    assert(self.claims@.drop_last() == old_claims);
                    assert(unique_ids(self.claims@)) by {
                        assert forall|a: int, b: int| 0 <= a < b < self.claims@.len() implies
                            #[trigger] self.claims@[a].claim_id@ != #[trigger] self.claims@[b].claim_id@ by {
                            if b == self.claims@.len() - 1 {
                                assert(self.claims@[a] == old_claims[a]);
                            } else {
                                assert(self.claims@[a] == old_claims[a]);
                                assert(self.claims@[b] == old_claims[b]);
                            }
                        }
                    }
                }
            },
        }
        self.version = self.version + 1;
    }

    /// Marks an existing claim verified by `verifier` with `score`, and
    /// bumps the version; an unknown identifier leaves the state unchanged.
    pub fn apply_claim_verified(&mut self, claim_id: String, verifier: String, score: u8)
        requires
            old(self).wf(),
            old(self).version < u64::MAX,
        ensures
            final(self).wf(),
            old(self).claims_view().dom().contains(claim_id@) ==> {
                &&& final(self).version == old(self).version + 1
                &&& final(self).claims_view() == old(self).claims_view().insert(
                    claim_id@,
                    ClaimView {
                        content_hash: old(self).claims_view()[claim_id@].content_hash,
                        status: ClaimStatus::Verified,
                        verified_by: Some(verifier@),
                        score: Some(score),
                    },
                )
            },
            !old(self).claims_view().dom().contains(claim_id@) ==> {
                &&& final(self).version == old(self).version
                &&& final(self).claims_view() == old(self).claims_view()
            },
    {
        match self.find(&claim_id) {
            Some(i) => {
                proof {
                    lemma_claims_map_at(self.claims@, i as int);
                }
                let content_hash = self.claims[i].claim.content_hash;
                let entry = ClaimEntry {
                    claim_id,
                    claim: ClaimState {
                        content_hash,
                        status: ClaimStatus::Verified,
                        verified_by: Some(verifier),
                        score: Some(score),
                    },
                };
                proof {
                    lemma_claims_map_update(self.claims@, i as int, entry);
                }
                self.claims.set(i, entry);
                self.version = self.version + 1;
            },
            None => {
                proof {
                    lemma_claims_map_absent(self.claims@, claim_id@);
                }
            },
        }
    }

    /// The state's hash: the BLAKE3 digest of its canonical CBOR form.
    pub fn hash(&self) -> (h: StateHash)
        ensures
            h@ == blake3_spec(cbor_state(*self)),
    {
        let bytes = encode_state(self);
        blake3(bytes.as_slice())
    }

    /// A copy of the state.
    pub fn duplicate(&self) -> (r: State)
        requires
            self.wf(),
        ensures
            r.wf(),
            r.version == self.version,
            r.claims_view() == self.claims_view(),
            r.claims@.len() == self.claims@.len(),
    {
        let mut claims: Vec<ClaimEntry> = Vec::new();
        let mut i: usize = 0;
        while i < self.claims.len()
            invariant
                i <= self.claims@.len(),
                claims@.len() == i,
                forall|j: int| 0 <= j < i ==> #[trigger] claims@[j].claim_id@ == self.claims@[j].claim_id@
                    && claims@[j].claim@ == self.claims@[j].claim@,
            decreases self.claims@.len() - i,
        {
            claims.push(self.claims[i].clone());
            i = i + 1;
        }
        let r = State { version: self.version, claims };
        proof {
            lemma_claims_map_same(r.claims@, self.claims@);
        }
        r
    }
}

/// Two entry lists that agree on identifiers and claims give the same map.
pub proof fn lemma_claims_map_same(a: Seq<ClaimEntry>, b: Seq<ClaimEntry>)
    requires
        a.len() == b.len(),
        forall|j: int| 0 <= j < a.len() ==> #[trigger] a[j].claim_id@ == b[j].claim_id@
            && a[j].claim@ == b[j].claim@,
    ensures
        claims_map(a) == claims_map(b),
        unique_ids(a) <==> unique_ids(b),
    decreases a.len(),
{
    if a.len() > 0 {
        let (ta, tb) = (a.drop_last(), b.drop_last());
        assert forall|j: int| 0 <= j < ta.len() implies #[trigger] ta[j].claim_id@ == tb[j].claim_id@
            && ta[j].claim@ == tb[j].claim@ by {
            assert(ta[j] == a[j] && tb[j] == b[j]);
        }
        lemma_claims_map_same(ta, tb);
        assert(a.last() == a[a.len() - 1] && b.last() == b[b.len() - 1]);
    }
    assert(unique_ids(a) ==> unique_ids(b)) by {
        if unique_ids(a) {
            assert forall|i: int, j: int| 0 <= i < j < b.len() implies #[trigger] b[i].claim_id@
                != #[trigger] b[j].claim_id@ by {
                assert(a[i].claim_id@ == b[i].claim_id@ && a[j].claim_id@ == b[j].claim_id@);
            }
        }
    }
    assert(unique_ids(b) ==> unique_ids(a)) by {
        if unique_ids(b) {
            assert forall|i: int, j: int| 0 <= i < j < a.len() implies #[trigger] a[i].claim_id@
                != #[trigger] a[j].claim_id@ by {
                assert(a[i].claim_id@ == b[i].claim_id@ && a[j].claim_id@ == b[j].claim_id@);
            }
        }
    }
}

} // verus!
