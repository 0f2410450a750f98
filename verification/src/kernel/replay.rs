//! The replay engine: applies events one after another from the genesis
//! state and keeps the receipts.
use vstd::prelude::*;
use crate::kernel::event::{event_hash_spec, EventEnvelope};
use crate::kernel::state::State;
use crate::kernel::transition::{arr32, dispatch_event, lemma_arr32, receipt_spec, ExecutionContext};
use crate::kernel::types::{
    genesis, KernelVersion, RulesetVersion, StateHash, TransitionError, TransitionReceipt,
    GENESIS_STATE,
};

verus! {

/// Replaying `events` on a state with `version` applied transitions and
/// hash `hash`: the receipts of every step, or the first refusal.
pub open spec fn replay_steps(
    events: Seq<EventEnvelope>,
    kv: KernelVersion,
    version: nat,
    hash: Seq<u8>,
) -> Result<Seq<TransitionReceipt>, TransitionError>
    decreases events.len(),
{
    if events.len() == 0 {
        Ok(Seq::empty())
    } else if events[0].parent_state_hash@ != hash {
        Err(TransitionError::InvalidParent)
    } else {
        let rc = receipt_spec(version as u64, hash, events[0], kv);
        match replay_steps(events.drop_first(), kv, version + 1, rc.child_state_hash@) {
            Ok(rest) => Ok(seq![rc] + rest),
            Err(e) => Err(e),
        }
    }
}

/// Replaying `events` from the genesis state under kernel version `kv`.
pub open spec fn replay_spec(events: Seq<EventEnvelope>, kv: KernelVersion) -> Result<
    Seq<TransitionReceipt>,
    TransitionError,
> {
    replay_steps(events, kv, 0, genesis())
}

/// `rs` followed by the outcome `res`.
pub open spec fn prepend(rs: Seq<TransitionReceipt>, res: Result<Seq<TransitionReceipt>, TransitionError>) -> Result<
    Seq<TransitionReceipt>,
    TransitionError,
> {
    match res {
        Ok(rest) => Ok(rs + rest),
        Err(e) => Err(e),
    }
}

/// One `apply` on an engine with receipts `rs` and current hash `hash`:
/// the refusal, or the receipts and hash afterwards.
pub open spec fn apply_step(
    rs: Seq<TransitionReceipt>,
    hash: Seq<u8>,
    event: EventEnvelope,
    kv: KernelVersion,
) -> Result<(Seq<TransitionReceipt>, Seq<u8>), TransitionError> {
    if event.parent_state_hash@ != hash {
        Err(TransitionError::InvalidParent)
    } else {
        let rc = receipt_spec(rs.len() as u64, hash, event, kv);
        Ok((rs.push(rc), rc.child_state_hash@))
    }
}

/// `apply` called on each event of `events` in turn, stopping at the
/// first refusal.
pub open spec fn apply_all(
    rs: Seq<TransitionReceipt>,
    hash: Seq<u8>,
    events: Seq<EventEnvelope>,
    kv: KernelVersion,
) -> Result<(Seq<TransitionReceipt>, Seq<u8>), TransitionError>
    decreases events.len(),
{
    if events.len() == 0 {
        Ok((rs, hash))
    } else {
        match apply_step(rs, hash, events[0], kv) {
            Ok(next) => apply_all(next.0, next.1, events.drop_first(), kv),
            Err(e) => Err(e),
        }
    }
}

/// The receipts of an outcome of `apply_all`.
pub open spec fn receipts_of(
    res: Result<(Seq<TransitionReceipt>, Seq<u8>), TransitionError>,
) -> Result<Seq<TransitionReceipt>, TransitionError> {
    match res {
        Ok(p) => Ok(p.0),
        Err(e) => Err(e),
    }
}

proof fn lemma_steps_are_applies(
    rs: Seq<TransitionReceipt>,
    hash: Seq<u8>,
    events: Seq<EventEnvelope>,
    kv: KernelVersion,
)
    ensures
        prepend(rs, replay_steps(events, kv, rs.len(), hash)) == receipts_of(
            apply_all(rs, hash, events, kv),
        ),
    decreases events.len(),
{
    if events.len() > 0 && events[0].parent_state_hash@ == hash {
        let rc = receipt_spec(rs.len() as u64, hash, events[0], kv);
        lemma_steps_are_applies(rs.push(rc), rc.child_state_hash@, events.drop_first(), kv);
        assert(rs.push(rc).len() == rs.len() + 1);
        match replay_steps(events.drop_first(), kv, rs.len() + 1, rc.child_state_hash@) {
            Ok(t) => {
                assert(rs + (seq![rc] + t) =~= rs.push(rc) + t);
            },
            Err(_) => {},
        }
    } else if events.len() == 0 {
        assert(rs + Seq::<TransitionReceipt>::empty() =~= rs);
    }
}

/// Replay is a sequence of `apply` calls: replaying `events` under `kv`
/// gives the same outcome as applying them one by one to a fresh engine
/// (empty receipts, genesis hash), stopping at the first refusal; on
/// success the receipts are those the engine holds at the end.
pub proof fn lemma_replay_is_applies(events: Seq<EventEnvelope>, kv: KernelVersion)
    ensures
        replay_spec(events, kv) == receipts_of(apply_all(Seq::empty(), genesis(), events, kv)),
{
    lemma_steps_are_applies(Seq::empty(), genesis(), events, kv);
    match replay_spec(events, kv) {
        Ok(v) => {
            assert(Seq::<TransitionReceipt>::empty() + v =~= v);
        },
        Err(_) => {},
    }
}

/// Applying events one by one adds one receipt per event.
pub proof fn lemma_apply_all_len(
    rs: Seq<TransitionReceipt>,
    hash: Seq<u8>,
    events: Seq<EventEnvelope>,
    kv: KernelVersion,
)
    ensures
        apply_all(rs, hash, events, kv) matches Ok(p) ==> p.0.len() == rs.len() + events.len(),
    decreases events.len(),
{
    if events.len() > 0 {
        if let Ok(next) = apply_step(rs, hash, events[0], kv) {
            lemma_apply_all_len(next.0, next.1, events.drop_first(), kv);
        }
    }
}

pub proof fn lemma_genesis_state()
    ensures
        GENESIS_STATE@ == genesis(),
{
    assert(GENESIS_STATE@ =~= genesis());
}

/// Receipts of a successful replay from any starting point form a chain:
/// one receipt per event, the first extends the starting hash, each next
/// one extends the previous child, and all carry the kernel version and
/// the hash of their event.
pub proof fn lemma_replay_steps_chain(
    events: Seq<EventEnvelope>,
    kv: KernelVersion,
    version: nat,
    hash: Seq<u8>,
)
    requires
        replay_steps(events, kv, version, hash) is Ok,
    ensures
        ({
            let rs = replay_steps(events, kv, version, hash)->Ok_0;
            &&& rs.len() == events.len()
            &&& rs.len() > 0 ==> rs[0].parent_state_hash == arr32(hash)
            &&& forall|i: int|
                0 <= i < rs.len() - 1 ==> #[trigger] rs[i + 1].parent_state_hash
                    == rs[i].child_state_hash
            &&& forall|i: int|
                0 <= i < rs.len() ==> #[trigger] rs[i].kernel_version == kv
                    && rs[i].event_hash == arr32(event_hash_spec(events[i]))
        }),
    decreases events.len(),
{
    if events.len() > 0 {
        let rc = receipt_spec(version as u64, hash, events[0], kv);
        lemma_replay_steps_chain(events.drop_first(), kv, version + 1, rc.child_state_hash@);
        let rest = replay_steps(events.drop_first(), kv, version + 1, rc.child_state_hash@)->Ok_0;
        let rs = seq![rc] + rest;
        assert(replay_steps(events, kv, version, hash)->Ok_0 == rs);
        lemma_arr32(rc.child_state_hash);
        assert forall|i: int| 0 <= i < rs.len() - 1 implies #[trigger] rs[i + 1].parent_state_hash
            == rs[i].child_state_hash by {
            if i > 0 {
                assert(rs[i] == rest[i - 1] && rs[i + 1] == rest[i]);
                let j = i - 1;
                assert(rest[j + 1].parent_state_hash == rest[j].child_state_hash);
            } else {
                assert(rs[1] == rest[0]);
            }
        }
        assert forall|i: int| 0 <= i < rs.len() implies #[trigger] rs[i].kernel_version == kv
            && rs[i].event_hash == arr32(event_hash_spec(events[i])) by {
            if i > 0 {
                assert(rs[i] == rest[i - 1]);
                assert(events.drop_first()[i - 1] == events[i]);
            }
        }
    }
}

/// A successful replay from genesis yields a receipt chain rooted at the
/// genesis state: one receipt per event, the first receipt's parent is
/// the genesis hash, every later receipt's parent is the previous
/// receipt's child, and every receipt carries the replay's kernel version.
pub proof fn lemma_replay_forms_chain(events: Seq<EventEnvelope>, kv: KernelVersion)
    requires
        replay_spec(events, kv) is Ok,
    ensures
        ({
            let rs = replay_spec(events, kv)->Ok_0;
            &&& rs.len() == events.len()
            &&& rs.len() > 0 ==> rs[0].parent_state_hash == GENESIS_STATE
            &&& forall|i: int|
                0 <= i < rs.len() - 1 ==> #[trigger] rs[i + 1].parent_state_hash
                    == rs[i].child_state_hash
            &&& forall|i: int| 0 <= i < rs.len() ==> #[trigger] rs[i].kernel_version == kv
        }),
{
    lemma_replay_steps_chain(events, kv, 0, genesis());
    lemma_genesis_state();
    lemma_arr32(GENESIS_STATE);
    let rs = replay_spec(events, kv)->Ok_0;
    assert forall|i: int| 0 <= i < rs.len() implies #[trigger] rs[i].kernel_version == kv by {}
}

/// A replay whose first event does not extend the genesis state is refused.
pub proof fn lemma_replay_rejects_foreign_start(events: Seq<EventEnvelope>, kv: KernelVersion)
    requires
        events.len() > 0,
        events[0].parent_state_hash@ != genesis(),
    ensures
        replay_spec(events, kv) == Err::<Seq<TransitionReceipt>, TransitionError>(
            TransitionError::InvalidParent,
        ),
{
}

/// The state of a replay: the current state, its hash, the execution
/// context and the receipts so far.
pub struct ReplayEngine {
    state: State,
    state_hash: StateHash,
    context: ExecutionContext,
    receipts: Vec<TransitionReceipt>,
}

impl ReplayEngine {
    /// The engine is consistent: as many transitions as receipts, and the
    /// current hash is the last child hash (genesis before any).
    pub closed spec fn wf(&self) -> bool {
        &&& self.state.wf()
        &&& self.state.version == self.receipts@.len()
        &&& self.context.logical_time == self.receipts@.len()
        &&& self.state_hash@ == (if self.receipts@.len() == 0 {
            genesis()
        } else {
            self.receipts@.last().child_state_hash@
        })
        &&& self.receipts@.len() > 0 ==> self.receipts@[0].parent_state_hash == GENESIS_STATE
        &&& forall|i: int|
            0 <= i < self.receipts@.len() - 1 ==> #[trigger] self.receipts@[i
                + 1].parent_state_hash == self.receipts@[i].child_state_hash
    }

    /// Replay is `apply` called on each event in turn on a fresh engine: for
    /// an engine as `new(v)` returns it (well formed, no receipts, kernel
    /// version `v`), `replay(events, v)` succeeds exactly when applying
    /// `events` to it one by one never fails, and then returns the receipts
    /// the engine holds at the end, one per event; otherwise it returns the
    /// refusal of the first failing `apply`.
    pub proof fn lemma_replay_from_fresh_engine(&self, events: Seq<EventEnvelope>, v: KernelVersion)
        requires
            self.wf(),
            self.receipts_view().len() == 0,
            self.kernel_version() == v,
        ensures
            replay_spec(events, v) == receipts_of(
                apply_all(self.receipts_view(), self.hash_view(), events, self.kernel_version()),
            ),
            apply_all(self.receipts_view(), self.hash_view(), events, self.kernel_version()) matches Ok(
                p,
            ) ==> p.0.len() == events.len(),
    {
        assert(self.receipts_view() =~= Seq::<TransitionReceipt>::empty());
        lemma_replay_is_applies(events, v);
        lemma_apply_all_len(self.receipts_view(), self.hash_view(), events, v);
    }

    /// The hash chain of an engine: its current hash is the genesis hash
    /// before any transition and the last receipt's child hash after; the
    /// first receipt extends the genesis state and each later receipt
    /// extends the child of the one before.
    pub proof fn lemma_hash_chain(&self)
        requires
            self.wf(),
        ensures
            self.hash_view() == (if self.receipts_view().len() == 0 {
                GENESIS_STATE@
            } else {
                self.receipts_view().last().child_state_hash@
            }),
            self.receipts_view().len() > 0 ==> self.receipts_view()[0].parent_state_hash
                == GENESIS_STATE,
            forall|i: int|
                0 <= i < self.receipts_view().len() - 1 ==> #[trigger] self.receipts_view()[i
                    + 1].parent_state_hash == self.receipts_view()[i].child_state_hash,
    {
        lemma_genesis_state();
    }

    /// The current state hash.
    pub closed spec fn hash_view(&self) -> Seq<u8> {
        self.state_hash@
    }

    /// The kernel version the engine stamps on receipts.
    pub closed spec fn kernel_version(&self) -> KernelVersion {
        self.context.ruleset_version.0
    }

    /// The receipts of the transitions applied so far.
    pub closed spec fn receipts_view(&self) -> Seq<TransitionReceipt> {
        self.receipts@
    }

    /// A fresh engine at the genesis state.
    pub fn new(ruleset_version: KernelVersion) -> (e: Self)
        ensures
            e.wf(),
            e.hash_view() == genesis(),
            e.kernel_version() == ruleset_version,
            e.receipts_view().len() == 0,
    {
        proof {
            lemma_genesis_state();
        }
        ReplayEngine {
            state: State::default(),
            state_hash: GENESIS_STATE,
            context: ExecutionContext {
                ruleset_version: RulesetVersion(ruleset_version),
                logical_time: 0,
            },
            receipts: Vec::new(),
        }
    }

    /// Applies one event. An event whose parent is not the current state
    /// hash is refused and leaves the engine unchanged; otherwise the
    /// receipt is appended and returned, and its child hash becomes the
    /// current hash.
    pub fn apply(&mut self, event: &EventEnvelope) -> (r: Result<&TransitionReceipt, TransitionError>)
        requires
            old(self).wf(),
            old(self).receipts_view().len() < u64::MAX,
        ensures
            final(self).wf(),
            final(self).kernel_version() == old(self).kernel_version(),
            event.parent_state_hash@ != old(self).hash_view() <==> r is Err,
            r is Err ==> {
                &&& r matches Err(TransitionError::InvalidParent)
                &&& final(self).receipts_view() == old(self).receipts_view()
                &&& final(self).hash_view() == old(self).hash_view()
            },
            r matches Ok(rc) ==> {
                let expected = receipt_spec(
                    old(self).receipts_view().len() as u64,
                    old(self).hash_view(),
                    *event,
                    old(self).kernel_version(),
                );
                &&& *rc == expected
                &&& final(self).receipts_view() == old(self).receipts_view().push(expected)
                &&& final(self).hash_view() == expected.child_state_hash@
            },
            r is Ok ==> apply_step(
                old(self).receipts_view(),
                old(self).hash_view(),
                *event,
                old(self).kernel_version(),
            ) == Ok::<(Seq<TransitionReceipt>, Seq<u8>), TransitionError>(
                (final(self).receipts_view(), final(self).hash_view()),
            ),
            r matches Err(e) ==> apply_step(
                old(self).receipts_view(),
                old(self).hash_view(),
                *event,
                old(self).kernel_version(),
            ) == Err::<(Seq<TransitionReceipt>, Seq<u8>), TransitionError>(e),
    {
        let ghost old_h = self.state_hash;
        let ghost old_rs = self.receipts@;
        match dispatch_event(&self.state, self.state_hash, event, &self.context) {
            Err(e) => Err(e),
            Ok((new_state, receipt)) => {
                proof {
                    lemma_arr32(old_h);
                    lemma_genesis_state();
                    lemma_arr32(GENESIS_STATE);
                    if old_rs.len() > 0 {
                        lemma_arr32(old_rs.last().child_state_hash);
                    }
                    assert(receipt.parent_state_hash == old_h);
                }
                self.state = new_state;
                self.state_hash = receipt.child_state_hash;
                self.context.logical_time = self.context.logical_time + 1;
                self.receipts.push(receipt);
                let n = self.receipts.len();
                Ok(&self.receipts[n - 1])
            },
        }
    }

    /// Replays `events` from genesis under kernel version `ruleset_version`
    /// and returns every receipt, or the first refusal.
    pub fn replay(events: &[EventEnvelope], ruleset_version: KernelVersion) -> (r: Result<
        Vec<TransitionReceipt>,
        TransitionError,
    >)
        ensures
            match r {
                Ok(v) => replay_spec(events@, ruleset_version) == Ok::<
                    Seq<TransitionReceipt>,
                    TransitionError,
                >(v@),
                Err(e) => replay_spec(events@, ruleset_version) matches Err(
                    TransitionError::InvalidParent,
                ) && e matches TransitionError::InvalidParent,
            },
    {
        let mut engine = Self::new(ruleset_version);
        let mut i: usize = 0;
        proof {
            assert(events@.skip(0) =~= events@);
            match replay_spec(events@, ruleset_version) {
                Ok(v) => {
                    assert(Seq::<TransitionReceipt>::empty() + v =~= v);
                },
                Err(_) => {},
            }
        }
        while i < events.len()
            invariant
                i <= events@.len(),
                engine.wf(),
                engine.kernel_version() == ruleset_version,
                engine.receipts_view().len() == i,
                replay_spec(events@, ruleset_version) == prepend(
                    engine.receipts_view(),
                    replay_steps(events@.skip(i as int), ruleset_version, i as nat, engine.hash_view()),
                ),
            decreases events@.len() - i,
        {
            let ghost rs = engine.receipts_view();
            let ghost h = engine.hash_view();
            let ghost rest = events@.skip(i as int);
            proof {
                assert(rest[0] == events@[i as int]);
                assert(rest.drop_first() == events@.skip(i + 1));
            }
            match engine.apply(&events[i]) {
                Err(e) => {
                    return Err(e);
                },
                Ok(_) => {},
            }
            proof {
                let rc = receipt_spec(i as u64, h, events@[i as int], ruleset_version);
                let tail = replay_steps(events@.skip(i + 1), ruleset_version, (i + 1) as nat, rc.child_state_hash@);
                match tail {
                    Ok(t) => {
                        assert(rs + (seq![rc] + t) == rs.push(rc) + t);
                    },
                    Err(_) => {},
                }
            }
            i = i + 1;
        }
        proof {
            assert(events@.skip(i as int).len() == 0);
            assert(engine.receipts_view() + Seq::<TransitionReceipt>::empty() == engine.receipts_view());
        }
        Ok(engine.receipts)
    }

    /// The current state hash.
    pub fn current_hash(&self) -> (h: StateHash)
        ensures
            h@ == self.hash_view(),
    {
        self.state_hash
    }

    /// The receipts of the transitions applied so far.
    pub fn receipts(&self) -> (r: &[TransitionReceipt])
        ensures
            r@ == self.receipts_view(),
    {
        self.receipts.as_slice()
    }
}


} // verus!
