//! The execution registry: a counter of execution identifiers and the
//! batches staged under them, with the notifications of every transition.
use crate::codec::{decode_batch, decode_spec};
use crate::types::{batch_model, Config, Error, Event, ExecutionId, SideEffect, SideEffectModel};
use vstd::prelude::*;

verus! {

/// Mathematical state of the registry.
pub struct PalletModel {
    /// The identifier that the next staged batch receives.
    pub counter: nat,
    /// The staged batches, by identifier.
    pub pending: Map<ExecutionId, Seq<SideEffectModel>>,
    /// Every notification, oldest first.
    pub events: Seq<Event>,
}

/// The registry of staged batches.
///
/// Batches live in a table indexed by their identifier: slot `k` holds the
/// batch staged under `k` until it is committed or reverted.
pub struct Pallet {
    config: Config,
    counter: ExecutionId,
    slots: Vec<Option<Vec<SideEffect>>>,
    events: Vec<Event>,
}

/// The registry as it starts: no identifier used, nothing pending.
pub open spec fn fresh_model() -> PalletModel {
    PalletModel { counter: 0, pending: Map::empty(), events: seq![] }
}

/// Staging `bytes`: the new state and the identifier or error returned.
pub open spec fn stage_spec(cfg: Config, s: PalletModel, bytes: Seq<u8>) -> (
    PalletModel,
    Result<ExecutionId, Error>,
) {
    match decode_spec(cfg, bytes) {
        Err(e) => (s, Err(e)),
        Ok(batch) => if s.counter >= u32::MAX {
            (s, Err(Error::Overflow))
        } else {
            let id = s.counter as ExecutionId;
            (
                PalletModel {
                    counter: s.counter + 1,
                    pending: s.pending.insert(id, batch),
                    events: s.events.push(Event::SideEffectsPending { execution_id: id }),
                },
                Ok(id),
            )
        },
    }
}

/// Staging each of `inputs` in turn from `s`: the final state and every result.
pub open spec fn stage_all(cfg: Config, s: PalletModel, inputs: Seq<Seq<u8>>) -> (
    PalletModel,
    Seq<Result<ExecutionId, Error>>,
)
    decreases inputs.len(),
{
    if inputs.len() == 0 {
        (s, seq![])
    } else {
        let (t, rs) = stage_all(cfg, s, inputs.drop_last());
        let (u, r) = stage_spec(cfg, t, inputs.last());
        (u, rs.push(r))
    }
}

/// Reverting `id`: its batch, if any, is discarded and a notification recorded.
pub open spec fn revert_spec(s: PalletModel, id: ExecutionId) -> PalletModel {
    PalletModel {
        counter: s.counter,
        pending: s.pending.remove(id),
        events: s.events.push(Event::SideEffectsReverted { execution_id: id }),
    }
}

/// The notification that closes the execution of `id` with `outcome`.
pub open spec fn outcome_event(id: ExecutionId, outcome: Result<(), u32>) -> Event {
    match outcome {
        Ok(_) => Event::SideEffectsCommitted { execution_id: id },
        Err(index) => Event::SideEffectFailed { execution_id: id, index },
    }
}

/// Recording the executor's `outcome` for `id`: a pending batch is consumed
/// either way; an identifier with nothing pending is left alone.
pub open spec fn execute_spec(s: PalletModel, id: ExecutionId, outcome: Result<(), u32>) -> PalletModel {
    if s.pending.contains_key(id) {
        PalletModel {
            counter: s.counter,
            pending: s.pending.remove(id),
            events: s.events.push(outcome_event(id, outcome)),
        }
    } else {
        s
    }
}

/// Every pending identifier was handed out before.
pub open spec fn model_wf(s: PalletModel) -> bool {
    &&& s.counter <= u32::MAX
    &&& forall|k: ExecutionId| #[trigger] s.pending.contains_key(k) ==> k < s.counter
}

/// The three transitions of staged batches: stage, commit and revert.
pub trait UpdateSideEffects: Sized {
    /// The state is well formed.
    spec fn inv(&self) -> bool;

    /// The bounds that staged batches respect.
    spec fn bounds(&self) -> Config;

    /// The mathematical state.
    spec fn model(&self) -> PalletModel;

    /// Decodes `encoded_value` and stages the batch under the next identifier,
    /// which it returns; records `SideEffectsPending` for it.
    ///
    /// Fails, changing nothing, where decoding fails or where the identifiers
    /// are exhausted (`Overflow`).
    fn add_pending_side_effects(&mut self, encoded_value: Vec<u8>) -> (r: Result<ExecutionId, Error>)
        requires
            old(self).inv(),
        ensures
            final(self).inv(),
            final(self).bounds() == old(self).bounds(),
            (final(self).model(), r) == stage_spec(old(self).bounds(), old(self).model(), encoded_value@),
            model_wf(final(self).model()),
    ;

    /// Records what the executor reported for the batch under `execution_id`:
    /// `Ok(())` where every side effect took effect, `Err(index)` where the
    /// side effect at `index` failed and the whole batch was rolled back.
    /// The batch leaves the registry either way, with `SideEffectsCommitted`
    /// or `SideEffectFailed`. Returns whether a batch was pending; where none
    /// was, nothing changes.
    fn execute_side_effects(&mut self, execution_id: ExecutionId, outcome: Result<(), u32>) -> (r: bool)
        requires
            old(self).inv(),
        ensures
            final(self).inv(),
            final(self).bounds() == old(self).bounds(),
            r == old(self).model().pending.contains_key(execution_id),
            final(self).model() == execute_spec(old(self).model(), execution_id, outcome),
            model_wf(final(self).model()),
    ;

    /// Discards the batch under `execution_id` without executing it, and
    /// records `SideEffectsReverted`; an identifier with nothing pending is
    /// no error.
    fn revert_side_effects(&mut self, execution_id: ExecutionId)
        requires
            old(self).inv(),
        ensures
            final(self).inv(),
            final(self).bounds() == old(self).bounds(),
            final(self).model() == revert_spec(old(self).model(), execution_id),
            model_wf(final(self).model()),
    ;
}

impl View for Pallet {
    type V = PalletModel;

    closed spec fn view(&self) -> PalletModel {
        PalletModel {
            counter: self.counter as nat,
            pending: Map::new(
                |k: ExecutionId| k < self.slots.len() && self.slots@[k as int] is Some,
                |k: ExecutionId| batch_model(self.slots@[k as int]->0@),
            ),
            events: self.events@,
        }
    }
}

impl Pallet {
    /// The table has one slot per identifier handed out.
    pub closed spec fn wf(&self) -> bool {
        self.slots.len() == self.counter
    }

    pub closed spec fn spec_config(&self) -> Config {
        self.config
    }

    /// A registry with the bounds `config`, no identifier used and nothing pending.
    pub fn new(config: Config) -> (r: Pallet)
        ensures
            r.wf(),
            r.spec_config() == config,
            r@ == fresh_model(),
            model_wf(r@),
    {
        let r = Pallet { config, counter: 0, slots: Vec::new(), events: Vec::new() };
        assert(r@.pending =~= Map::<ExecutionId, Seq<SideEffectModel>>::empty());
        assert(r@.events =~= Seq::<Event>::empty());
        r
    }

    /// The bounds of this registry.
    pub fn config(&self) -> (r: Config)
        ensures
            r == self.spec_config(),
    {
        self.config
    }

    /// Decodes `encoded_value` into a non-empty batch within this registry's bounds.
    pub fn decode_to_side_effects(&self, encoded_value: Vec<u8>) -> (r: Result<Vec<SideEffect>, Error>)
        ensures
            r is Ok <==> decode_spec(self.spec_config(), encoded_value@) is Ok,
            r matches Ok(v) ==> decode_spec(self.spec_config(), encoded_value@) == Ok::<
                Seq<SideEffectModel>,
                Error,
            >(batch_model(v@)),
            r matches Err(e) ==> decode_spec(self.spec_config(), encoded_value@) == Err::<
                Seq<SideEffectModel>,
                Error,
            >(e),
    {
        decode_batch(self.config, &encoded_value)
    }

    /// The identifier that the next staged batch receives.
    pub fn execution_counter(&self) -> (r: ExecutionId)
        ensures
            r as nat == self@.counter,
    {
        self.counter
    }

    /// The batch pending under `execution_id`, for the executor to apply.
    pub fn pending_side_effects(&self, execution_id: ExecutionId) -> (r: Option<&Vec<SideEffect>>)
        requires
            self.wf(),
        ensures
            r is Some <==> self@.pending.contains_key(execution_id),
            r matches Some(v) ==> batch_model(v@) == self@.pending[execution_id],
    {
        let i = execution_id as usize;
        if i >= self.slots.len() {
            return None;
        }
        match &self.slots[i] {
            Some(v) => Some(v),
            None => None,
        }
    }

    /// Every notification recorded, oldest first.
    pub fn events(&self) -> (r: &Vec<Event>)
        ensures
            r@ == self@.events,
    {
        &self.events
    }

    /// The latest notification, if any.
    pub fn last_event(&self) -> (r: Option<Event>)
        ensures
            self@.events.len() == 0 ==> r is None,
            self@.events.len() > 0 ==> r == Some(self@.events.last()),
    {
        if self.events.len() == 0 {
            None
        } else {
            Some(self.events[self.events.len() - 1])
        }
    }
}

impl UpdateSideEffects for Pallet {
    open spec fn inv(&self) -> bool {
        self.wf()
    }

    open spec fn bounds(&self) -> Config {
        self.spec_config()
    }

    open spec fn model(&self) -> PalletModel {
        self@
    }

    fn add_pending_side_effects(&mut self, encoded_value: Vec<u8>) -> (r: Result<ExecutionId, Error>) {
        let side_effects = match self.decode_to_side_effects(encoded_value) {
            Ok(v) => v,
            Err(e) => return Err(e),
        };
        let execution_id = self.counter;
        if execution_id == u32::MAX {
            return Err(Error::Overflow);
        }
        let ghost before = self@;
        let ghost batch = batch_model(side_effects@);
        self.counter = execution_id + 1;
        self.slots.push(Some(side_effects));
        self.events.push(Event::SideEffectsPending { execution_id });
        assert(self@.pending =~= before.pending.insert(execution_id, batch));
        Ok(execution_id)
    }

    fn revert_side_effects(&mut self, execution_id: ExecutionId) {
        let ghost before = self@;
        if (execution_id as usize) < self.slots.len() {
            self.slots.set(execution_id as usize, None);
        }
        self.events.push(Event::SideEffectsReverted { execution_id });
        assert(self@.pending =~= before.pending.remove(execution_id));
    }

    fn execute_side_effects(&mut self, execution_id: ExecutionId, outcome: Result<(), u32>) -> (r: bool) {
        let ghost before = self@;
        let i = execution_id as usize;
        if i >= self.slots.len() || self.slots[i].is_none() {
            return false;
        }
        self.slots.set(i, None);
        let event = match outcome {
            Ok(()) => Event::SideEffectsCommitted { execution_id },
            Err(index) => Event::SideEffectFailed { execution_id, index },
        };
        self.events.push(event);
        assert(self@.pending =~= before.pending.remove(execution_id));
        true
    }
}

/// A registry with the bounds used by the test suite: five arguments of at
/// most 32 bytes per side effect, five side effects per batch.
pub fn new_test_ext() -> (r: Pallet)
    ensures
        r.wf(),
        r@ == fresh_model(),
        model_wf(r@),
        r.spec_config() == (Config { max_args: 5, max_bytes_per_arg: 32, max_side_effects: 5 }),
{
    Pallet::new(Config { max_args: 5, max_bytes_per_arg: 32, max_side_effects: 5 })
}

/// The outcome of executing a batch whose side effects succeeded where
/// `results` holds `true`: `Err` with the first failing index, else `Ok`.
pub fn batch_outcome(results: &Vec<bool>) -> (r: Result<(), u32>)
    requires
        results.len() <= u32::MAX,
    ensures
        r is Ok <==> forall|j: int| 0 <= j < results.len() ==> results@[j],
        r matches Err(i) ==> i < results.len() && !results@[i as int] && forall|j: int|
            0 <= j < i ==> results@[j],
{
    let mut i: usize = 0;
    while i < results.len()
        invariant
            i <= results.len() <= u32::MAX,
            forall|j: int| 0 <= j < i ==> results@[j],
        decreases results.len() - i,
    {
        if !results[i] {
            return Err(i as u32);
        }
        i = i + 1;
    }
    Ok(())
}

/// Successful stagings hand out consecutive identifiers: the first is the
/// counter (zero on a fresh registry), the next one more, and the counter
/// moves by exactly one per success and not at all on a failure.
pub proof fn lemma_identifier_monotonic(cfg: Config, s: PalletModel, b1: Seq<u8>, b2: Seq<u8>)
    requires
        model_wf(s),
    ensures
        ({
            let (s1, r1) = stage_spec(cfg, s, b1);
            let (s2, r2) = stage_spec(cfg, s1, b2);
            &&& r1 is Ok ==> r1 == Ok::<ExecutionId, Error>(s.counter as ExecutionId)
            &&& s == fresh_model() && r1 is Ok ==> r1 == Ok::<ExecutionId, Error>(0)
            &&& r1 is Ok ==> s1.counter == s.counter + 1
            &&& r1 is Err ==> s1 == s
            &&& r1 is Ok && r2 is Ok ==> r2->Ok_0 == r1->Ok_0 + 1
            &&& model_wf(s1)
        }),
{
}

/// Reverting is idempotent: a second revert of the same identifier leaves
/// the counter and the pending batches as the first left them, and reverting
/// an identifier with nothing pending changes neither. Each call still
/// records its notification.
pub proof fn lemma_revert_idempotent(s: PalletModel, id: ExecutionId)
    ensures
        revert_spec(revert_spec(s, id), id).pending == revert_spec(s, id).pending,
        revert_spec(revert_spec(s, id), id).counter == revert_spec(s, id).counter,
        !s.pending.contains_key(id) ==> revert_spec(s, id).pending == s.pending,
        revert_spec(s, id).counter == s.counter,
{
    assert(revert_spec(revert_spec(s, id), id).pending =~= revert_spec(s, id).pending);
    if !s.pending.contains_key(id) {
        assert(revert_spec(s, id).pending =~= s.pending);
    }
}

/// A batch whose execution failed at `index` leaves the registry with the
/// single notification `SideEffectFailed` for that index and no
/// `SideEffectsCommitted`; the batch is gone and every other batch stays.
pub proof fn lemma_failed_execution(s: PalletModel, id: ExecutionId, index: u32)
    requires
        s.pending.contains_key(id),
    ensures
        ({
            let t = execute_spec(s, id, Err(index));
            &&& t.events == s.events.push(Event::SideEffectFailed { execution_id: id, index })
            &&& !t.pending.contains_key(id)
            &&& forall|k: ExecutionId| k != id ==> t.pending.contains_key(k) == s.pending.contains_key(k)
                && (s.pending.contains_key(k) ==> #[trigger] t.pending[k] == s.pending[k])
            &&& t.counter == s.counter
        }),
{
}

/// Batches are independent: reverting `a` keeps the batch under any other
/// identifier `b`, if one is pending, exactly as it was.
pub proof fn lemma_revert_keeps_others(s: PalletModel, a: ExecutionId, b: ExecutionId)
    requires
        a != b,
    ensures
        revert_spec(s, a).pending.contains_key(b) == s.pending.contains_key(b),
        s.pending.contains_key(b) ==> revert_spec(s, a).pending[b] == s.pending[b],
{
}

/// On a fresh registry, staging payloads that all decode hands out the
/// identifiers 0, 1, 2, ... in order, with no gap, as long as identifiers last.
pub proof fn lemma_identifiers_from_zero(cfg: Config, inputs: Seq<Seq<u8>>)
    requires
        inputs.len() <= u32::MAX,
        forall|i: int| 0 <= i < inputs.len() ==> #[trigger] decode_spec(cfg, inputs[i]) is Ok,
    ensures
        ({
            let (t, rs) = stage_all(cfg, fresh_model(), inputs);
            &&& rs.len() == inputs.len()
            &&& forall|i: int|
                0 <= i < rs.len() ==> #[trigger] rs[i] == Ok::<ExecutionId, Error>(i as ExecutionId)
            &&& t.counter == inputs.len()
        }),
    decreases inputs.len(),
{
    if inputs.len() > 0 {
        let init = inputs.drop_last();
        assert forall|i: int| 0 <= i < init.len() implies #[trigger] decode_spec(cfg, init[i]) is Ok by {
            assert(init[i] == inputs[i]);
        }
        assert(decode_spec(cfg, inputs[inputs.len() - 1]) is Ok);
        lemma_identifiers_from_zero(cfg, init);
    }
}

} // verus!
