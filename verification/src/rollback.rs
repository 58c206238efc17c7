//! Rollback of operations.

use crate::cells::{lists, MAX_DESTROYED, MAX_STATE};
use crate::chain::{law_chain_is_unique, walk};
use crate::forward::copy_opids;
use crate::ledger::{descendant_links, has_descendants, Ledger};
use crate::processed::{Conversion, StateAtom};
use crate::raw::{lemma_listed, Transition, TransitionView};
use crate::reader::{restorations_by, usable, ApiReader};
use crate::state::{given_restorations, Restorations, Semantics};
use crate::stock::{
    commit_answer, committed, refreshed, roll_back_answer, Stock, StockSession, StockView,
};
use crate::types::{CellAddr, Opid, StateCell};
use strict_types::StrictVal;
use ultrasonic::StateData;
use ultrasonic::StateValue;
use vstd::prelude::*;

verus! {

/// The destroyed cells whose producers are valid.
pub open spec fn restorable(
    destroyed: Map<CellAddr, StateCell>,
    valid: Set<Opid>,
) -> Map<CellAddr, StateCell> {
    destroyed.restrict(Set::new(|addr: CellAddr| valid.contains(addr.opid)))
}

/// What is taken back when an operation is rolled back.
pub open spec fn taken_back(model: StockView, opid: Opid) -> TransitionView {
    TransitionView {
        opid: model.trace[opid].opid,
        destroyed: restorable(model.trace[opid].destroyed, model.valid),
    }
}

/// The data after one operation was rolled back, with the restored cells read by the reader.
pub open spec fn undone<
    G: Fn(usize, &StateData) -> Conversion<StateAtom>,
    O: Fn(usize, StateValue) -> Conversion<StrictVal>,
>(before: StockView, after: StockView, opid: Opid, reader: ApiReader<G, O>) -> bool {
    exists|destroyed: Seq<(CellAddr, StateCell)>, readings: Option<Restorations>|
        {
            &&& lists(destroyed, taken_back(before, opid).destroyed)
            &&& #[trigger] restorations_by(reader, before.articles.semantics, destroyed, readings)
            &&& after == StockView {
                valid: before.valid.remove(opid),
                state: after.state,
                ..before
            }
            &&& refreshed(
                before.state.rolled_back(
                    taken_back(before, opid),
                    destroyed,
                    given_restorations(readings),
                ),
                after.state,
                readings is None,
            )
        }
}

/// The storage fails to take an operation back, the restored cells of which the reader has read.
pub open spec fn undo_failure<
    Z: StockSession,
    G: Fn(usize, &StateData) -> Conversion<StateAtom>,
    O: Fn(usize, StateValue) -> Conversion<StrictVal>,
>(
    before: StockView,
    opid: Opid,
    reader: ApiReader<G, O>,
    after: StockView,
    e: Z::Error,
) -> bool {
    exists|
        transition: Transition,
        destroyed: Seq<(CellAddr, StateCell)>,
        readings: Option<Restorations>,
    |
        {
            &&& transition@ == taken_back(before, opid)
            &&& lists(destroyed, transition@.destroyed)
            &&& #[trigger] restorations_by(reader, before.articles.semantics, destroyed, readings)
            &&& #[trigger] roll_back_answer::<Z>(before, transition, readings, Err(e))
            &&& Z::leaves(before, after, e)
        }
}

/// The storage fails to take one of the operations of a list back, or to persist that all of them
/// were.
pub open spec fn rollback_failure<
    Z: StockSession,
    G: Fn(usize, &StateData) -> Conversion<StateAtom>,
    O: Fn(usize, StateValue) -> Conversion<StrictVal>,
>(
    before: StockView,
    opids: Seq<Opid>,
    reader: ApiReader<G, O>,
    after: StockView,
    e: Z::Error,
) -> bool {
    ||| exists|n: int, mid: StockView|
        {
            &&& 0 <= n < opids.len()
            &&& #[trigger] undone_all(before, mid, opids.take(n), reader)
            &&& undo_failure::<Z, G, O>(mid, opids[n], reader, after, e)
        }
    ||| undone_all(before, after, opids, reader) && commit_answer::<Z>(after, Err(e))
}

/// The data after the operations of a list were rolled back, one by one.
pub open spec fn undone_all<
    G: Fn(usize, &StateData) -> Conversion<StateAtom>,
    O: Fn(usize, StateValue) -> Conversion<StrictVal>,
>(before: StockView, after: StockView, opids: Seq<Opid>, reader: ApiReader<G, O>) -> bool
    decreases opids.len(),
{
    if opids.len() == 0 {
        after == before
    } else {
        exists|mid: StockView|
            undone_all(before, mid, opids.drop_last(), reader) && #[trigger] undone(
                mid,
                after,
                opids.last(),
                reader,
            )
    }
}

/// Outcome of rolling operations back with all their descendants.
pub open spec fn rollback_outcome<
    S: Stock,
    G: Fn(usize, &StateData) -> Conversion<StateAtom>,
    O: Fn(usize, StateValue) -> Conversion<StrictVal>,
>(
    before: StockView,
    after: StockView,
    opids: Seq<Opid>,
    reader: ApiReader<G, O>,
    r: Result<(), S::Error>,
) -> bool {
    exists|chain: Seq<Opid>|
        {
            &&& #[trigger] walk(opids, descendant_links(before), chain)
            &&& match r {
                Ok(()) => undone_all(before, after, chain.reverse(), reader) && committed::<
                    S::Session,
                >(after),
                Err(e) => rollback_failure::<S::Session, G, O>(
                    before,
                    chain.reverse(),
                    reader,
                    after,
                    e,
                ),
            }
        }
}

/// The number of the cells which the operations of a list have destroyed.
pub open spec fn destroyed_count(model: StockView, opids: Seq<Opid>) -> nat
    decreases opids.len(),
{
    if opids.len() == 0 {
        0
    } else {
        destroyed_count(model, opids.drop_last()) + model.trace[opids.last()].destroyed.len()
    }
}

/// The transitions of the operations are there.
pub open spec fn all_traced(model: StockView, opids: Seq<Opid>) -> bool {
    forall|i: int| 0 <= i < opids.len() ==> model.trace.contains_key(#[trigger] opids[i])
}

/// The transitions of the operations and of all their descendants are there, and the state has place
/// for all the cells which they have destroyed.
pub open spec fn unwindable(model: StockView, opids: Seq<Opid>) -> bool {
    forall|chain: Seq<Opid>| #[trigger]
        walk(opids, descendant_links(model), chain) ==> {
            &&& all_traced(model, chain)
            &&& model.state.raw.owned.len() + destroyed_count(model, chain) <= MAX_STATE
        }
}

/// The state of each custom API is there.
pub open spec fn has_aux_states(model: StockView) -> bool {
    forall|k: int|
        0 <= k < model.articles.semantics.custom@.len() ==> model.state.aux.contains_key(
            (#[trigger] model.articles.semantics.custom@[k]).0@,
        )
}

/// Takes the cells, whose producers are not valid, out of a transition.
fn drop_orphans<S: StockSession>(session: &mut S, transition: &mut Transition)
    requires
        old(transition)@.well_formed(),
    ensures
        final(session).model() == old(session).model(),
        final(transition)@ == (TransitionView {
            opid: old(transition)@.opid,
            destroyed: restorable(old(transition)@.destroyed, old(session).model().valid),
        }),
{
    let ghost destroyed = transition@.destroyed;
    let ghost valid = session.model().valid;
    let inputs = transition.destroyed_cells();
    let mut i: usize = 0;
    proof {
        assert(left_over(destroyed, valid, inputs@, 0) =~= destroyed);
    }
    while i < inputs.len()
        invariant
            i <= inputs@.len(),
            session.model() == old(session).model(),
            valid == session.model().valid,
            transition.opid == old(transition).opid,
            transition@.destroyed == left_over(destroyed, valid, inputs@, i as int),
        decreases inputs@.len() - i,
    {
        let addr = inputs[i].0;
        let ghost before = transition@.destroyed;
        if !session.is_valid(addr.opid) {
            let _gone = transition.destroyed.remove(addr);
        }
        proof {
            let now = left_over(destroyed, valid, inputs@, i + 1);
            assert forall|a: CellAddr| is_dropped(valid, inputs@, i + 1, a) == (is_dropped(
                valid,
                inputs@,
                i as int,
                a,
            ) || (a == addr && !valid.contains(a.opid))) by {
                if is_dropped(valid, inputs@, i + 1, a) {
                    let k = choose|k: int| 0 <= k < i + 1 && (#[trigger] inputs@[k]).0 == a;
                    if k < i {
                        assert(inputs@[k].0 == a);
                    }
                }
                if is_dropped(valid, inputs@, i as int, a) {
                    let k = choose|k: int| 0 <= k < i && (#[trigger] inputs@[k]).0 == a;
                    assert(inputs@[k].0 == a);
                }
                assert(inputs@[i as int].0 == addr);
            }
            assert(transition@.destroyed =~= now);
        }
        i = i + 1;
    }
    proof {
        assert forall|a: CellAddr| #[trigger] destroyed.contains_key(a) implies is_dropped(
            valid,
            inputs@,
            inputs@.len() as int,
            a,
        ) == !valid.contains(a.opid) by {
            let k = choose|k: int| 0 <= k < inputs@.len() && (#[trigger] inputs@[k]).0 == a;
            assert(inputs@[k].0 == a);
        }
        assert(transition@.destroyed =~= restorable(destroyed, valid));
    }
}

/// The cell is among the first ones of a list, and its producer is not valid.
spec fn is_dropped(valid: Set<Opid>, inputs: Seq<(CellAddr, StateCell)>, n: int, addr: CellAddr) -> bool {
    !valid.contains(addr.opid) && exists|k: int| 0 <= k < n && (#[trigger] inputs[k]).0 == addr
}

/// The destroyed cells but for the dropped ones.
spec fn left_over(
    destroyed: Map<CellAddr, StateCell>,
    valid: Set<Opid>,
    inputs: Seq<(CellAddr, StateCell)>,
    n: int,
) -> Map<CellAddr, StateCell> {
    destroyed.remove_keys(Set::new(|addr: CellAddr| is_dropped(valid, inputs, n, addr)))
}

/// Some of the destroyed cells are not more than all of them.
proof fn lemma_restorable(destroyed: Map<CellAddr, StateCell>, valid: Set<Opid>)
    requires
        destroyed.dom().finite(),
    ensures
        restorable(destroyed, valid).dom().finite(),
        restorable(destroyed, valid).len() <= destroyed.len(),
{
    vstd::set_lib::lemma_len_subset(restorable(destroyed, valid).dom(), destroyed.dom());
}

/// The number of owned cells after a rollback is within limits.
proof fn lemma_owned_grows(owned: Map<CellAddr, StateCell>, transition: TransitionView)
    requires
        owned.dom().finite(),
        transition.destroyed.dom().finite(),
    ensures
        crate::cells::without_outputs(owned, transition.opid).dom().finite(),
        crate::cells::without_outputs(owned, transition.opid).len() <= owned.len(),
        crate::cells::without_outputs(owned, transition.opid).union_prefer_right(
            transition.destroyed,
        ).dom().finite(),
        crate::cells::without_outputs(owned, transition.opid).union_prefer_right(
            transition.destroyed,
        ).len() <= owned.len() + transition.destroyed.len(),
{
    let left = crate::cells::without_outputs(owned, transition.opid);
    vstd::set_lib::lemma_len_subset(left.dom(), owned.dom());
    let whole = left.union_prefer_right(transition.destroyed);
    assert(whole.dom() =~= left.dom().union(transition.destroyed.dom()));
    vstd::set_lib::lemma_len_union(left.dom(), transition.destroyed.dom());
}

/// The rollback of a state keeps the states of the custom APIs.
proof fn lemma_aux_stays(
    aux: Map<Seq<char>, crate::processed::ProcessedView>,
    custom: Seq<(Seq<char>, Seq<crate::processed::ConversionView<StrictVal>>)>,
    opid: Opid,
    destroyed: Seq<(CellAddr, StateCell)>,
)
    ensures
        forall|name: Seq<char>| #[trigger]
            aux.contains_key(name) ==> crate::state::aux_rolled_back(
                aux,
                custom,
                opid,
                destroyed,
            ).contains_key(name),
    decreases custom.len(),
{
    if custom.len() > 0 {
        lemma_aux_stays(aux, custom.drop_last(), opid, destroyed);
    }
}

/// A longer list destroys no fewer cells.
proof fn lemma_destroyed_step(model: StockView, opids: Seq<Opid>, i: int)
    requires
        0 <= i < opids.len(),
    ensures
        destroyed_count(model, opids.take(i + 1)) == destroyed_count(model, opids.take(i))
            + model.trace[opids[i]].destroyed.len(),
        destroyed_count(model, opids.take(i + 1)) <= destroyed_count(model, opids),
    decreases opids.len() - i,
{
    assert(opids.take(i + 1).drop_last() =~= opids.take(i));
    if i + 1 < opids.len() {
        lemma_destroyed_step(model, opids, i + 1);
    } else {
        assert(opids.take(i + 1) =~= opids);
    }
}

/// The number of the destroyed cells does not depend on the order.
proof fn lemma_destroyed_reverse(model: StockView, opids: Seq<Opid>)
    ensures
        destroyed_count(model, opids.reverse()) == destroyed_count(model, opids),
    decreases opids.len(),
{
    if opids.len() > 0 {
        let less = opids.drop_last();
        lemma_destroyed_reverse(model, less);
        lemma_destroyed_front(model, opids.last(), less.reverse());
        assert(opids.reverse() =~= seq![opids.last()] + less.reverse());
    }
}

/// An operation in front of a list adds the cells it has destroyed.
proof fn lemma_destroyed_front(model: StockView, opid: Opid, opids: Seq<Opid>)
    ensures
        destroyed_count(model, seq![opid] + opids) == model.trace[opid].destroyed.len()
            + destroyed_count(model, opids),
    decreases opids.len(),
{
    let whole = seq![opid] + opids;
    if opids.len() == 0 {
        assert(whole.drop_last() =~= Seq::empty());
        assert(whole.last() == opid);
        assert(destroyed_count(model, whole.drop_last()) == 0);
    } else {
        lemma_destroyed_front(model, opid, opids.drop_last());
        assert(whole.drop_last() =~= seq![opid] + opids.drop_last());
        assert(whole.last() == opids.last());
    }
}

/// The restored cells are read by the custom APIs of the contract, in their order.
proof fn lemma_restored_names<
    G: Fn(usize, &StateData) -> Conversion<StateAtom>,
    O: Fn(usize, StateValue) -> Conversion<StrictVal>,
>(
    reader: ApiReader<G, O>,
    semantics: Semantics,
    cells: Seq<(CellAddr, StateCell)>,
    readings: Option<Restorations>,
)
    requires
        restorations_by(reader, semantics, cells, readings),
    ensures
        readings matches Some(readings) ==> {
            &&& readings@.custom.len() == semantics.custom@.len()
            &&& forall|k: int|
                0 <= k < readings@.custom.len() ==> (#[trigger] readings@.custom[k]).0
                    == semantics.custom@[k].0@
        },
{
    if let Some(readings) = readings {
        assert forall|k: int| 0 <= k < readings@.custom.len() implies (
        #[trigger] readings@.custom[k]).0 == semantics.custom@[k].0@ by {
            assert(readings@.custom[k].0 == readings.custom@[k].0@);
        }
    }
}

impl<S: Stock> Ledger<S> {
    /// Rolls one operation back.
    fn undo<
        G: Fn(usize, &StateData) -> Conversion<StateAtom>,
        O: Fn(usize, StateValue) -> Conversion<StrictVal>,
    >(&mut self, opid: Opid, reader: &ApiReader<G, O>) -> (r: Result<(), S::Error>)
        requires
            old(self).model().trace.contains_key(opid),
            old(self).model().state.raw.owned.dom().finite(),
            old(self).model().state.raw.owned.len() + old(self).model().trace[opid].destroyed.len()
                <= MAX_STATE,
            reader.defer || has_aux_states(old(self).model()),
            usable(*reader),
        ensures
            final(self).id() == old(self).id(),
            final(self).configuration() == old(self).configuration(),
            r is Ok ==> {
                &&& undone(old(self).model(), final(self).model(), opid, *reader)
                &&& final(self).model().state.raw.owned.dom().finite()
                &&& final(self).model().state.raw.owned.len() <= old(
                    self,
                ).model().state.raw.owned.len() + old(self).model().trace[opid].destroyed.len()
                &&& reader.defer || has_aux_states(final(self).model())
            },
            r matches Err(e) ==> undo_failure::<S::Session, G, O>(
                old(self).model(),
                opid,
                *reader,
                final(self).model(),
                e,
            ),
    {
        let ghost before = self.model();
        let mut transition = self.session().transition(opid);
        drop_orphans(self.session(), &mut transition);
        let destroyed = transition.destroyed_cells();
        let readings = reader.read_destroyed(&self.articles().semantics, &destroyed);
        let ghost given = given_restorations(readings);
        let ghost whole = readings;
        let ghost restored = transition@;
        proof {
            lemma_restorable(before.trace[opid].destroyed, before.valid);
            lemma_owned_grows(before.state.raw.owned, restored);
            lemma_listed(destroyed@, restored.destroyed);
            lemma_restored_names(*reader, before.articles.semantics, destroyed@, readings);
        }
        let ghost taken = transition;
        let s = self.session();
        match s.roll_back_state(transition, readings) {
            Err(e) => {
                proof {
                    assert(roll_back_answer::<S::Session>(before, taken, whole, Err(e)));
                    assert(restorations_by(*reader, before.articles.semantics, destroyed@, whole));
                }
                Err(e)
            },
            Ok(()) => {
                let ghost after = s.model();
                s.mark_invalid(opid);
                proof {
                    let listing = choose|listing: Seq<(CellAddr, StateCell)>|
                        {
                            &&& #[trigger] lists(listing, restored.destroyed)
                            &&& after == StockView { state: after.state, ..before }
                            &&& refreshed(
                                before.state.rolled_back(restored, listing, given),
                                after.state,
                                whole is None,
                            )
                        };
                    lemma_lists_unique(listing, destroyed@, restored.destroyed);
                    assert(restorations_by(
                        *reader,
                        before.articles.semantics,
                        destroyed@,
                        whole,
                    ));
                    if let Some(readings) = given {
                        lemma_aux_stays(before.state.aux, readings.custom, restored.opid, destroyed@);
                        let expected = before.state.rolled_back(restored, destroyed@, given);
                        assert forall|k: int|
                            0 <= k < before.articles.semantics.custom@.len() implies after.state.aux.contains_key(
                            (#[trigger] before.articles.semantics.custom@[k]).0@,
                        ) by {
                            let name = before.articles.semantics.custom@[k].0@;
                            assert(before.state.aux.contains_key(name));
                            assert(expected.aux.contains_key(name));
                        }
                    }
                }
                Ok(())
            },
        }
    }

    /// Rolls the operations back together with all their descendants, the latest ones first.
    pub fn rollback<
        G: Fn(usize, &StateData) -> Conversion<StateAtom>,
        O: Fn(usize, StateValue) -> Conversion<StrictVal>,
    >(&mut self, opids: Vec<Opid>, reader: &ApiReader<G, O>) -> (r: Result<(), S::Error>)
        requires
            has_descendants(old(self).model(), opids@),
            unwindable(old(self).model(), opids@),
            reader.defer || has_aux_states(old(self).model()),
            usable(*reader),
        ensures
            final(self).id() == old(self).id(),
            final(self).configuration() == old(self).configuration(),
            rollback_outcome::<S, G, O>(
                old(self).model(),
                final(self).model(),
                opids@,
                *reader,
                r,
            ),
    {
        let ghost before = self.model();
        let _state = self.state();
        let desc = self.descendants(opids);
        let ghost order = desc@.reverse();
        proof {
            lemma_destroyed_reverse(before, desc@);
            assert(order.take(0) =~= Seq::empty());
        }
        let mut i: usize = desc.len();
        while i > 0
            invariant
                i <= desc@.len(),
                order == desc@.reverse(),
                before == old(self).model(),
                walk(opids@, descendant_links(before), desc@),
                all_traced(before, desc@),
                usable(*reader),
                self.id() == old(self).id(),
                self.configuration() == old(self).configuration(),
                undone_all(before, self.model(), order.take(desc@.len() - i), *reader),
                self.model().trace == before.trace,
                self.model().articles == before.articles,
                self.model().state.raw.owned.dom().finite(),
                self.model().state.raw.owned.len() <= before.state.raw.owned.len()
                    + destroyed_count(before, order.take(desc@.len() - i)),
                before.state.raw.owned.len() + destroyed_count(before, order) <= MAX_STATE,
                reader.defer || has_aux_states(self.model()),
            decreases i,
        {
            let ghost mid = self.model();
            let ghost n = desc@.len() - i;
            i = i - 1;
            proof {
                assert(order[n] == desc@[i as int]);
                assert(before.trace.contains_key(desc@[i as int]));
                lemma_destroyed_step(before, order, n);
            }
            match self.undo(desc[i], reader) {
                Ok(()) => {},
                Err(e) => {
                    proof {
                        assert(undone_all(before, mid, order.take(n), *reader));
                        let after = self.model();
                        assert(undo_failure::<S::Session, G, O>(mid, order[n], *reader, after, e));
                        assert(rollback_failure::<S::Session, G, O>(
                            before,
                            order,
                            *reader,
                            after,
                            e,
                        ));
                    }
                    return Err(e);
                },
            }
            proof {
                assert(order.take(n + 1).drop_last() =~= order.take(n));
                assert(order.take(n + 1).last() == order[n]);
                assert(undone_all(before, mid, order.take(n + 1).drop_last(), *reader));
                assert(undone(mid, self.model(), order.take(n + 1).last(), *reader));
            }
        }
        proof {
            assert(order.take(order.len() as int) =~= order);
        }
        self.commit_transaction()
    }

    /// Rolls the operations back together with all their descendants, unless one of them is not known,
    /// its transition is not there, the state has no place for the cells which they have destroyed, or
    /// lacks the part of a custom API. Nothing is done then.
    pub fn try_rollback<
        G: Fn(usize, &StateData) -> Conversion<StateAtom>,
        O: Fn(usize, StateValue) -> Conversion<StrictVal>,
    >(&mut self, opids: Vec<Opid>, reader: &ApiReader<G, O>) -> (r: Option<Result<(), S::Error>>)
        requires
            usable(*reader),
        ensures
            final(self).id() == old(self).id(),
            final(self).configuration() == old(self).configuration(),
            r is None <==> !{
                &&& has_descendants(old(self).model(), opids@)
                &&& unwindable(old(self).model(), opids@)
                &&& reader.defer || has_aux_states(old(self).model())
            },
            match r {
                None => final(self).model() == old(self).model(),
                Some(result) => rollback_outcome::<S, G, O>(
                    old(self).model(),
                    final(self).model(),
                    opids@,
                    *reader,
                    result,
                ),
            },
    {
        if !reader.defer && !self.keeps_aux_states() {
            return None;
        }
        if !self.can_unwind(&opids) {
            return None;
        }
        Some(self.rollback(opids, reader))
    }

    /// Tests whether the state of each custom API is there.
    fn keeps_aux_states(&self) -> (r: bool)
        ensures
            r == has_aux_states(self.model()),
    {
        let custom = &self.articles().semantics.custom;
        let state = self.state();
        let mut k: usize = 0;
        while k < custom.len()
            invariant
                k <= custom@.len(),
                custom@ == self.model().articles.semantics.custom@,
                state@ == self.model().state,
                state.well_formed(),
                forall|m: int|
                    0 <= m < k ==> self.model().state.aux.contains_key((#[trigger] custom@[m]).0@),
            decreases custom@.len() - k,
        {
            if state.aux.get(&custom[k].0).is_none() {
                assert(!self.model().state.aux.contains_key(custom@[k as int].0@));
                return false;
            }
            k = k + 1;
        }
        true
    }

    /// Tests whether the operations can be rolled back: all their descendants are known, with their
    /// transitions, and the state has place for the cells which they have destroyed.
    fn can_unwind(&mut self, opids: &Vec<Opid>) -> (r: bool)
        ensures
            r == (has_descendants(old(self).model(), opids@) && unwindable(
                old(self).model(),
                opids@,
            )),
            final(self).model() == old(self).model(),
            final(self).id() == old(self).id(),
            final(self).configuration() == old(self).configuration(),
    {
        let ghost model = self.model();
        let _state = self.state();
        let desc = match self.try_descendants(copy_opids(opids)) {
            Some(desc) => desc,
            None => {
                return false;
            },
        };
        let ghost chain = desc@;
        proof {
            assert forall|other: Seq<Opid>| #[trigger]
                walk(opids@, descendant_links(model), other) implies other == chain by {
                law_chain_is_unique(opids@, descendant_links(model), other, chain);
            }
            assert(chain.take(0) =~= Seq::empty());
        }
        let trace = self.trace_iter();
        let mut total: u128 = 0;
        let mut i: usize = 0;
        while i < desc.len()
            invariant
                i <= desc@.len() <= usize::MAX,
                chain == desc@,
                self.model() == model,
                self.id() == old(self).id(),
                self.configuration() == old(self).configuration(),
                model == old(self).model(),
                walk(opids@, descendant_links(model), chain),
                forall|opid: Opid| #[trigger]
                    model.trace.contains_key(opid) ==> exists|k: int|
                        0 <= k < trace@.len() && (#[trigger] trace@[k]).0 == opid,
                forall|k: int|
                    0 <= k < trace@.len() ==> model.trace.contains_key((#[trigger] trace@[k]).0),
                all_traced(model, chain.take(i as int)),
                total == destroyed_count(model, chain.take(i as int)),
                total <= i * MAX_DESTROYED,
            decreases desc@.len() - i,
        {
            let opid = desc[i];
            if !is_listed(&trace, opid) {
                proof {
                    assert(!model.trace.contains_key(chain[i as int]));
                    assert(!all_traced(model, chain));
                }
                return false;
            }
            let cells = self.transition(opid).destroyed_cells();
            proof {
                lemma_listed(cells@, model.trace[opid].destroyed);
                lemma_destroyed_step(model, chain, i as int);
                assert forall|k: int| 0 <= k < i + 1 implies model.trace.contains_key(
                    #[trigger] chain.take(i + 1)[k],
                ) by {
                    if k < i {
                        assert(chain.take(i as int)[k] == chain[k]);
                    }
                }
            }
            total = total + cells.len() as u128;
            i = i + 1;
        }
        assert(chain.take(chain.len() as int) =~= chain);
        self.state().raw.owned.len() as u128 + total <= MAX_STATE as u128
    }
}

/// Tests whether the transition of an operation is in a list.
fn is_listed(trace: &Vec<(Opid, Transition)>, opid: Opid) -> (r: bool)
    ensures
        r == exists|k: int| 0 <= k < trace@.len() && (#[trigger] trace@[k]).0 == opid,
{
    let mut k: usize = 0;
    while k < trace.len()
        invariant
            k <= trace@.len(),
            forall|m: int| 0 <= m < k ==> (#[trigger] trace@[m]).0 != opid,
        decreases trace@.len() - k,
    {
        if trace[k].0 == opid {
            assert(trace@[k as int].0 == opid);
            return true;
        }
        k = k + 1;
    }
    false
}

/// The entries of a map stand in one order only.
pub proof fn lemma_lists_unique<V>(
    one: Seq<(CellAddr, V)>,
    other: Seq<(CellAddr, V)>,
    map: Map<CellAddr, V>,
)
    requires
        lists(one, map),
        lists(other, map),
    ensures
        one == other,
{
    lemma_listed(one, map);
    lemma_listed(other, map);
    assert forall|i: int| 0 <= i < one.len() implies one[i] == other[i] by {
        lemma_same_entry(one, other, map, i);
    }
    assert(one =~= other);
}

/// The entries at the same place are the same.
proof fn lemma_same_entry<V>(
    one: Seq<(CellAddr, V)>,
    other: Seq<(CellAddr, V)>,
    map: Map<CellAddr, V>,
    i: int,
)
    requires
        lists(one, map),
        lists(other, map),
        one.len() == other.len(),
        0 <= i < one.len(),
    ensures
        one[i] == other[i],
    decreases i,
{
    assert forall|j: int| 0 <= j < i implies one[j] == other[j] by {
        lemma_same_entry(one, other, map, j);
    }
    assert(map.contains_key(one[i].0) && map.contains_key(other[i].0));
    let m = choose|m: int| 0 <= m < other.len() && (#[trigger] other[m]).0 == one[i].0;
    let k = choose|k: int| 0 <= k < one.len() && (#[trigger] one[k]).0 == other[i].0;
    if m < i {
        assert(one[m].0.precedes(one[i].0));
    } else if k < i {
        assert(other[k].0.precedes(other[i].0));
    } else if m > i {
        assert(other[i].0.precedes(other[m].0));
        if k > i {
            assert(one[i].0.precedes(one[k].0));
        }
    }
}

} // verus!
