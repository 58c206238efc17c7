//! Persistence of the contract data.

use crate::articles::Articles;
use crate::cells::lists;
use crate::export::{stash_of, Stash};
use crate::raw::{Transition, TransitionView, VerifiedOperation};
use crate::processed::ProcessedView;
use crate::state::{
    given_readings, given_restorations, only_computed_differs, EffectiveState, EffectiveView,
    Readings, Restorations,
};
use crate::types::{CellAddr, Input, Operation, OperationView, Opid, StateCell};
use crate::ultra::committed_opid;
use ultrasonic::CallError;
use vstd::prelude::*;

verus! {

/// Mathematical model of the contract data in a stock.
#[verifier::ext_equal]
pub struct StockView {
    /// Operations by their ids.
    pub ops: Map<Opid, OperationView>,
    /// Operations in the order in which the stock enumerates them.
    pub stash: Stash,
    /// Transitions by the ids of their operations.
    pub trace: Map<Opid, TransitionView>,
    /// Operations which are valid.
    pub valid: Set<Opid>,
    /// Operations which have destroyed the cells.
    pub spent: Map<CellAddr, Opid>,
    /// Operations which have read the cells, in the order in which the stock enumerates them.
    pub read: Map<CellAddr, Seq<Opid>>,
    pub articles: Articles,
    pub state: EffectiveView,
}

/// The operations which have read a cell.
pub open spec fn readers(read: Map<CellAddr, Seq<Opid>>, addr: CellAddr) -> Seq<Opid> {
    if read.contains_key(addr) {
        read[addr]
    } else {
        Seq::empty()
    }
}

/// The stash after an operation was added: its earlier version, if any, is gone.
pub open spec fn stash_with(before: Stash, after: Stash, opid: Opid, op: OperationView) -> bool {
    forall|entry: (Opid, OperationView)| #[trigger]
        after.contains(entry) <==> entry == (opid, op) || (before.contains(entry) && entry.0 != opid)
}

/// The readings after one was added.
pub open spec fn read_with(
    before: Map<CellAddr, Seq<Opid>>,
    after: Map<CellAddr, Seq<Opid>>,
    addr: CellAddr,
    reader: Opid,
) -> bool {
    forall|a: CellAddr, r: Opid| #[trigger]
        readers(after, a).contains(r) <==> readers(before, a).contains(r) || (a == addr && r
            == reader)
}

/// The state is the expected one, but for its computed parts, which a stock may bring up to date
/// whenever the state changes. Where the processing of the cells is deferred, only the raw state is
/// what was expected: a stock may process it anew.
pub open spec fn refreshed(expected: EffectiveView, actual: EffectiveView, deferred: bool) -> bool {
    &&& actual.raw == expected.raw
    &&& !deferred ==> {
        &&& only_computed_differs(expected.main, actual.main)
        &&& forall|name: Seq<char>| #[trigger]
            expected.aux.contains_key(name) ==> actual.aux.contains_key(name)
                && only_computed_differs(expected.aux[name], actual.aux[name])
        &&& forall|name: Seq<char>| #[trigger]
            actual.aux.contains_key(name) && !expected.aux.contains_key(name)
                ==> only_computed_differs(ProcessedView::empty(), actual.aux[name])
    }
}

/// The data after a state transition.
pub open spec fn state_applied(
    before: StockView,
    after: StockView,
    opid: Opid,
    op: OperationView,
    readings: Option<Readings>,
) -> bool {
    &&& after == StockView { state: after.state, ..before }
    &&& refreshed(
        before.state.applied(opid, op, given_readings(readings)),
        after.state,
        readings is None,
    )
}

/// The data after a state transition was taken back.
pub open spec fn state_rolled_back(
    before: StockView,
    after: StockView,
    transition: TransitionView,
    readings: Option<Restorations>,
) -> bool {
    exists|destroyed: Seq<(CellAddr, StateCell)>|
        {
            &&& #[trigger] lists(destroyed, transition.destroyed)
            &&& after == StockView { state: after.state, ..before }
            &&& refreshed(
                before.state.rolled_back(transition, destroyed, given_restorations(readings)),
                after.state,
                readings is None,
            )
        }
}

impl StockView {
    /// What is known of the operations agrees with each other: the data of every operation which
    /// has read or destroyed a cell are there.
    pub open spec fn consistent(self) -> bool {
        &&& self.ops.dom().finite()
        &&& forall|opid: Opid| #[trigger]
            self.ops.contains_key(opid) ==> self.ops[opid].well_formed()
                && self.ops[opid].distinct_inputs() && committed_opid(self.ops[opid]) == opid
        &&& forall|opid: Opid| #[trigger]
            self.trace.contains_key(opid) ==> self.trace[opid].well_formed() && self.trace[opid].opid
                == opid
        &&& forall|addr: CellAddr| #[trigger]
            self.spent.contains_key(addr) ==> self.known(self.spent[addr])
        &&& forall|addr: CellAddr, opid: Opid| #[trigger]
            readers(self.read, addr).contains(opid) ==> self.known(opid)
    }

    /// The data of the operation are there.
    pub open spec fn known(self, opid: Opid) -> bool {
        self.ops.contains_key(opid)
    }

    /// The operations, whose cells the operation takes, are there.
    pub open spec fn parents_known(self, genesis: Opid) -> bool {
        forall|opid: Opid, parent: Opid|
            #![trigger self.ops[opid].parents().contains(parent)]
            self.ops.contains_key(opid) && opid != genesis && self.ops[opid].parents().contains(parent)
                ==> parent == genesis || self.ops.contains_key(parent)
    }
}

/// A session encapsulates all I/O access to a [`Stock`].
///
/// Callers open one session per logical operation and forward it through the call chain, ensuring
/// that the underlying I/O resource (e.g. a database connection) is acquired exactly once.
pub trait StockSession: Sized {
    /// Failure of the underlying storage.
    type Error;

    /// The contract data.
    open spec fn model(&self) -> StockView {
        vstd::pervasive::arbitrary()
    }

    /// A call, which has failed so, may leave the latter data in place of the former ones.
    open spec fn leaves(before: StockView, after: StockView, error: Self::Error) -> bool {
        vstd::pervasive::arbitrary()
    }

    // read

    fn is_valid(&mut self, opid: Opid) -> (r: bool)
        ensures
            r == old(self).model().valid.contains(opid),
            final(self).model() == old(self).model(),
    ;

    fn has_operation(&mut self, opid: Opid) -> (r: bool)
        ensures
            r == old(self).model().ops.contains_key(opid),
            final(self).model() == old(self).model(),
    ;

    fn operation_count(&mut self) -> (r: u64)
        ensures
            r == old(self).model().stash.len(),
            final(self).model() == old(self).model(),
    ;

    fn operation(&mut self, opid: Opid) -> (r: Operation)
        requires
            old(self).model().ops.contains_key(opid),
        ensures
            r@ == old(self).model().ops[opid],
            r@.well_formed(),
            final(self).model() == old(self).model(),
    ;

    fn operations(&mut self) -> (r: Vec<(Opid, Operation)>)
        ensures
            stash_of(r@) == old(self).model().stash,
            forall|i: int| 0 <= i < r@.len() ==> (#[trigger] r@[i]).1@.well_formed(),
            final(self).model() == old(self).model(),
    ;

    fn valid_opids(&mut self) -> (r: Vec<Opid>)
        ensures
            r@ == valid_of(old(self).model().stash, old(self).model().valid),
            final(self).model() == old(self).model(),
    {
        let ghost model = self.model();
        let operations = self.operations();
        let mut valid: Vec<Opid> = Vec::new();
        let mut i: usize = 0;
        assert(model.stash.take(0) =~= Seq::empty());
        while i < operations.len()
            invariant
                i <= operations@.len(),
                self.model() == model,
                stash_of(operations@) == model.stash,
                valid@ == valid_of(model.stash.take(i as int), model.valid),
            decreases operations@.len() - i,
        {
            let opid = operations[i].0;
            proof {
                assert(model.stash[i as int].0 == opid);
                assert(model.stash.take(i + 1).drop_last() =~= model.stash.take(i as int));
                assert(model.stash.take(i + 1).last().0 == opid);
            }
            if self.is_valid(opid) {
                valid.push(opid);
            }
            i = i + 1;
        }
        assert(model.stash.take(model.stash.len() as int) =~= model.stash);
        valid
    }

    fn operation_parent_ops(&mut self) -> (r: Vec<(Opid, Vec<Opid>)>)
        ensures
            r@.len() == old(self).model().stash.len(),
            forall|i: int|
                0 <= i < r@.len() ==> (#[trigger] r@[i]).0 == old(self).model().stash[i].0 && r@[i].1@
                    == parent_list(old(self).model().stash[i].1),
            final(self).model() == old(self).model(),
    {
        let ghost model = self.model();
        let operations = self.operations();
        let mut list: Vec<(Opid, Vec<Opid>)> = Vec::new();
        let mut i: usize = 0;
        while i < operations.len()
            invariant
                i <= operations@.len(),
                self.model() == model,
                stash_of(operations@) == model.stash,
                list@.len() == i,
                forall|k: int|
                    0 <= k < i ==> (#[trigger] list@[k]).0 == model.stash[k].0 && list@[k].1@
                        == parent_list(model.stash[k].1),
            decreases operations@.len() - i,
        {
            assert(model.stash[i as int] == (operations@[i as int].0, operations@[i as int].1@));
            list.push((operations[i].0, operations[i].1.parent_list()));
            i = i + 1;
        }
        list
    }

    /// Numbers of outputs of the operations; which outputs are counted is up to the stock.
    fn operation_output_counts(&mut self) -> (r: Vec<(Opid, u16)>)
        ensures
            final(self).model() == old(self).model(),
    ;

    fn transition(&mut self, opid: Opid) -> (r: Transition)
        requires
            old(self).model().trace.contains_key(opid),
        ensures
            r@ == old(self).model().trace[opid],
            r@.well_formed(),
            final(self).model() == old(self).model(),
    ;

    fn trace(&mut self) -> (r: Vec<(Opid, Transition)>)
        ensures
            forall|i: int|
                0 <= i < r@.len() ==> old(self).model().trace.contains_key((#[trigger] r@[i]).0)
                    && old(self).model().trace[r@[i].0] == r@[i].1@ && r@[i].1@.well_formed(),
            forall|opid: Opid| #[trigger]
                old(self).model().trace.contains_key(opid) ==> exists|i: int|
                    0 <= i < r@.len() && (#[trigger] r@[i]).0 == opid,
            final(self).model() == old(self).model(),
    ;

    fn read_by(&mut self, addr: CellAddr) -> (r: Vec<Opid>)
        ensures
            r@ == readers(old(self).model().read, addr),
            final(self).model() == old(self).model(),
    ;

    fn spent_by(&mut self, addr: CellAddr) -> (r: Option<Opid>)
        ensures
            match r {
                Some(opid) => old(self).model().spent.contains_key(addr)
                    && old(self).model().spent[addr] == opid,
                None => !old(self).model().spent.contains_key(addr),
            },
            final(self).model() == old(self).model(),
    ;

    // write

    fn mark_valid(&mut self, opid: Opid)
        ensures
            final(self).model() == (StockView {
                valid: old(self).model().valid.insert(opid),
                ..old(self).model()
            }),
    ;

    fn mark_invalid(&mut self, opid: Opid)
        ensures
            final(self).model() == (StockView {
                valid: old(self).model().valid.remove(opid),
                ..old(self).model()
            }),
    ;

    /// Replaces the articles.
    fn update_articles(&mut self, articles: Articles) -> (r: Result<(), Self::Error>)
        requires
            articles.well_formed(),
        ensures
            match r {
                Ok(()) => final(self).model() == (StockView { articles, ..old(self).model() }),
                Err(e) => Self::leaves(old(self).model(), final(self).model(), e),
            },
    ;

    /// Applies an operation to the state.
    fn apply_state(&mut self, op: &VerifiedOperation, readings: Option<Readings>) -> (r: Result<
        Transition,
        Self::Error,
    >)
        requires
            op.well_formed(),
            op.operation@.distinct_inputs(),
            old(self).model().state.raw.has_inputs(op.operation@),
            old(self).model().state.raw.has_room(op.opid, op.operation@),
            readings matches Some(readings) ==> readings@.reads_outputs(op.operation@),
        ensures
            r matches Ok(transition) ==> {
                &&& transition@ == old(self).model().state.raw.transition(op.opid, op.operation@)
                &&& transition@.well_formed()
                &&& state_applied(
                    old(self).model(),
                    final(self).model(),
                    op.opid,
                    op.operation@,
                    readings,
                )
            },
            r matches Err(e) ==> Self::leaves(old(self).model(), final(self).model(), e),
    ;

    /// Takes a transition of the state back.
    fn roll_back_state(&mut self, transition: Transition, readings: Option<Restorations>) -> (r: Result<
        (),
        Self::Error,
    >)
        requires
            transition@.well_formed(),
            old(self).model().state.raw.has_room_back(transition@),
            readings matches Some(readings) ==> {
                &&& readings@.reads(transition@.destroyed.len())
                &&& forall|k: int|
                    0 <= k < readings@.custom.len() ==> old(self).model().state.aux.contains_key(
                        (#[trigger] readings@.custom[k]).0,
                    )
            },
        ensures
            r is Ok ==> state_rolled_back(
                old(self).model(),
                final(self).model(),
                transition@,
                readings,
            ),
            r matches Err(e) ==> Self::leaves(old(self).model(), final(self).model(), e),
    ;

    fn add_operation(&mut self, opid: Opid, operation: &Operation)
        requires
            operation@.well_formed(),
        ensures
            final(self).model() == (StockView {
                ops: old(self).model().ops.insert(opid, operation@),
                stash: final(self).model().stash,
                ..old(self).model()
            }),
            stash_with(old(self).model().stash, final(self).model().stash, opid, operation@),
    ;

    fn add_transition(&mut self, opid: Opid, transition: &Transition)
        ensures
            final(self).model() == (StockView {
                trace: old(self).model().trace.insert(opid, transition@),
                ..old(self).model()
            }),
    ;

    fn add_reading(&mut self, addr: CellAddr, reader: Opid)
        ensures
            final(self).model() == (StockView {
                read: final(self).model().read,
                ..old(self).model()
            }),
            read_with(old(self).model().read, final(self).model().read, addr, reader),
    ;

    fn add_spending(&mut self, spent: CellAddr, spender: Opid)
        ensures
            final(self).model() == (StockView {
                spent: old(self).model().spent.insert(spent, spender),
                ..old(self).model()
            }),
    ;

    /// Announces the operations which are about to be added, so that the stock may look their data
    /// up at once.
    fn preload_apply_insert_lookups(&mut self, operations: &Vec<Operation>)
        ensures
            final(self).model() == old(self).model(),
    {
    }

    fn commit_transaction(&mut self) -> (r: Result<(), Self::Error>)
        ensures
            final(self).model() == old(self).model(),
    ;
}

/// A session over the given data answers so to the call for persisting them.
pub open spec fn commit_answer<Z: StockSession>(
    model: StockView,
    r: Result<(), Z::Error>,
) -> bool {
    exists|session: &mut Z|
        {
            &&& session.model() == model
            &&& #[trigger] call_ensures(Z::commit_transaction, (session,), r)
        }
}

/// A session over the given data has persisted them.
pub open spec fn committed<Z: StockSession>(model: StockView) -> bool {
    exists|r: Result<(), Z::Error>| r is Ok && #[trigger] commit_answer::<Z>(model, r)
}

/// A session over the given data answers so to the call for replacing the articles.
pub open spec fn update_answer<Z: StockSession>(
    model: StockView,
    articles: Articles,
    r: Result<(), Z::Error>,
) -> bool {
    exists|session: &mut Z|
        {
            &&& session.model() == model
            &&& #[trigger] call_ensures(Z::update_articles, (session, articles), r)
        }
}

/// A session over the given data answers so to the call for applying an operation to the state.
pub open spec fn apply_answer<Z: StockSession>(
    model: StockView,
    op: VerifiedOperation,
    readings: Option<Readings>,
    r: Result<Transition, Z::Error>,
) -> bool {
    exists|session: &mut Z|
        {
            &&& session.model() == model
            &&& #[trigger] call_ensures(Z::apply_state, (session, &op, readings), r)
        }
}

/// A session over the given data answers so to the call for taking a transition of the state back.
pub open spec fn roll_back_answer<Z: StockSession>(
    model: StockView,
    transition: Transition,
    readings: Option<Restorations>,
    r: Result<(), Z::Error>,
) -> bool {
    exists|session: &mut Z|
        {
            &&& session.model() == model
            &&& #[trigger] call_ensures(Z::roll_back_state, (session, transition, readings), r)
        }
}

/// The valid operations of a stash, in its order.
pub open spec fn valid_of(stash: Stash, valid: Set<Opid>) -> Seq<Opid>
    decreases stash.len(),
{
    if stash.len() == 0 {
        Seq::empty()
    } else {
        let earlier = valid_of(stash.drop_last(), valid);
        if valid.contains(stash.last().0) {
            earlier.push(stash.last().0)
        } else {
            earlier
        }
    }
}

/// The operations whose cells an operation reads, then those whose cells it destroys.
pub open spec fn parent_list(op: OperationView) -> Seq<Opid> {
    op.immutable_in.map_values(|addr: CellAddr| addr.opid) + op.destructible_in.map_values(
        |input: Input| input.addr.opid,
    )
}

impl Operation {
    /// The operations whose cells this operation reads, then those whose cells it destroys.
    pub fn parent_list(&self) -> (r: Vec<Opid>)
        ensures
            r@ == parent_list(self@),
    {
        let mut list: Vec<Opid> = Vec::new();
        let mut i: usize = 0;
        while i < self.immutable_in.len()
            invariant
                i <= self.immutable_in@.len(),
                list@ == parent_list(self@).take(i as int),
            decreases self.immutable_in@.len() - i,
        {
            let ghost before = list@;
            list.push(self.immutable_in[i].opid);
            assert(list@ =~= parent_list(self@).take(i + 1));
            i = i + 1;
        }
        let mut j: usize = 0;
        while j < self.destructible_in.len()
            invariant
                i == self.immutable_in@.len(),
                j <= self.destructible_in@.len(),
                list@ == parent_list(self@).take(i + j),
            decreases self.destructible_in@.len() - j,
        {
            list.push(self.destructible_in[j].addr.opid);
            assert(list@ =~= parent_list(self@).take(i + j + 1));
            j = j + 1;
        }
        assert(parent_list(self@).take(parent_list(self@).len() as int) =~= parent_list(self@));
        list
    }
}

/// Stock is a persistence API for keeping and accessing contract data.
pub trait Stock: Sized {
    type Conf;

    type Error;

    /// Session type for all I/O access.
    type Session: StockSession<Error = Self::Error>;

    /// The contract data.
    open spec fn model(&self) -> StockView {
        vstd::pervasive::arbitrary()
    }

    /// The configuration of the stock.
    open spec fn configuration(&self) -> Self::Conf {
        vstd::pervasive::arbitrary()
    }

    fn new(articles: Articles, state: EffectiveState, conf: Self::Conf) -> (r: Result<
        Self,
        Self::Error,
    >)
        requires
            articles.well_formed(),
            state.well_formed(),
        ensures
            r matches Ok(stock) ==> stock.configuration() == conf && stock.model() == (StockView {
                ops: Map::empty(),
                stash: Seq::empty(),
                trace: Map::empty(),
                valid: Set::empty(),
                spent: Map::empty(),
                read: Map::empty(),
                articles,
                state: state@,
            }),
    ;

    fn load(conf: Self::Conf) -> Result<Self, Self::Error>;

    /// Explains a failure in words.
    fn describe(error: &Self::Error) -> String;

    fn config(&self) -> (r: Self::Conf)
        ensures
            r == self.configuration(),
    ;

    /// In-memory, non-blocking.
    fn articles(&self) -> (r: &Articles)
        ensures
            *r == self.model().articles,
            r.well_formed(),
    ;

    /// In-memory, non-blocking.
    fn state(&self) -> (r: &EffectiveState)
        ensures
            r@ == self.model().state,
            r.well_formed(),
    ;

    /// Opens a session for all I/O operations.
    fn session(&mut self) -> (s: &mut Self::Session)
        ensures
            s.model() == old(self).model(),
            s.model().ops.dom().finite(),
            final(self).model() == final(s).model(),
            final(self).configuration() == old(self).configuration(),
    ;
}

/// Errors of issuing a contract.
#[derive(Debug)]
pub enum IssueError {
    /// unable to issue a new contract due to invalid genesis data.
    Genesis(String, CallError),
}

} // verus!
