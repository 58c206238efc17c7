//! Application of operations to a ledger.

use crate::articles::{has_reads, lemma_has_room};
use crate::cells::MAX_STATE;
use crate::forward::has_places;
use crate::ledger::{Ledger, MultiError};
use crate::processed::{Conversion, StateAtom};
use crate::raw::{input_addrs, Transition, VerifiedOperation};
use crate::reader::{readings_by, usable, ApiReader};
use crate::state::{given_readings, Readings};
use crate::stream::StreamError;
use crate::stock::{apply_answer, readers, refreshed, stash_with, Stock, StockSession, StockView};
use crate::types::{CellAddr, ContractId, Input, Operation, OperationView, Opid};
use crate::ultra::committed_opid;
use strict_types::StrictVal;
use ultrasonic::CallError;
use ultrasonic::StateData;
use ultrasonic::StateValue;
use vstd::prelude::*;

verus! {

/// Faults of the articles of a contract.
#[derive(Debug)]
pub enum SemanticError {
    /// the data belong to another contract.
    ContractMismatch,
    /// the articles are not acceptable.
    Invalid(String),
}

/// Errors of accepting operations.
#[derive(Debug)]
pub enum AcceptError {
    /// Reading of a stream has failed.
    Io(StreamError),
    Articles(SemanticError),
    Verify(CallError),
    /// A stream is not one of deeds.
    Decode(StreamError),
    Serialize(String),
    Persistence(String),
    /// Invalid file format
    InvalidFileFormat,
}

/// The data after an operation was recorded and applied.
pub open spec fn recorded(
    before: StockView,
    after: StockView,
    opid: Opid,
    op: OperationView,
    present: bool,
    readings: Option<Readings>,
) -> bool {
    &&& if present {
        after.ops == before.ops && after.stash == before.stash
    } else {
        after.ops == before.ops.insert(opid, op) && stash_with(before.stash, after.stash, opid, op)
    }
    &&& forall|a: CellAddr, r: Opid| #[trigger]
        readers(after.read, a).contains(r) <==> readers(before.read, a).contains(r) || (r == opid
            && op.immutable_in.contains(a))
    &&& after.spent == spent_with(before.spent, op, opid)
    &&& after.trace == before.trace.insert(opid, before.state.raw.transition(opid, op))
    &&& after.valid == before.valid.insert(opid)
    &&& after.articles == before.articles
    &&& refreshed(
        before.state.applied(opid, op, given_readings(readings)),
        after.state,
        readings is None,
    )
}

/// The data after an operation was noted, before it is applied to the state.
pub open spec fn noted(
    before: StockView,
    after: StockView,
    opid: Opid,
    op: OperationView,
    present: bool,
) -> bool {
    &&& if present {
        after.ops == before.ops && after.stash == before.stash
    } else {
        after.ops == before.ops.insert(opid, op) && stash_with(before.stash, after.stash, opid, op)
    }
    &&& forall|a: CellAddr, r: Opid| #[trigger]
        readers(after.read, a).contains(r) <==> readers(before.read, a).contains(r) || (r == opid
            && op.immutable_in.contains(a))
    &&& after.spent == spent_with(before.spent, op, opid)
    &&& after == StockView {
        ops: after.ops,
        stash: after.stash,
        read: after.read,
        spent: after.spent,
        ..before
    }
}

/// The storage fails to apply an operation to the state, once the operation is noted.
pub open spec fn record_failure<Z: StockSession>(
    before: StockView,
    operation: VerifiedOperation,
    present: bool,
    readings: Option<Readings>,
    after: StockView,
    e: Z::Error,
) -> bool {
    exists|at: StockView|
        {
            &&& #[trigger] noted(before, at, operation.opid, operation.operation@, present)
            &&& apply_answer::<Z>(at, operation, readings, Err(e))
            &&& Z::leaves(at, after, e)
        }
}

/// The storage fails to apply an operation, the outputs of which the reader has read.
pub open spec fn apply_failure<
    Z: StockSession,
    G: Fn(usize, &StateData) -> Conversion<StateAtom>,
    O: Fn(usize, StateValue) -> Conversion<StrictVal>,
>(
    before: StockView,
    operation: VerifiedOperation,
    present: bool,
    reader: ApiReader<G, O>,
    after: StockView,
    e: Z::Error,
) -> bool {
    exists|readings: Option<Readings>|
        {
            &&& #[trigger] readings_by(
                reader,
                before.articles.semantics,
                operation.operation,
                readings,
            )
            &&& record_failure::<Z>(before, operation, present, readings, after, e)
        }
}

/// The spendings after an operation.
pub open spec fn spent_with(
    spent: Map<CellAddr, Opid>,
    op: OperationView,
    opid: Opid,
) -> Map<CellAddr, Opid> {
    spent.union_prefer_right(
        Map::new(|a: CellAddr| input_addrs(op.destructible_in).contains(a), |a: CellAddr| opid),
    )
}

/// The state has place for an operation, which destroys no cell twice.
pub open spec fn applicable(model: StockView, opid: Opid, op: OperationView) -> bool {
    &&& op.well_formed()
    &&& op.distinct_inputs()
    &&& model.state.raw.has_room(opid, op)
}

/// An operation can be verified; if it is accepted, it can be applied as well.
pub open spec fn verifiable(model: StockView, op: OperationView) -> bool {
    &&& model.articles.runs_through(op, model.state.raw)
    &&& model.articles.verdict(op, model.state.raw) is Ok ==> applicable(
        model,
        committed_opid(op),
        op,
    )
}

/// An operation can be verified; if it is accepted, then it destroys no cell twice, and there is
/// place for all its outputs.
pub open spec fn placeable(model: StockView, op: OperationView) -> bool {
    &&& model.articles.runs_through(op, model.state.raw)
    &&& model.articles.verdict(op, model.state.raw) is Ok ==> op.distinct_inputs() && has_places(
        model.state.raw,
        (op.destructible_out.len(), op.immutable_out.len()),
    )
}

/// An operation of the contract is applied, unless it is valid already.
pub open spec fn pending(model: StockView, op: OperationView, force: bool) -> bool {
    &&& op.contract_id == model.articles.contract_id
    &&& force || !model.valid.contains(committed_opid(op))
}

/// Tests whether an operation destroys no cell twice.
pub(crate) fn has_distinct_inputs(op: &Operation) -> (r: bool)
    ensures
        r == op@.distinct_inputs(),
{
    let mut i: usize = 0;
    while i < op.destructible_in.len()
        invariant
            i <= op.destructible_in@.len(),
            forall|k: int, m: int|
                0 <= k < m < i ==> (#[trigger] op.destructible_in@[k]).addr != (
                #[trigger] op.destructible_in@[m]).addr,
        decreases op.destructible_in@.len() - i,
    {
        let mut j: usize = 0;
        while j < i
            invariant
                j <= i < op.destructible_in@.len(),
                forall|k: int|
                    0 <= k < j ==> (#[trigger] op.destructible_in@[k]).addr
                        != op.destructible_in@[i as int].addr,
            decreases i - j,
        {
            if op.destructible_in[j].addr == op.destructible_in[i].addr {
                assert(op@.destructible_in[j as int].addr == op@.destructible_in[i as int].addr);
                return false;
            }
            j = j + 1;
        }
        i = i + 1;
    }
    true
}

/// Outcome of verifying an operation and applying it.
pub open spec fn verify_outcome<
    S: Stock,
    G: Fn(usize, &StateData) -> Conversion<StateAtom>,
    O: Fn(usize, StateValue) -> Conversion<StrictVal>,
>(
    before: StockView,
    after: StockView,
    id: ContractId,
    operation: Operation,
    force: bool,
    reader: ApiReader<G, O>,
    r: Result<bool, MultiError<AcceptError, S::Error>>,
) -> bool {
    let opid = committed_opid(operation@);
    let present = before.valid.contains(opid);
    if operation.contract_id != id {
        &&& r matches Err(MultiError::A(AcceptError::Articles(SemanticError::ContractMismatch)))
        &&& after == before
    } else if present && !force {
        &&& r matches Ok(valid) && valid
        &&& after == before
    } else {
        match before.articles.verdict(operation@, before.state.raw) {
            Err(e) => {
                &&& r matches Err(MultiError::A(AcceptError::Verify(fault))) && fault == e
                &&& after == before
            },
            Ok(()) => {
                &&& before.state.raw.has_inputs(operation@)
                &&& has_reads(before.state.raw, operation@)
                &&& match r {
                    Ok(valid) => {
                        &&& valid == present
                        &&& applied_by(before, after, opid, operation, false, reader)
                    },
                    Err(MultiError::A(_)) => false,
                    Err(MultiError::B(e)) => apply_failure::<S::Session, G, O>(
                        before,
                        VerifiedOperation { opid, operation },
                        false,
                        reader,
                        after,
                        e,
                    ),
                }
            },
        }
    }
}

/// Records an operation and applies it to the state.
fn record<S: StockSession>(
    session: &mut S,
    operation: &VerifiedOperation,
    present: bool,
    readings: Option<Readings>,
) -> (r: Result<Transition, S::Error>)
    requires
        operation.well_formed(),
        applicable(old(session).model(), operation.opid, operation.operation@),
        old(session).model().state.raw.has_inputs(operation.operation@),
        readings matches Some(readings) ==> readings@.reads_outputs(operation.operation@),
    ensures
        r matches Ok(transition) ==> {
            &&& transition@ == old(session).model().state.raw.transition(
                operation.opid,
                operation.operation@,
            )
            &&& transition@.well_formed()
            &&& recorded(
                old(session).model(),
                final(session).model(),
                operation.opid,
                operation.operation@,
                present,
                readings,
            )
        },
        r matches Err(e) ==> record_failure::<S>(
            old(session).model(),
            *operation,
            present,
            readings,
            final(session).model(),
            e,
        ),
{
    let ghost before = session.model();
    let opid = operation.opid;
    let ghost op = operation.operation@;
    if !present {
        session.add_operation(opid, &operation.operation);
    }
    let ghost added = session.model();
    let mut i: usize = 0;
    while i < operation.operation.immutable_in.len()
        invariant
            i <= op.immutable_in.len(),
            op == operation.operation@,
            opid == operation.opid,
            session.model() == (StockView { read: session.model().read, ..added }),
            forall|a: CellAddr, r: Opid| #[trigger]
                readers(session.model().read, a).contains(r) <==> readers(added.read, a).contains(r) || (
                r == opid && op.immutable_in.take(i as int).contains(a)),
        decreases op.immutable_in.len() - i,
    {
        let addr = operation.operation.immutable_in[i];
        let ghost prior = session.model();
        session.add_reading(addr, opid);
        proof {
            let less = op.immutable_in.take(i as int);
            let more = op.immutable_in.take(i + 1);
            assert forall|a: CellAddr| more.contains(a) == (less.contains(a) || a == addr) by {
                if less.contains(a) {
                    let k = choose|k: int| 0 <= k < less.len() && less[k] == a;
                    assert(more[k] == a);
                }
                if more.contains(a) {
                    let k = choose|k: int| 0 <= k < more.len() && more[k] == a;
                    if k < i {
                        assert(less[k] == a);
                    }
                }
                assert(more[i as int] == addr);
            }
        }
        i = i + 1;
    }
    assert(op.immutable_in.take(op.immutable_in.len() as int) =~= op.immutable_in);
    let ghost read = session.model();
    let ghost inputs = op.destructible_in;
    let mut j: usize = 0;
    proof {
        assert(spent_of_inputs(read.spent, inputs.take(0), opid) =~= read.spent);
    }
    while j < operation.operation.destructible_in.len()
        invariant
            j <= inputs.len(),
            inputs == operation.operation.destructible_in@,
            opid == operation.opid,
            session.model() == (StockView {
                spent: spent_of_inputs(read.spent, inputs.take(j as int), opid),
                ..read
            }),
        decreases inputs.len() - j,
    {
        let addr = operation.operation.destructible_in[j].addr;
        session.add_spending(addr, opid);
        proof {
            crate::raw::lemma_addrs_step(inputs, j as int);
            assert(spent_of_inputs(read.spent, inputs.take(j + 1), opid) =~= spent_of_inputs(
                read.spent,
                inputs.take(j as int),
                opid,
            ).insert(addr, opid));
        }
        j = j + 1;
    }
    assert(inputs.take(inputs.len() as int) =~= inputs);
    assert(spent_of_inputs(read.spent, inputs, opid) == spent_with(before.spent, op, opid));
    let ghost at = session.model();
    assert(noted(before, at, opid, op, present));
    match session.apply_state(operation, readings) {
        Err(e) => {
            assert(apply_answer::<S>(at, *operation, readings, Err(e)));
            Err(e)
        },
        Ok(transition) => {
            session.add_transition(opid, &transition);
            session.mark_valid(opid);
            Ok(transition)
        },
    }
}

/// The spendings after the cells of the inputs were destroyed.
spec fn spent_of_inputs(
    spent: Map<CellAddr, Opid>,
    inputs: Seq<Input>,
    opid: Opid,
) -> Map<CellAddr, Opid> {
    spent.union_prefer_right(
        Map::new(|a: CellAddr| input_addrs(inputs).contains(a), |a: CellAddr| opid),
    )
}

impl<S: Stock> Ledger<S> {
    /// Tests whether an operation can be verified, and whether it has its place in the state if it
    /// is accepted.
    pub fn has_place_for(&self, operation: &Operation) -> (r: bool)
        requires
            operation@.well_formed(),
        ensures
            r == placeable(self.model(), operation@),
            r ==> verifiable(self.model(), operation@),
    {
        let articles = self.articles();
        let raw = &self.state().raw;
        match articles.try_verify(operation.duplicate(), raw) {
            None => false,
            Some(Err(_)) => true,
            Some(Ok(_)) => {
                let owned = operation.destructible_out.len();
                let global = operation.immutable_out.len();
                if !has_distinct_inputs(operation) || raw.auth.len() as u128 + owned as u128
                    > MAX_STATE as u128 || raw.owned.len() as u128 + owned as u128
                    > MAX_STATE as u128 || raw.global.len() as u128 + global as u128
                    > MAX_STATE as u128 {
                    return false;
                }
                proof {
                    lemma_has_room(raw@, committed_opid(operation@), operation@);
                }
                true
            },
        }
    }

    /// Verifies an operation and applies it, unless it is valid already or can't have its place in
    /// the state. Nothing is done in the latter case.
    pub fn try_apply_verify<
        G: Fn(usize, &StateData) -> Conversion<StateAtom>,
        O: Fn(usize, StateValue) -> Conversion<StrictVal>,
    >(&mut self, operation: Operation, force: bool, reader: &ApiReader<G, O>) -> (r: Option<
        Result<bool, MultiError<AcceptError, S::Error>>,
    >)
        requires
            old(self).well_formed(),
            operation@.well_formed(),
            usable(*reader),
        ensures
            final(self).id() == old(self).id(),
            final(self).configuration() == old(self).configuration(),
            r is None <==> pending(old(self).model(), operation@, force) && !placeable(
                old(self).model(),
                operation@,
            ),
            match r {
                None => final(self).model() == old(self).model(),
                Some(result) => verify_outcome::<S, G, O>(
                    old(self).model(),
                    final(self).model(),
                    old(self).id(),
                    operation,
                    force,
                    *reader,
                    result,
                ),
            },
    {
        if operation.contract_id == self.contract_id() {
            let opid = operation.opid();
            if (force || !self.is_valid(opid)) && !self.has_place_for(&operation) {
                return None;
            }
        }
        Some(self.apply_verify(operation, force, reader))
    }

    /// Verifies an operation and applies it, unless it is valid already. A forced one is applied
    /// anyway. Tells whether the operation was valid before.
    pub fn apply_verify<
        G: Fn(usize, &StateData) -> Conversion<StateAtom>,
        O: Fn(usize, StateValue) -> Conversion<StrictVal>,
    >(&mut self, operation: Operation, force: bool, reader: &ApiReader<G, O>) -> (r: Result<
        bool,
        MultiError<AcceptError, S::Error>,
    >)
        requires
            old(self).well_formed(),
            operation@.well_formed(),
            pending(old(self).model(), operation@, force) ==> verifiable(
                old(self).model(),
                operation@,
            ),
            usable(*reader),
        ensures
            final(self).id() == old(self).id(),
            final(self).configuration() == old(self).configuration(),
            verify_outcome::<S, G, O>(
                old(self).model(),
                final(self).model(),
                old(self).id(),
                operation,
                force,
                *reader,
                r,
            ),
    {
        if operation.contract_id != self.contract_id() {
            return Err(
                MultiError::A(AcceptError::Articles(SemanticError::ContractMismatch)),
            );
        }
        let opid = operation.opid();
        let present = self.session().is_valid(opid);
        if present && !force {
            return Ok(present);
        }
        let articles = self.articles();
        let state = self.state();
        let verified = match articles.verify(operation, &state.raw) {
            Ok(verified) => verified,
            Err(e) => {
                return Err(MultiError::A(AcceptError::Verify(e)));
            },
        };
        match self.apply_internal(&verified, false, reader) {
            Ok(_) => Ok(present),
            Err(e) => Err(MultiError::B(e)),
        }
    }

    /// Applies a verified operation.
    pub fn apply<
        G: Fn(usize, &StateData) -> Conversion<StateAtom>,
        O: Fn(usize, StateValue) -> Conversion<StrictVal>,
    >(&mut self, operation: VerifiedOperation, reader: &ApiReader<G, O>) -> (r: Result<
        Transition,
        S::Error,
    >)
        requires
            operation.well_formed(),
            applicable(old(self).model(), operation.opid, operation.operation@),
            old(self).model().state.raw.has_inputs(operation.operation@),
            usable(*reader),
        ensures
            final(self).id() == old(self).id(),
            final(self).configuration() == old(self).configuration(),
            r matches Ok(transition) ==> {
                &&& transition@ == old(self).model().state.raw.transition(
                    operation.opid,
                    operation.operation@,
                )
                &&& applied_by(
                    old(self).model(),
                    final(self).model(),
                    operation.opid,
                    operation.operation,
                    old(self).model().valid.contains(operation.opid),
                    *reader,
                )
            },
            r matches Err(e) ==> apply_failure::<S::Session, G, O>(
                old(self).model(),
                operation,
                old(self).model().valid.contains(operation.opid),
                *reader,
                final(self).model(),
                e,
            ),
    {
        let present = self.session().is_valid(operation.opid);
        self.apply_internal(&operation, present, reader)
    }

    /// Records an operation and applies it to the state.
    fn apply_internal<
        G: Fn(usize, &StateData) -> Conversion<StateAtom>,
        O: Fn(usize, StateValue) -> Conversion<StrictVal>,
    >(&mut self, operation: &VerifiedOperation, present: bool, reader: &ApiReader<G, O>) -> (r: Result<
        Transition,
        S::Error,
    >)
        requires
            operation.well_formed(),
            applicable(old(self).model(), operation.opid, operation.operation@),
            old(self).model().state.raw.has_inputs(operation.operation@),
            usable(*reader),
        ensures
            final(self).id() == old(self).id(),
            final(self).configuration() == old(self).configuration(),
            r matches Ok(transition) ==> {
                &&& transition@ == old(self).model().state.raw.transition(
                    operation.opid,
                    operation.operation@,
                )
                &&& transition@.well_formed()
                &&& applied_by(
                    old(self).model(),
                    final(self).model(),
                    operation.opid,
                    operation.operation,
                    present,
                    *reader,
                )
            },
            r matches Err(e) ==> apply_failure::<S::Session, G, O>(
                old(self).model(),
                *operation,
                present,
                *reader,
                final(self).model(),
                e,
            ),
    {
        let readings = reader.read_operation(&self.articles().semantics, &operation.operation);
        let ghost given = readings;
        let r = record(self.session(), operation, present, readings);
        proof {
            assert(readings_by(
                *reader,
                old(self).model().articles.semantics,
                operation.operation,
                given,
            ));
        }
        r
    }
}

/// The data after an operation was recorded and applied, with its outputs read by the reader.
pub open spec fn applied_by<
    G: Fn(usize, &StateData) -> Conversion<StateAtom>,
    O: Fn(usize, StateValue) -> Conversion<StrictVal>,
>(
    before: StockView,
    after: StockView,
    opid: Opid,
    op: Operation,
    present: bool,
    reader: ApiReader<G, O>,
) -> bool {
    exists|readings: Option<Readings>| #[trigger]
        readings_by(reader, before.articles.semantics, op, readings) && recorded(
            before,
            after,
            opid,
            op@,
            present,
            readings,
        )
}

} // verus!
