//! Parameters of a contract call and the steps which make an operation out of them.

use crate::apply::{pending, placeable, verifiable, verify_outcome, AcceptError};
use crate::articles::Articles;
use crate::ledger::{Ledger, MultiError};
use crate::processed::{Conversion, StateAtom};
use crate::reader::{usable, ApiReader};
use crate::stock::{commit_answer, committed, Stock, StockView};
use crate::types::{AuthToken, CellAddr, ContractId, Operation, Opid};
use crate::ultra::committed_opid;
use strict_types::StrictVal;
use ultrasonic::CellLock;
use ultrasonic::StateData;
use ultrasonic::StateValue;
use vstd::prelude::*;

verus! {

/// Global state which a call defines.
#[derive(Debug)]
pub struct NewGlobal {
    pub name: String,
    pub verified: StrictVal,
    pub unverified: Option<StrictVal>,
}

/// Owned state which a call defines.
#[derive(Debug)]
pub struct NewOwned {
    pub name: String,
    pub auth: AuthToken,
    pub data: StrictVal,
    pub lock: Option<CellLock>,
}

/// Witness which satisfies the lock of a destroyed cell.
#[derive(Debug)]
pub struct Satisfaction {
    pub name: String,
    pub witness: StrictVal,
}

/// Parameters of a contract call.
#[derive(Debug)]
pub struct CallParams {
    pub method: String,
    pub global: Vec<NewGlobal>,
    pub owned: Vec<NewOwned>,
    pub reading: Vec<CellAddr>,
    pub using: Vec<(CellAddr, Option<Satisfaction>)>,
}

/// Step of making an operation.
#[derive(Debug)]
pub enum DeedStep {
    /// Define an immutable cell.
    Append(NewGlobal),
    /// Define a destructible cell.
    Assign(NewOwned),
    /// Read an immutable cell.
    Reading(CellAddr),
    /// Destroy a cell, the lock of which is satisfied by a witness.
    Satisfying(CellAddr, Satisfaction),
    /// Destroy a cell without a lock.
    Using(CellAddr),
}

/// The step which destroys a cell.
pub open spec fn spending_step(entry: (CellAddr, Option<Satisfaction>)) -> DeedStep {
    match entry.1 {
        Some(satisfaction) => DeedStep::Satisfying(entry.0, satisfaction),
        None => DeedStep::Using(entry.0),
    }
}

/// The steps of a call: first its global state, then the owned one, then what it reads, then what it
/// destroys.
pub open spec fn steps_of(params: CallParams) -> Seq<DeedStep> {
    params.global@.map_values(|state: NewGlobal| DeedStep::Append(state)) + params.owned@.map_values(
        |state: NewOwned| DeedStep::Assign(state),
    ) + params.reading@.map_values(|addr: CellAddr| DeedStep::Reading(addr))
        + params.using@.map_values(
        |entry: (CellAddr, Option<Satisfaction>)| spending_step(entry),
    )
}

impl CallParams {
    /// The method which is called, and the steps which make an operation of the call.
    pub fn into_steps(self) -> (r: (String, Vec<DeedStep>))
        ensures
            r.0 == self.method,
            r.1@ == steps_of(self),
    {
        let ghost globals = self.global@.map_values(|state: NewGlobal| DeedStep::Append(state));
        let ghost owned = self.owned@.map_values(|state: NewOwned| DeedStep::Assign(state));
        let ghost reads = self.reading@.map_values(|addr: CellAddr| DeedStep::Reading(addr));
        let ghost spends = self.using@.map_values(
            |entry: (CellAddr, Option<Satisfaction>)| spending_step(entry),
        );
        let CallParams { method, global: global_list, owned: owned_list, reading, using } = self;
        let mut steps: Vec<DeedStep> = Vec::new();
        for state in it: global_list
            invariant
                it.seq() == global_list@,
                globals == global_list@.map_values(|state: NewGlobal| DeedStep::Append(state)),
                steps@ == globals.take(it.index() as int),
        {
            steps.push(DeedStep::Append(state));
            assert(steps@ =~= globals.take(it.index() + 1));
        }
        assert(steps@ =~= globals + owned.take(0));
        for state in it: owned_list
            invariant
                it.seq() == owned_list@,
                owned == owned_list@.map_values(|state: NewOwned| DeedStep::Assign(state)),
                steps@ == globals + owned.take(it.index() as int),
        {
            steps.push(DeedStep::Assign(state));
            assert(steps@ =~= globals + owned.take(it.index() + 1));
        }
        assert(steps@ =~= globals + owned + reads.take(0));
        for addr in it: reading
            invariant
                it.seq() == reading@,
                reads == reading@.map_values(|addr: CellAddr| DeedStep::Reading(addr)),
                steps@ == globals + owned + reads.take(it.index() as int),
        {
            steps.push(DeedStep::Reading(addr));
            assert(steps@ =~= globals + owned + reads.take(it.index() + 1));
        }
        assert(steps@ =~= globals + owned + reads + spends.take(0));
        for entry in it: using
            invariant
                it.seq() == using@,
                spends == using@.map_values(
                    |entry: (CellAddr, Option<Satisfaction>)| spending_step(entry),
                ),
                steps@ == globals + owned + reads + spends.take(it.index() as int),
        {
            let ghost step = spending_step(entry);
            let (addr, satisfaction) = entry;
            match satisfaction {
                Some(satisfaction) => steps.push(DeedStep::Satisfying(addr, satisfaction)),
                None => steps.push(DeedStep::Using(addr)),
            }
            assert(steps@.last() == step);
            assert(steps@ =~= globals + owned + reads + spends.take(it.index() + 1));
        }
        assert(steps@ =~= globals + owned + reads + spends);
        (method, steps)
    }
}

/// A call makes an operation, whatever its steps are.
pub open spec fn makes<B: Fn(&Articles, String, Vec<DeedStep>) -> Operation>(build: B) -> bool {
    &&& forall|articles: Articles, method: String, steps: Vec<DeedStep>| #[trigger]
        call_requires(build, (&articles, method, steps))
    &&& forall|articles: Articles, method: String, steps: Vec<DeedStep>, op: Operation| #[trigger]
        call_ensures(build, (&articles, method, steps), op) ==> op@.well_formed()
}

/// A call makes an operation which can be verified, and applied if it is accepted.
pub open spec fn builds<B: Fn(&Articles, String, Vec<DeedStep>) -> Operation>(
    model: StockView,
    build: B,
) -> bool {
    &&& makes(build)
    &&& forall|articles: Articles, method: String, steps: Vec<DeedStep>, op: Operation| #[trigger]
        call_ensures(build, (&articles, method, steps), op) && pending(model, op@, true)
            ==> verifiable(model, op@)
}

/// Outcome of a call: an operation is made of its steps, verified, applied and persisted.
pub open spec fn call_outcome<
    S: Stock,
    G: Fn(usize, &StateData) -> Conversion<StateAtom>,
    O: Fn(usize, StateValue) -> Conversion<StrictVal>,
    B: Fn(&Articles, String, Vec<DeedStep>) -> Operation,
>(
    before: StockView,
    after: StockView,
    id: ContractId,
    params: CallParams,
    build: B,
    reader: ApiReader<G, O>,
    r: Result<Opid, MultiError<AcceptError, S::Error>>,
) -> bool {
    exists|steps: Vec<DeedStep>, op: Operation|
        {
            &&& steps@ == steps_of(params)
            &&& #[trigger] call_ensures(build, (&before.articles, params.method, steps), op)
            &&& done_outcome::<S, G, O>(before, after, id, op, reader, r)
        }
}

/// Outcome of verifying and applying an operation and of persisting it.
pub open spec fn done_outcome<
    S: Stock,
    G: Fn(usize, &StateData) -> Conversion<StateAtom>,
    O: Fn(usize, StateValue) -> Conversion<StrictVal>,
>(
    before: StockView,
    after: StockView,
    id: ContractId,
    op: Operation,
    reader: ApiReader<G, O>,
    r: Result<Opid, MultiError<AcceptError, S::Error>>,
) -> bool {
    let opid = committed_opid(op@);
    let valid: Result<bool, MultiError<AcceptError, S::Error>> = Ok(before.valid.contains(opid));
    match r {
        Ok(id_of_op) => {
            &&& id_of_op == opid
            &&& verify_outcome::<S, G, O>(before, after, id, op, true, reader, valid)
            &&& committed::<S::Session>(after)
        },
        Err(MultiError::A(reason)) => verify_outcome::<S, G, O>(
            before,
            after,
            id,
            op,
            true,
            reader,
            Err(MultiError::A(reason)),
        ),
        Err(MultiError::B(e)) => {
            ||| verify_outcome::<S, G, O>(
                before,
                after,
                id,
                op,
                true,
                reader,
                Err(MultiError::B(e)),
            )
            ||| {
                &&& verify_outcome::<S, G, O>(before, after, id, op, true, reader, valid)
                &&& commit_answer::<S::Session>(after, Err(e))
            }
        },
    }
}

impl<S: Stock> Ledger<S> {
    /// Makes an operation of a call, verifies and applies it, and persists what has been done.
    pub fn call<
        G: Fn(usize, &StateData) -> Conversion<StateAtom>,
        O: Fn(usize, StateValue) -> Conversion<StrictVal>,
        B: Fn(&Articles, String, Vec<DeedStep>) -> Operation,
    >(&mut self, params: CallParams, build: &B, reader: &ApiReader<G, O>) -> (r: Result<
        Opid,
        MultiError<AcceptError, S::Error>,
    >)
        requires
            old(self).well_formed(),
            builds(old(self).model(), *build),
            usable(*reader),
        ensures
            final(self).id() == old(self).id(),
            final(self).configuration() == old(self).configuration(),
            call_outcome::<S, G, O, B>(
                old(self).model(),
                final(self).model(),
                old(self).id(),
                params,
                *build,
                *reader,
                r,
            ),
    {
        let ghost before = self.model();
        let ghost given = params;
        let (method, steps) = params.into_steps();
        let ghost made = steps;
        let op = build(self.articles(), method, steps);
        let ghost built = op;
        assert(call_ensures(*build, (&before.articles, given.method, made), built));
        let opid = op.opid();
        match self.apply_verify(op, true, reader) {
            Ok(_) => {
                let done = self.commit_transaction();
                let ghost answer = done;
                match done {
                    Ok(()) => {
                        assert(commit_answer::<S::Session>(self.model(), answer));
                        Ok(opid)
                    },
                    Err(e) => Err(MultiError::B(e)),
                }
            },
            Err(MultiError::A(reason)) => Err(MultiError::A(reason)),
            Err(MultiError::B(e)) => Err(MultiError::B(e)),
        }
    }

    /// Makes an operation of a call, verifies and applies it, and persists what has been done,
    /// unless the operation can't have its place in the state. Nothing is done then.
    pub fn try_call<
        G: Fn(usize, &StateData) -> Conversion<StateAtom>,
        O: Fn(usize, StateValue) -> Conversion<StrictVal>,
        B: Fn(&Articles, String, Vec<DeedStep>) -> Operation,
    >(&mut self, params: CallParams, build: &B, reader: &ApiReader<G, O>) -> (r: Option<
        Result<Opid, MultiError<AcceptError, S::Error>>,
    >)
        requires
            old(self).well_formed(),
            makes(*build),
            usable(*reader),
        ensures
            final(self).id() == old(self).id(),
            final(self).configuration() == old(self).configuration(),
            exists|steps: Vec<DeedStep>, op: Operation|
                {
                    &&& steps@ == steps_of(params)
                    &&& #[trigger] call_ensures(
                        *build,
                        (&old(self).model().articles, params.method, steps),
                        op,
                    )
                    &&& r is None <==> pending(old(self).model(), op@, true) && !placeable(
                        old(self).model(),
                        op@,
                    )
                    &&& match r {
                        None => final(self).model() == old(self).model(),
                        Some(result) => done_outcome::<S, G, O>(
                            old(self).model(),
                            final(self).model(),
                            old(self).id(),
                            op,
                            *reader,
                            result,
                        ),
                    }
                },
    {
        let ghost before = self.model();
        let ghost given = params;
        let (method, steps) = params.into_steps();
        let ghost made = steps;
        let op = build(self.articles(), method, steps);
        let ghost built = op;
        assert(call_ensures(*build, (&before.articles, given.method, made), built));
        let opid = op.opid();
        match self.try_apply_verify(op, true, reader) {
            None => None,
            Some(Ok(_)) => {
                let done = self.commit_transaction();
                let ghost answer = done;
                match done {
                    Ok(()) => {
                        assert(commit_answer::<S::Session>(self.model(), answer));
                        Some(Ok(opid))
                    },
                    Err(e) => Some(Err(MultiError::B(e))),
                }
            },
            Some(Err(MultiError::A(reason))) => Some(Err(MultiError::A(reason))),
            Some(Err(MultiError::B(e))) => Some(Err(MultiError::B(e))),
        }
    }
}

} // verus!
