//! What every call keeps to: each of its parameters has a step of its own.

use crate::apply::AcceptError;
use crate::articles::Articles;
use crate::deed::{call_outcome, done_outcome, steps_of, CallParams, DeedStep};
use crate::family_laws::law_operation_is_verified_before_it_is_applied;
use crate::ledger::MultiError;
use crate::processed::{Conversion, StateAtom};
use crate::reader::ApiReader;
use crate::stock::{Stock, StockView};
use crate::types::{ContractId, Operation, Opid};
use crate::ultra::committed_opid;
use strict_types::StrictVal;
use ultrasonic::StateData;
use ultrasonic::StateValue;
use vstd::prelude::*;

verus! {

/// The steps are one for each global state, one for each owned state, one for each cell which is
/// read and one for each cell which is destroyed, in this order.
pub open spec fn one_step_each(params: CallParams, steps: Seq<DeedStep>) -> bool {
    let g = params.global@.len() as int;
    let o = params.owned@.len() as int;
    let r = params.reading@.len() as int;
    let u = params.using@.len() as int;
    &&& steps.len() == g + o + r + u
    &&& forall|k: int| 0 <= k < g ==> steps[k] == DeedStep::Append(#[trigger] params.global@[k])
    &&& forall|k: int| 0 <= k < o ==> steps[g + k] == DeedStep::Assign(#[trigger] params.owned@[k])
    &&& forall|k: int|
        0 <= k < r ==> steps[g + o + k] == DeedStep::Reading(#[trigger] params.reading@[k])
    &&& forall|k: int|
        0 <= k < u ==> match (#[trigger] params.using@[k]).1 {
            Some(witness) => steps[g + o + r + k] == DeedStep::Satisfying(
                params.using@[k].0,
                witness,
            ),
            None => steps[g + o + r + k] == DeedStep::Using(params.using@[k].0),
        }
}

/// The number of the steps of a call is the sum of the lengths of its four lists, and the k-th
/// element of each list has the k-th step of its kind.
pub proof fn law_each_parameter_has_its_step(params: CallParams)
    ensures
        one_step_each(params, steps_of(params)),
{
}

/// A call hands over a step for each of its parameters, together with the name of its method, and
/// the operation which is made of them is the one which is verified and applied.
pub proof fn law_call_hands_over_each_parameter<
    S: Stock,
    G: Fn(usize, &StateData) -> Conversion<StateAtom>,
    O: Fn(usize, StateValue) -> Conversion<StrictVal>,
    B: Fn(&Articles, String, Vec<DeedStep>) -> Operation,
>(
    before: StockView,
    after: StockView,
    id: ContractId,
    params: CallParams,
    build: B,
    reader: ApiReader<G, O>,
    r: Result<Opid, MultiError<AcceptError, S::Error>>,
)
    requires
        call_outcome::<S, G, O, B>(before, after, id, params, build, reader, r),
    ensures
        exists|steps: Vec<DeedStep>, op: Operation|
            {
                &&& one_step_each(params, steps@)
                &&& #[trigger] call_ensures(build, (&before.articles, params.method, steps), op)
                &&& done_outcome::<S, G, O>(before, after, id, op, reader, r)
                &&& r matches Ok(opid) ==> {
                    &&& opid == committed_opid(op@)
                    &&& after.valid.contains(opid)
                    &&& after.ops.contains_key(opid) && after.ops[opid] == op@
                    &&& after.state.raw == before.state.raw.applied(opid, op@)
                }
            },
{
    law_each_parameter_has_its_step(params);
    let (steps, op) = choose|steps: Vec<DeedStep>, op: Operation|
        {
            &&& steps@ == steps_of(params)
            &&& #[trigger] call_ensures(build, (&before.articles, params.method, steps), op)
            &&& done_outcome::<S, G, O>(before, after, id, op, reader, r)
        };
    if r is Ok {
        let valid: Result<bool, MultiError<AcceptError, S::Error>> = Ok(
            before.valid.contains(committed_opid(op@)),
        );
        law_operation_is_verified_before_it_is_applied::<S, G, O>(
            before,
            after,
            id,
            op,
            true,
            reader,
            valid,
        );
    }
    assert(call_ensures(build, (&before.articles, params.method, steps), op));
}

} // verus!
