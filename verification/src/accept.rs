//! Acceptance of a stream of deeds.

use crate::apply::{
    applied_by, apply_failure, has_distinct_inputs, pending, placeable, recorded, AcceptError,
    SemanticError,
};
use crate::articles::{has_reads, lemma_applied_grows, Articles};
use crate::bytes::{
    lemma_big_endian_len, lemma_big_endian_limit, lemma_limits, lemma_little_endian_reads_back,
    little_endian, little_endian_value, read_little_endian,
};
use crate::cells::MAX_STATE;
use crate::field::{fits_anyway, lemma_stays_in_field, outputs_in_field, runs_anyway};
use crate::forward::{accepted, has_places, refused};
use crate::ledger::{Ledger, MultiError};
use crate::processed::{Conversion, StateAtom};
use crate::reader::{readings_by, usable, ApiReader};
use crate::state::Readings;
use crate::raw::VerifiedOperation;
use crate::stock::{commit_answer, committed, update_answer, Stock, StockSession, StockView};
use crate::stream::{
    all_well_formed, header, header_bytes, law_header_reads_back, operation_bytes, operations_bytes,
    read_header, read_operation, reports, stream_operations, HeaderError, HeaderFault,
    NextOperation, StreamError,
};
use crate::ledger_export::plain_deeds_bytes;
use crate::types::{ContractId, Operation, OperationView};
use crate::ultra::committed_opid;
use aluvm::Lib;
use strict_types::StrictVal;
use ultrasonic::StateData;
use ultrasonic::StateValue;
use vstd::prelude::*;

verus! {

/// Refusal to upgrade articles: the fault, and the words which explain it.
#[derive(Debug)]
pub struct UpgradeError {
    pub fault: SemanticError,
    pub text: String,
}

/// An upgrade of articles keeps the contract; its libraries are those of the one or of the other.
pub open spec fn upgrades<U: Fn(&Articles, Articles) -> Result<(Articles, bool), UpgradeError>>(
    upgrade: U,
) -> bool {
    &&& forall|old_articles: Articles, new_articles: Articles| #[trigger]
        call_requires(upgrade, (&old_articles, new_articles))
    &&& forall|
        old_articles: Articles,
        new_articles: Articles,
        articles: Articles,
        upgraded: bool,
    | #[trigger]
        call_ensures(upgrade, (&old_articles, new_articles), Ok((articles, upgraded)))
            && old_articles.well_formed() ==> {
            &&& articles.well_formed()
            &&& articles.contract_id == old_articles.contract_id
            &&& articles.genesis@ == old_articles.genesis@
            &&& articles.codex == old_articles.codex
            &&& articles.codex_libs@ == old_articles.codex_libs@ || articles.codex_libs@
                == new_articles.codex_libs@
        }
}

/// The data after an operation of a stream was applied, unless it was valid before.
pub open spec fn admitted<
    G: Fn(usize, &StateData) -> Conversion<StateAtom>,
    O: Fn(usize, StateValue) -> Conversion<StrictVal>,
>(before: StockView, after: StockView, op: OperationView, reader: ApiReader<G, O>) -> bool {
    if op.contract_id == before.articles.contract_id && before.valid.contains(committed_opid(op)) {
        after == before
    } else {
        exists|operation: Operation|
            {
                &&& operation@ == op
                &&& accepted(before, op)
                &&& before.state.raw.has_inputs(op)
                &&& has_reads(before.state.raw, op)
                &&& #[trigger] applied_by(
                    before,
                    after,
                    committed_opid(op),
                    operation,
                    false,
                    reader,
                )
            }
    }
}

/// The data after the operations of a stream were applied, one by one.
pub open spec fn admitted_all<
    G: Fn(usize, &StateData) -> Conversion<StateAtom>,
    O: Fn(usize, StateValue) -> Conversion<StrictVal>,
>(before: StockView, after: StockView, ops: Seq<OperationView>, reader: ApiReader<G, O>) -> bool
    decreases ops.len(),
{
    if ops.len() == 0 {
        after == before
    } else {
        exists|mid: StockView|
            admitted_all(before, mid, ops.drop_last(), reader) && #[trigger] admitted(
                mid,
                after,
                ops.last(),
                reader,
            )
    }
}

/// The contract does not accept an operation of a stream, for the given reason.
pub open spec fn rejected(model: StockView, op: OperationView, reason: AcceptError) -> bool {
    &&& op.contract_id == model.articles.contract_id ==> !model.valid.contains(committed_opid(op))
    &&& refused(model, op, reason)
}

/// The numbers of the destructible and of the immutable outputs of operations.
pub open spec fn total_outputs(ops: Seq<OperationView>) -> (nat, nat)
    decreases ops.len(),
{
    if ops.len() == 0 {
        (0, 0)
    } else {
        let earlier = total_outputs(ops.drop_last());
        (
            earlier.0 + ops.last().destructible_out.len(),
            earlier.1 + ops.last().immutable_out.len(),
        )
    }
}

/// The operations can be applied in any case: none of them destroys a cell twice, there is place for
/// their outputs, and the verification of each runs through, whichever of the others come before it.
pub open spec fn admissible(model: StockView, libs: Seq<Lib>, ops: Seq<OperationView>) -> bool {
    &&& forall|i: int|
        0 <= i < ops.len() ==> {
            &&& (#[trigger] ops[i]).distinct_inputs()
            &&& runs_anyway(
                model.articles.codex,
                libs,
                ops[i],
                model.state.raw.taken_by(ops[i]),
                model.state.raw.read_by(ops[i]),
            )
            &&& outputs_in_field(model.articles.codex, libs, ops[i])
        }
    &&& has_places(model.state.raw, total_outputs(ops))
}

/// Each of the operations can be applied when its turn comes, unless it is valid then or refused.
pub open spec fn acceptable<
    G: Fn(usize, &StateData) -> Conversion<StateAtom>,
    O: Fn(usize, StateValue) -> Conversion<StrictVal>,
>(before: StockView, ops: Seq<OperationView>, reader: ApiReader<G, O>) -> bool {
    forall|i: int, mid: StockView|
        0 <= i < ops.len() && #[trigger] admitted_all(before, mid, ops.take(i), reader) && pending(
            mid,
            ops[i],
            false,
        ) ==> placeable(mid, ops[i])
}

/// The operations were applied up to one which can't have its place in the state.
pub open spec fn stuck<
    G: Fn(usize, &StateData) -> Conversion<StateAtom>,
    O: Fn(usize, StateValue) -> Conversion<StrictVal>,
>(before: StockView, after: StockView, ops: Seq<OperationView>, reader: ApiReader<G, O>) -> bool {
    exists|i: int|
        {
            &&& 0 <= i < ops.len()
            &&& admitted_all(before, after, #[trigger] ops.take(i), reader)
            &&& pending(after, ops[i], false)
            &&& !placeable(after, ops[i])
        }
}

/// The storage fails to apply one of the operations of a stream, or to persist that all of them were
/// applied.
pub open spec fn admit_failure<
    Z: StockSession,
    G: Fn(usize, &StateData) -> Conversion<StateAtom>,
    O: Fn(usize, StateValue) -> Conversion<StrictVal>,
>(
    before: StockView,
    ops: Seq<OperationView>,
    faulty: bool,
    reader: ApiReader<G, O>,
    after: StockView,
    e: Z::Error,
) -> bool {
    ||| exists|i: int, mid: StockView, operation: Operation|
        {
            &&& 0 <= i < ops.len()
            &&& #[trigger] admitted_all(before, mid, ops.take(i), reader)
            &&& operation@ == ops[i]
            &&& !mid.valid.contains(committed_opid(ops[i]))
            &&& accepted(mid, ops[i])
            &&& #[trigger] apply_failure::<Z, G, O>(
                mid,
                VerifiedOperation { opid: committed_opid(ops[i]), operation },
                false,
                reader,
                after,
                e,
            )
        }
    ||| !faulty && admitted_all(before, after, ops, reader) && commit_answer::<Z>(after, Err(e))
}

/// Operations which can be applied in any case can be applied when their turn comes.
proof fn lemma_admissible<
    G: Fn(usize, &StateData) -> Conversion<StateAtom>,
    O: Fn(usize, StateValue) -> Conversion<StrictVal>,
>(before: StockView, mid: StockView, ops: Seq<OperationView>, i: int, reader: ApiReader<G, O>)
    requires
        admissible(before, before.articles.codex_libs@, ops),
        all_well_formed(ops),
        0 <= i <= ops.len(),
        admitted_all(before, mid, ops.take(i), reader),
    ensures
        mid.articles == before.articles,
        has_places(
            mid.state.raw,
            (
                (total_outputs(ops).0 - total_outputs(ops.take(i)).0) as nat,
                (total_outputs(ops).1 - total_outputs(ops.take(i)).1) as nat,
            ),
        ),
        forall|k: int|
            0 <= k < ops.len() ==> before.articles.runs_anyway(#[trigger] ops[k], mid.state.raw),
        i < ops.len() ==> placeable(mid, ops[i]),
    decreases i,
{
    if i == 0 {
        assert(ops.take(0) =~= Seq::empty());
    } else {
        assert(ops.take(i).drop_last() =~= ops.take(i - 1));
        assert(ops.take(i).last() == ops[i - 1]);
        let prior = choose|prior: StockView|
            admitted_all(before, prior, ops.take(i).drop_last(), reader) && #[trigger] admitted(
                prior,
                mid,
                ops.take(i).last(),
                reader,
            );
        lemma_admissible(before, prior, ops, i - 1, reader);
        lemma_total_step(ops, i - 1);
        let op = ops[i - 1];
        assert(op.well_formed());
        let opid = committed_opid(op);
        if !(op.contract_id == prior.articles.contract_id && prior.valid.contains(opid)) {
            let operation = choose|operation: Operation|
                {
                    &&& operation@ == op
                    &&& accepted(prior, op)
                    &&& prior.state.raw.has_inputs(op)
                    &&& has_reads(prior.state.raw, op)
                    &&& #[trigger] applied_by(prior, mid, opid, operation, false, reader)
                };
            assert(mid.state.raw == prior.state.raw.applied(opid, op));
            lemma_applied_grows(prior.state.raw, opid, op);
            assert forall|k: int| 0 <= k < ops.len() implies before.articles.runs_anyway(
                #[trigger] ops[k],
                mid.state.raw,
            ) by {
                lemma_stays_in_field(
                    before.articles.codex,
                    before.articles.codex_libs@,
                    prior.state.raw,
                    opid,
                    op,
                    ops[k],
                );
            }
        }
    }
    if i < ops.len() {
        lemma_total_step(ops, i);
    }
}

/// A longer list has no fewer outputs.
proof fn lemma_total_step(ops: Seq<OperationView>, i: int)
    requires
        0 <= i < ops.len(),
    ensures
        total_outputs(ops.take(i + 1)).0 == total_outputs(ops.take(i)).0
            + ops[i].destructible_out.len(),
        total_outputs(ops.take(i + 1)).1 == total_outputs(ops.take(i)).1
            + ops[i].immutable_out.len(),
        total_outputs(ops.take(i + 1)).0 <= total_outputs(ops).0,
        total_outputs(ops.take(i + 1)).1 <= total_outputs(ops).1,
    decreases ops.len() - i,
{
    assert(ops.take(i + 1).drop_last() =~= ops.take(i));
    if i + 1 < ops.len() {
        lemma_total_step(ops, i + 1);
    } else {
        assert(ops.take(i + 1) =~= ops);
    }
}

/// Outcome of applying the operations of a stream.
pub open spec fn operations_outcome<
    S: Stock,
    G: Fn(usize, &StateData) -> Conversion<StateAtom>,
    O: Fn(usize, StateValue) -> Conversion<StrictVal>,
>(
    before: StockView,
    after: StockView,
    bytes: Seq<u8>,
    n: nat,
    reader: ApiReader<G, O>,
    r: Result<(), MultiError<AcceptError, S::Error>>,
) -> bool {
    let (ops, faulty) = stream_operations(bytes, n);
    match r {
        Ok(()) => {
            &&& !faulty
            &&& admitted_all(before, after, ops, reader)
            &&& committed::<S::Session>(after)
        },
        Err(MultiError::A(reason)) => {
            ||| faulty && admitted_all(before, after, ops, reader) && reason matches AcceptError::Decode(
                StreamError::Operation(_),
            )
            ||| exists|i: int|
                {
                    &&& 0 <= i < ops.len()
                    &&& admitted_all(before, after, #[trigger] ops.take(i), reader)
                    &&& rejected(after, ops[i], reason)
                }
        },
        Err(MultiError::B(e)) => admit_failure::<S::Session, G, O>(
            before,
            ops,
            faulty,
            reader,
            after,
            e,
        ),
    }
}

impl<S: Stock> Ledger<S> {
    /// Applies the operations which stand at the given place of a stream, no more than the given
    /// number of them, up to one which can't have its place in the state.
    fn try_operations<
        G: Fn(usize, &StateData) -> Conversion<StateAtom>,
        O: Fn(usize, StateValue) -> Conversion<StrictVal>,
    >(&mut self, stream: &Vec<u8>, start: usize, count: u64, reader: &ApiReader<G, O>) -> (r: Option<
        Result<(), MultiError<AcceptError, S::Error>>,
    >)
        requires
            old(self).well_formed(),
            start <= stream.len(),
            usable(*reader),
        ensures
            final(self).id() == old(self).id(),
            final(self).configuration() == old(self).configuration(),
            match r {
                None => stuck(
                    old(self).model(),
                    final(self).model(),
                    stream_operations(stream@.skip(start as int), count as nat).0,
                    *reader,
                ),
                Some(result) => operations_outcome::<S, G, O>(
                    old(self).model(),
                    final(self).model(),
                    stream@.skip(start as int),
                    count as nat,
                    *reader,
                    result,
                ),
            },
    {
        let ghost before = self.model();
        let ghost whole = stream_operations(stream@.skip(start as int), count as nat);
        let ghost ops = whole.0;
        let mut at: usize = start;
        let mut left: u64 = count;
        let ghost mut i: int = 0;
        proof {
            assert(ops.take(0) =~= Seq::empty());
            assert(ops.skip(0) =~= ops);
        }
        while left > 0
            invariant
                at <= stream.len(),
                0 <= i <= ops.len(),
                ops == whole.0,
                stream_operations(stream@.skip(at as int), left as nat) == (
                    ops.skip(i),
                    whole.1,
                ),
                usable(*reader),
                self.well_formed(),
                self.id() == old(self).id(),
                self.configuration() == old(self).configuration(),
                self.model().articles == before.articles,
                before == old(self).model(),
                whole == stream_operations(stream@.skip(start as int), count as nat),
                admitted_all(before, self.model(), ops.take(i), *reader),
            ensures
                ops.skip(i).len() == 0,
                !whole.1,
            decreases left,
        {
            let ghost mid = self.model();
            let ghost rest = stream@.skip(at as int);
            match read_operation(stream, at) {
                NextOperation::End => {
                    break;
                },
                NextOperation::Fault(e) => {
                    assert(ops.take(i) =~= ops);
                    return Some(
                        Err(MultiError::A(AcceptError::Decode(StreamError::Operation(e)))),
                    );
                },
                NextOperation::Read(op, end) => {
                    let ghost given = op;
                    proof {
                        let tail = stream_operations(rest.skip(end - at), (left - 1) as nat);
                        assert(ops.skip(i) == seq![op@] + tail.0);
                        assert(ops.skip(i)[0] == op@);
                        assert(ops[i] == op@);
                        assert(rest.skip(end - at) =~= stream@.skip(end as int));
                        assert(ops.skip(i + 1) =~= tail.0) by {
                            assert(ops.skip(i + 1) =~= ops.skip(i).skip(1));
                            assert((seq![op@] + tail.0).skip(1) =~= tail.0);
                        }
                        assert(ops.take(i + 1).drop_last() =~= ops.take(i));
                        assert(ops.take(i + 1).last() == op@);
                    }
                    match self.try_apply_verify(op, false, reader) {
                        None => {
                            assert(stuck(before, self.model(), ops, *reader));
                            return None;
                        },
                        Some(Ok(_)) => {},
                        Some(Err(MultiError::A(reason))) => {
                            assert(rejected(mid, ops[i], reason));
                            return Some(Err(MultiError::A(reason)));
                        },
                        Some(Err(MultiError::B(e))) => {
                            proof {
                                assert(admitted_all(before, mid, ops.take(i), *reader));
                                assert(apply_failure::<S::Session, G, O>(
                                    mid,
                                    VerifiedOperation {
                                        opid: committed_opid(ops[i]),
                                        operation: given,
                                    },
                                    false,
                                    *reader,
                                    self.model(),
                                    e,
                                ));
                            }
                            return Some(Err(MultiError::B(e)));
                        },
                    }
                    proof {
                        let after = self.model();
                        if !mid.valid.contains(committed_opid(given@)) {
                            let readings = choose|readings: Option<Readings>| #[trigger]
                                readings_by(*reader, mid.articles.semantics, given, readings)
                                    && recorded(
                                    mid,
                                    after,
                                    committed_opid(given@),
                                    given@,
                                    false,
                                    readings,
                                );
                            assert(applied_by(
                                mid,
                                after,
                                committed_opid(given@),
                                given,
                                false,
                                *reader,
                            ));
                        }
                        assert(admitted(mid, after, ops.take(i + 1).last(), *reader));
                        i = i + 1;
                    }
                    at = end;
                    left = left - 1;
                },
            }
        }
        proof {
            assert(ops.take(i) =~= ops);
        }
        let done = self.commit_transaction();
        let ghost answer = done;
        match done {
            Ok(()) => {
                assert(commit_answer::<S::Session>(self.model(), answer));
                Some(Ok(()))
            },
            Err(e) => Some(Err(MultiError::B(e))),
        }
    }
}

/// The number of operations announced at the given place of a stream.
pub open spec fn announced(bytes: Seq<u8>, at: nat) -> Option<nat> {
    if at + 4 > bytes.len() {
        None
    } else {
        Some(little_endian_value(bytes.subrange(at as int, at as int + 4)))
    }
}

/// The operations which follow the articles in a stream can be applied.
pub open spec fn fits<
    G: Fn(usize, &StateData) -> Conversion<StateAtom>,
    O: Fn(usize, StateValue) -> Conversion<StrictVal>,
>(model: StockView, bytes: Seq<u8>, at: nat, reader: ApiReader<G, O>) -> bool {
    announced(bytes, at) matches Some(count) ==> acceptable(
        model,
        stream_operations(bytes.skip(at as int + 4), count + 1).0,
        reader,
    )
}

/// The storage fails to replace the articles.
pub open spec fn update_failure<Z: StockSession>(
    before: StockView,
    articles: Articles,
    after: StockView,
    e: Z::Error,
) -> bool {
    &&& update_answer::<Z>(before, articles, Err(e))
    &&& Z::leaves(before, after, e)
}

/// The storage fails to replace the articles, and explains the failure with the given words.
pub open spec fn upgrade_failure<S: Stock>(
    before: StockView,
    articles: Articles,
    after: StockView,
    text: String,
) -> bool {
    exists|e: S::Error|
        {
            &&& update_failure::<S::Session>(before, articles, after, e)
            &&& #[trigger] call_ensures(S::describe, (&e,), text)
        }
}

/// An operation of a stream, the beginning of which was read, can't have its place in the state.
pub open spec fn accept_stuck<
    G: Fn(usize, &StateData) -> Conversion<StateAtom>,
    O: Fn(usize, StateValue) -> Conversion<StrictVal>,
    U: Fn(&Articles, Articles) -> Result<(Articles, bool), UpgradeError>,
>(
    before: StockView,
    after: StockView,
    bytes: Seq<u8>,
    start: Result<(Articles, usize), AcceptError>,
    upgrade: U,
    reader: ApiReader<G, O>,
) -> bool {
    match start {
        Err(_) => false,
        Ok((articles, end)) => exists|upgraded: Articles, flag: bool|
            {
                &&& #[trigger] call_ensures(
                    upgrade,
                    (&before.articles, articles),
                    Ok((upgraded, flag)),
                )
                &&& announced(bytes, end as nat) matches Some(count) && stuck(
                    StockView { articles: upgraded, ..before },
                    after,
                    stream_operations(bytes.skip(end as int + 4), count + 1).0,
                    reader,
                )
            },
    }
}

/// Operations which were written after the articles are read back.
pub open spec fn reads_back(bytes: Seq<u8>, at: nat) -> bool {
    forall|ops: Seq<OperationView>|
        all_well_formed(ops) && announced(bytes, at) == Some(ops.len()) && bytes.skip(at as int + 4)
            == #[trigger] operations_bytes(ops) ==> stream_operations(
            bytes.skip(at as int + 4),
            ops.len() + 1,
        ) == (ops, false)
}

/// A stream which was exported announces its operations after the articles.
pub proof fn law_exported_stream_opens(id: ContractId, articles: Seq<u8>, ops: Seq<OperationView>)
    requires
        ops.len() <= u32::MAX,
    ensures
        ({
            let stream = plain_deeds_bytes(id, articles, ops);
            &&& header(stream) == Ok::<(ContractId, nat), HeaderFault>((id, 34))
            &&& stream.subrange(34, 34 + articles.len() as int) == articles
            &&& announced(stream, 34 + articles.len()) == Some(ops.len())
            &&& stream.skip(38 + articles.len() as int) == operations_bytes(ops)
        }),
{
    let stream = plain_deeds_bytes(id, articles, ops);
    let count = little_endian(ops.len(), 4);
    let tail = operations_bytes(ops);
    lemma_limits();
    lemma_little_endian_reads_back(ops.len(), 4);
    lemma_big_endian_len(id.hi as nat, 16);
    lemma_big_endian_len(id.lo as nat, 16);
    assert(header_bytes(id).len() == 34);
    assert(stream =~= header_bytes(id) + (articles + count + tail));
    law_header_reads_back(id, articles + count + tail);
    assert(stream.subrange(34, 34 + articles.len() as int) =~= articles);
    let at = 34 + articles.len();
    assert(stream.subrange(at as int, at as int + 4) =~= count);
    assert(stream.skip(at as int + 4) =~= tail);
}

/// Outcome of reading the beginning of a stream up to the end of the articles.
pub open spec fn opened<D: Fn(&Vec<u8>, usize) -> Result<(Articles, usize), AcceptError>>(
    stream: Vec<u8>,
    decode: D,
    r: Result<(Articles, usize), AcceptError>,
) -> bool {
    match header(stream@) {
        Err(fault) => match r {
            Err(AcceptError::Decode(e)) => reports(fault, HeaderError::Decode(e)),
            Err(AcceptError::Io(e)) => reports(fault, HeaderError::Io(e)),
            _ => false,
        },
        Ok((id, at)) => exists|outcome: Result<(Articles, usize), AcceptError>|
            {
                &&& #[trigger] call_ensures(decode, (&stream, at as usize), outcome)
                &&& match outcome {
                    Err(e) => r == Err::<(Articles, usize), AcceptError>(e),
                    Ok((articles, end)) => if articles.contract_id != id {
                        r matches Err(AcceptError::Articles(SemanticError::ContractMismatch))
                    } else {
                        r == Ok::<(Articles, usize), AcceptError>((articles, end))
                    },
                }
            },
    }
}

/// The articles can be decoded anywhere in a stream.
pub open spec fn decodes<D: Fn(&Vec<u8>, usize) -> Result<(Articles, usize), AcceptError>>(
    decode: D,
) -> bool {
    &&& forall|stream: Vec<u8>, at: usize| #[trigger] call_requires(decode, (&stream, at))
    &&& forall|stream: Vec<u8>, at: usize, articles: Articles, end: usize| #[trigger]
        call_ensures(decode, (&stream, at), Ok((articles, end))) ==> at <= end <= stream@.len()
            && articles.well_formed()
}

/// Outcome of accepting what follows the articles in a stream, given the outcome of the upgrade.
pub open spec fn accept_step<
    S: Stock,
    G: Fn(usize, &StateData) -> Conversion<StateAtom>,
    O: Fn(usize, StateValue) -> Conversion<StrictVal>,
>(
    before: StockView,
    after: StockView,
    bytes: Seq<u8>,
    end: usize,
    outcome: Result<(Articles, bool), UpgradeError>,
    reader: ApiReader<G, O>,
    r: Result<(), MultiError<AcceptError, S::Error>>,
) -> bool {
    match outcome {
        Err(e) => {
            &&& r matches Err(MultiError::A(AcceptError::Persistence(text)))
            &&& text@ == e.text@
            &&& after == before
        },
        Ok((upgraded, _)) => {
            let mid = StockView { articles: upgraded, ..before };
            ||| {
                &&& r matches Err(MultiError::A(AcceptError::Persistence(text)))
                &&& upgrade_failure::<S>(before, upgraded, after, text)
            }
            ||| match announced(bytes, end as nat) {
                None => {
                    &&& r matches Err(
                        MultiError::A(AcceptError::Decode(StreamError::UnexpectedEnd)),
                    )
                    &&& after == mid
                },
                Some(count) => operations_outcome::<S, G, O>(
                    mid,
                    after,
                    bytes.skip(end as int + 4),
                    count + 1,
                    reader,
                    r,
                ),
            }
        },
    }
}

/// Outcome of accepting a stream, the beginning of which was read.
pub open spec fn accept_outcome<
    S: Stock,
    G: Fn(usize, &StateData) -> Conversion<StateAtom>,
    O: Fn(usize, StateValue) -> Conversion<StrictVal>,
    U: Fn(&Articles, Articles) -> Result<(Articles, bool), UpgradeError>,
>(
    before: StockView,
    after: StockView,
    bytes: Seq<u8>,
    start: Result<(Articles, usize), AcceptError>,
    upgrade: U,
    reader: ApiReader<G, O>,
    r: Result<(), MultiError<AcceptError, S::Error>>,
) -> bool {
    match start {
        Err(reason) => r == Err::<(), MultiError<AcceptError, S::Error>>(MultiError::A(reason)) && after
            == before,
        Ok((articles, end)) => exists|outcome: Result<(Articles, bool), UpgradeError>|
            {
                &&& #[trigger] call_ensures(upgrade, (&before.articles, articles), outcome)
                &&& accept_step::<S, G, O>(before, after, bytes, end, outcome, reader, r)
            },
    }
}

/// Reads the beginning of a stream up to the end of the articles.
pub fn open_stream<D: Fn(&Vec<u8>, usize) -> Result<(Articles, usize), AcceptError>>(
    stream: &Vec<u8>,
    decode: &D,
) -> (r: Result<(Articles, usize), AcceptError>)
    requires
        decodes(*decode),
    ensures
        opened(*stream, *decode, r),
        r matches Ok((articles, end)) ==> end <= stream.len() && articles.well_formed(),
{
    let (contract_id, at) = match read_header(stream) {
        Ok(found) => found,
        Err(HeaderError::Decode(e)) => {
            return Err(AcceptError::Decode(e));
        },
        Err(HeaderError::Io(e)) => {
            return Err(AcceptError::Io(e));
        },
    };
    match decode(stream, at) {
        Err(e) => Err(e),
        Ok((articles, end)) => {
            if articles.contract_id != contract_id {
                return Err(AcceptError::Articles(SemanticError::ContractMismatch));
            }
            Ok((articles, end))
        },
    }
}

impl<S: Stock> Ledger<S> {
    /// Upgrades the APIs of the contract to those of newer articles. Tells whether anything has
    /// changed.
    pub fn upgrade_apis<U: Fn(&Articles, Articles) -> Result<(Articles, bool), UpgradeError>>(
        &mut self,
        new_articles: Articles,
        upgrade: &U,
    ) -> (r: Result<bool, MultiError<UpgradeError, S::Error>>)
        requires
            upgrades(*upgrade),
        ensures
            final(self).id() == old(self).id(),
            final(self).configuration() == old(self).configuration(),
            exists|outcome: Result<(Articles, bool), UpgradeError>|
                {
                    &&& #[trigger] call_ensures(
                        *upgrade,
                        (&old(self).model().articles, new_articles),
                        outcome,
                    )
                    &&& match outcome {
                        Err(e) => {
                            &&& r == Err::<bool, MultiError<UpgradeError, S::Error>>(
                                MultiError::A(e),
                            )
                            &&& final(self).model() == old(self).model()
                        },
                        Ok((articles, upgraded)) => match r {
                            Ok(flag) => {
                                &&& flag == upgraded
                                &&& final(self).model() == (StockView {
                                    articles,
                                    ..old(self).model()
                                })
                                &&& articles.contract_id == old(self).model().articles.contract_id
                                &&& articles.genesis@ == old(self).model().articles.genesis@
                                &&& articles.codex == old(self).model().articles.codex
                            },
                            Err(MultiError::A(_)) => false,
                            Err(MultiError::B(e)) => update_failure::<S::Session>(
                                old(self).model(),
                                articles,
                                final(self).model(),
                                e,
                            ),
                        },
                    }
                },
    {
        let ghost before = self.model();
        let outcome = upgrade(self.articles(), new_articles);
        assert(call_ensures(*upgrade, (&before.articles, new_articles), outcome));
        match outcome {
            Err(e) => Err(MultiError::A(e)),
            Ok((articles, upgraded)) => {
                match self.session().update_articles(articles) {
                    Ok(()) => Ok(upgraded),
                    Err(e) => {
                        assert(update_answer::<S::Session>(before, articles, Err(e)));
                        Err(MultiError::B(e))
                    },
                }
            },
        }
    }

    /// Accepts a stream of deeds, the beginning of which was read: upgrades the articles and applies
    /// the operations which are not valid yet, up to one which can't have its place in the state.
    fn accept_opened<
        G: Fn(usize, &StateData) -> Conversion<StateAtom>,
        O: Fn(usize, StateValue) -> Conversion<StrictVal>,
        U: Fn(&Articles, Articles) -> Result<(Articles, bool), UpgradeError>,
    >(
        &mut self,
        stream: &Vec<u8>,
        start: Result<(Articles, usize), AcceptError>,
        upgrade: &U,
        reader: &ApiReader<G, O>,
    ) -> (r: Option<Result<(), MultiError<AcceptError, S::Error>>>)
        requires
            old(self).well_formed(),
            start matches Ok((_, end)) ==> end <= stream.len(),
            upgrades(*upgrade),
            usable(*reader),
        ensures
            final(self).id() == old(self).id(),
            final(self).configuration() == old(self).configuration(),
            match r {
                None => accept_stuck(
                    old(self).model(),
                    final(self).model(),
                    stream@,
                    start,
                    *upgrade,
                    *reader,
                ),
                Some(result) => accept_outcome::<S, G, O, U>(
                    old(self).model(),
                    final(self).model(),
                    stream@,
                    start,
                    *upgrade,
                    *reader,
                    result,
                ),
            },
    {
        let (articles, end) = match start {
            Ok(found) => found,
            Err(e) => {
                return Some(Err(MultiError::A(e)));
            },
        };
        match self.upgrade_apis(articles, upgrade) {
            Ok(_) => {},
            Err(MultiError::A(e)) => {
                return Some(Err(MultiError::A(AcceptError::Persistence(e.text))));
            },
            Err(MultiError::B(e)) => {
                let text = S::describe(&e);
                assert(call_ensures(S::describe, (&e,), text));
                return Some(Err(MultiError::A(AcceptError::Persistence(text))));
            },
        }
        if stream.len() - end < 4 {
            return Some(Err(MultiError::A(AcceptError::Decode(StreamError::UnexpectedEnd))));
        }
        let count = read_little_endian(stream, end, 4);
        proof {
            let part = stream@.subrange(end as int, end + 4);
            lemma_big_endian_limit(part.reverse());
            lemma_limits();
        }
        // One reading more than there are operations finds the end of the stream.
        self.try_operations(stream, end + 4, count as u64 + 1, reader)
    }

    /// Accepts a stream of deeds, the beginning of which was read: upgrades the articles and applies
    /// the operations which are not valid yet.
    pub fn accept<
        G: Fn(usize, &StateData) -> Conversion<StateAtom>,
        O: Fn(usize, StateValue) -> Conversion<StrictVal>,
        U: Fn(&Articles, Articles) -> Result<(Articles, bool), UpgradeError>,
    >(
        &mut self,
        stream: &Vec<u8>,
        start: Result<(Articles, usize), AcceptError>,
        upgrade: &U,
        reader: &ApiReader<G, O>,
    ) -> (r: Result<(), MultiError<AcceptError, S::Error>>)
        requires
            old(self).well_formed(),
            start matches Ok((articles, end)) ==> {
                &&& end <= stream.len()
                &&& forall|upgraded: Articles, flag: bool| #[trigger]
                    call_ensures(
                        *upgrade,
                        (&old(self).model().articles, articles),
                        Ok((upgraded, flag)),
                    ) ==> fits(
                        StockView { articles: upgraded, ..old(self).model() },
                        stream@,
                        end as nat,
                        *reader,
                    )
            },
            upgrades(*upgrade),
            usable(*reader),
        ensures
            final(self).id() == old(self).id(),
            final(self).configuration() == old(self).configuration(),
            accept_outcome::<S, G, O, U>(
                old(self).model(),
                final(self).model(),
                stream@,
                start,
                *upgrade,
                *reader,
                r,
            ),
    {
        match self.accept_opened(stream, start, upgrade, reader) {
            Some(r) => r,
            None => vstd::pervasive::unreached(),
        }
    }
}

/// The models of operations.
pub open spec fn op_views(ops: Seq<Operation>) -> Seq<OperationView> {
    ops.map_values(|op: Operation| op@)
}

/// Reads the operations which stand at the given place of a stream, no more than the given number
/// of them, and tells whether something else follows them. Operations which were written there, and
/// nothing after them, are read back.
pub fn read_operations(stream: &Vec<u8>, start: usize, count: u64) -> (r: (Vec<Operation>, bool))
    requires
        start <= stream.len(),
    ensures
        (op_views(r.0@), r.1) == stream_operations(stream@.skip(start as int), count as nat),
        all_well_formed(op_views(r.0@)),
        forall|ops: Seq<OperationView>|
            all_well_formed(ops) && ops.len() <= count && stream@.skip(start as int)
                == #[trigger] operations_bytes(ops) ==> op_views(r.0@) == ops && !r.1,
{
    let ghost bytes = stream@.skip(start as int);
    let ghost whole = stream_operations(bytes, count as nat);
    let mut ops: Vec<Operation> = Vec::new();
    let mut at: usize = start;
    let mut left: u64 = count;
    proof {
        assert(op_views(ops@) =~= Seq::empty());
        assert(op_views(ops@) + whole.0 =~= whole.0);
        assert forall|list: Seq<OperationView>|
            all_well_formed(list) && list.len() <= count && bytes == #[trigger] operations_bytes(
                list,
            ) implies matched(list, op_views(ops@), bytes) by {
            assert(list.take(0) =~= Seq::empty());
            assert(list.skip(0) =~= list);
        }
    }
    while left > 0
        invariant
            start <= at <= stream.len(),
            bytes == stream@.skip(start as int),
            whole == stream_operations(bytes, count as nat),
            left + ops@.len() == count,
            whole.0 == op_views(ops@) + stream_operations(stream@.skip(at as int), left as nat).0,
            whole.1 == stream_operations(stream@.skip(at as int), left as nat).1,
            all_well_formed(op_views(ops@)),
            forall|list: Seq<OperationView>|
                all_well_formed(list) && list.len() <= count && bytes == #[trigger] operations_bytes(
                    list,
                ) ==> matched(list, op_views(ops@), stream@.skip(at as int)),
        ensures
            (op_views(ops@), false) == whole,
            forall|list: Seq<OperationView>|
                all_well_formed(list) && list.len() <= count && bytes == #[trigger] operations_bytes(
                    list,
                ) ==> op_views(ops@) == list,
        decreases left,
    {
        let ghost views = op_views(ops@);
        let ghost rest = stream@.skip(at as int);
        match read_operation(stream, at) {
            NextOperation::End => {
                proof {
                    assert(views + Seq::<OperationView>::empty() =~= views);
                    assert forall|list: Seq<OperationView>|
                        all_well_formed(list) && list.len() <= count && bytes
                            == #[trigger] operations_bytes(list) implies views == list by {
                        assert(matched(list, views, rest));
                        lemma_matched_next(list, views, rest);
                        assert(views =~= list);
                    }
                }
                break;
            },
            NextOperation::Fault(_) => {
                proof {
                    assert(views + Seq::<OperationView>::empty() =~= views);
                    assert forall|list: Seq<OperationView>|
                        all_well_formed(list) && list.len() <= count && bytes
                            == #[trigger] operations_bytes(list) implies false by {
                        assert(matched(list, views, rest));
                        lemma_matched_next(list, views, rest);
                        if views.len() == list.len() {
                            assert(rest.len() == 0);
                        }
                    }
                }
                return (ops, true);
            },
            NextOperation::Read(op, end) => {
                let ghost view = op@;
                proof {
                    let tail = stream_operations(rest.skip(end - at), (left - 1) as nat);
                    assert(rest.skip(end - at) =~= stream@.skip(end as int));
                    assert(views + (seq![view] + tail.0) =~= views.push(view) + tail.0);
                    assert forall|list: Seq<OperationView>|
                        all_well_formed(list) && list.len() <= count && bytes
                            == #[trigger] operations_bytes(list) implies matched(
                        list,
                        views.push(view),
                        stream@.skip(end as int),
                    ) by {
                        assert(matched(list, views, rest));
                        lemma_matched_next(list, views, rest);
                        if views.len() == list.len() {
                            assert(rest.len() == 0);
                        }
                        assert(list[views.len() as int].well_formed());
                        assert(view == list[views.len() as int]);
                        assert(list.skip(views.len() as int).skip(1) =~= list.skip(
                            views.len() as int + 1,
                        ));
                        assert(views.push(view) =~= list.take(views.len() as int + 1));
                    }
                }
                ops.push(op);
                assert(op_views(ops@) =~= views.push(view));
                at = end;
                left = left - 1;
            },
        }
    }
    (ops, false)
}

/// The operations of a list were found, and the bytes of the others are what is left.
spec fn matched(list: Seq<OperationView>, found: Seq<OperationView>, rest: Seq<u8>) -> bool {
    &&& found.len() <= list.len()
    &&& found == list.take(found.len() as int)
    &&& rest == operations_bytes(list.skip(found.len() as int))
}

/// What is left begins with the next operation of the list.
proof fn lemma_matched_next(list: Seq<OperationView>, found: Seq<OperationView>, rest: Seq<u8>)
    requires
        matched(list, found, rest),
    ensures
        found.len() == list.len() ==> rest.len() == 0 && found == list,
        found.len() < list.len() ==> {
            let next = operation_bytes(list[found.len() as int]);
            &&& next.is_prefix_of(rest)
            &&& rest.skip(next.len() as int) == operations_bytes(
                list.skip(found.len() as int).skip(1),
            )
        },
{
    let others = list.skip(found.len() as int);
    if found.len() == list.len() {
        assert(others =~= Seq::empty());
        assert(list.take(found.len() as int) =~= list);
    } else {
        lemma_bytes_front(others);
        let next = operation_bytes(others[0]);
        let more = operations_bytes(others.skip(1));
        assert(rest == next + more);
        assert(rest.take(next.len() as int) =~= next);
        assert(rest.skip(next.len() as int) =~= more);
    }
}

/// The bytes of operations begin with those of the first one.
proof fn lemma_bytes_front(ops: Seq<OperationView>)
    requires
        ops.len() > 0,
    ensures
        operations_bytes(ops) == operation_bytes(ops[0]) + operations_bytes(ops.skip(1)),
    decreases ops.len(),
{
    if ops.len() == 1 {
        assert(ops.drop_last() =~= Seq::empty());
        assert(ops.skip(1) =~= Seq::empty());
        assert(operations_bytes(ops) =~= operation_bytes(ops[0]) + operations_bytes(ops.skip(1)));
    } else {
        lemma_bytes_front(ops.drop_last());
        assert(ops.drop_last().skip(1) =~= ops.skip(1).drop_last());
        let (a, b, c) = (
            operation_bytes(ops[0]),
            operations_bytes(ops.skip(1).drop_last()),
            operation_bytes(ops.last()),
        );
        assert((a + b) + c =~= a + (b + c));
    }
}

/// So many operations do not have more outputs than so many lists can hold.
proof fn lemma_total_limit(ops: Seq<OperationView>)
    requires
        all_well_formed(ops),
    ensures
        total_outputs(ops).0 <= ops.len() * 65535,
        total_outputs(ops).1 <= ops.len() * 65535,
    decreases ops.len(),
{
    if ops.len() > 0 {
        assert(ops[ops.len() - 1].well_formed());
        lemma_total_limit(ops.drop_last());
    }
}

impl<S: Stock> Ledger<S> {
    /// Tests whether operations can be applied in any case: none of them destroys a cell twice,
    /// there is place for their outputs, and the verification of each runs through with the given
    /// libraries.
    pub fn admits(&self, libs: &Vec<Lib>, ops: &Vec<Operation>) -> (r: bool)
        requires
            all_well_formed(op_views(ops@)),
        ensures
            r == admissible(self.model(), libs@, op_views(ops@)),
    {
        let ghost views = op_views(ops@);
        let mut owned: u128 = 0;
        let mut global: u128 = 0;
        let mut i: usize = 0;
        assert(views.take(0) =~= Seq::empty());
        while i < ops.len()
            invariant
                i <= ops@.len() == ops.len(),
                views == op_views(ops@),
                all_well_formed(views),
                forall|k: int|
                    0 <= k < i ==> {
                        &&& (#[trigger] views[k]).distinct_inputs()
                        &&& runs_anyway(
                            self.model().articles.codex,
                            libs@,
                            views[k],
                            self.model().state.raw.taken_by(views[k]),
                            self.model().state.raw.read_by(views[k]),
                        )
                        &&& outputs_in_field(self.model().articles.codex, libs@, views[k])
                    },
                owned == total_outputs(views.take(i as int)).0,
                global == total_outputs(views.take(i as int)).1,
            decreases ops@.len() - i,
        {
            proof {
                assert(views[i as int] == ops@[i as int]@);
                lemma_total_step(views, i as int);
                assert(all_well_formed(views.take(i as int))) by {
                    assert forall|k: int| 0 <= k < i implies (#[trigger] views.take(
                        i as int,
                    )[k]).well_formed() by {
                        assert(views[k].well_formed());
                    }
                }
                lemma_total_limit(views.take(i as int));
                assert(views[i as int].well_formed());
            }
            if !has_distinct_inputs(&ops[i]) || !fits_anyway(
                &self.articles().codex,
                libs,
                &ops[i],
                &self.state().raw,
            ) {
                assert(views[i as int] == ops@[i as int]@);
                return false;
            }
            owned = owned + ops[i].destructible_out.len() as u128;
            global = global + ops[i].immutable_out.len() as u128;
            i = i + 1;
        }
        assert(views.take(views.len() as int) =~= views);
        let raw = &self.state().raw;
        let limit: u128 = MAX_STATE as u128;
        proof {
            assert(all_well_formed(views));
            lemma_total_limit(views);
        }
        raw.auth.len() as u128 + owned <= limit && raw.owned.len() as u128 + owned <= limit
            && raw.global.len() as u128 + global <= limit
    }

    /// Accepts a stream of deeds, unless one of its operations can't have its place in the state: an
    /// accepted one destroys a cell twice, or there is no place for its outputs, or its verification
    /// might not run through. The operations before it are applied then, but not persisted.
    pub fn try_accept<
        G: Fn(usize, &StateData) -> Conversion<StateAtom>,
        O: Fn(usize, StateValue) -> Conversion<StrictVal>,
        D: Fn(&Vec<u8>, usize) -> Result<(Articles, usize), AcceptError>,
        U: Fn(&Articles, Articles) -> Result<(Articles, bool), UpgradeError>,
    >(&mut self, stream: &Vec<u8>, decode: &D, upgrade: &U, reader: &ApiReader<G, O>) -> (r: Option<
        Result<(), MultiError<AcceptError, S::Error>>,
    >)
        requires
            old(self).well_formed(),
            decodes(*decode),
            upgrades(*upgrade),
            usable(*reader),
        ensures
            final(self).id() == old(self).id(),
            final(self).configuration() == old(self).configuration(),
            exists|start: Result<(Articles, usize), AcceptError>|
                {
                    &&& #[trigger] opened(*stream, *decode, start)
                    &&& match r {
                        None => accept_stuck(
                            old(self).model(),
                            final(self).model(),
                            stream@,
                            start,
                            *upgrade,
                            *reader,
                        ),
                        Some(result) => {
                            &&& accept_outcome::<S, G, O, U>(
                                old(self).model(),
                                final(self).model(),
                                stream@,
                                start,
                                *upgrade,
                                *reader,
                                result,
                            )
                            &&& start matches Ok((_, end)) ==> reads_back(stream@, end as nat)
                        },
                    }
                },
    {
        let start = open_stream(stream, decode);
        let ghost given = start;
        assert(opened(*stream, *decode, given));
        let _articles = self.articles();
        if let Ok((newer, end)) = &start {
            let end: usize = *end;
            if stream.len() - end >= 4 {
                let count = read_little_endian(stream, end, 4);
                proof {
                    let part = stream@.subrange(end as int, end + 4);
                    lemma_big_endian_limit(part.reverse());
                    lemma_limits();
                }
                let (ops, _) = read_operations(stream, end + 4, count as u64 + 1);
                proof {
                    assert forall|list: Seq<OperationView>|
                        all_well_formed(list) && announced(stream@, end as nat) == Some(list.len())
                            && stream@.skip(end as int + 4) == #[trigger] operations_bytes(
                            list,
                        ) implies stream_operations(stream@.skip(end as int + 4), list.len() + 1) == (
                        list,
                        false,
                    ) by {}
                }
                if !self.admits(&self.articles().codex_libs, &ops) || !self.admits(
                    &newer.codex_libs,
                    &ops,
                ) {
                    return self.accept_opened(stream, start, upgrade, reader);
                }
                proof {
                    let views = op_views(ops@);
                    let before = self.model();
                    assert forall|upgraded: Articles, flag: bool| #[trigger]
                        call_ensures(
                            *upgrade,
                            (&before.articles, given->Ok_0.0),
                            Ok((upgraded, flag)),
                        ) implies acceptable(
                        StockView { articles: upgraded, ..before },
                        views,
                        *reader,
                    ) by {
                        let model = StockView { articles: upgraded, ..before };
                        assert(admissible(model, upgraded.codex_libs@, views));
                        assert forall|i: int, mid: StockView|
                            0 <= i < views.len() && #[trigger] admitted_all(
                                model,
                                mid,
                                views.take(i),
                                *reader,
                            ) && pending(mid, views[i], false) implies placeable(mid, views[i]) by {
                            lemma_admissible(model, mid, views, i, *reader);
                        }
                    }
                }
            }
        }
        Some(self.accept(stream, start, upgrade, reader))
    }
}

} // verus!
