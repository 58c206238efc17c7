//! Laws of the ledger: what one call makes of another.

use crate::accept::{
    accept_outcome, accept_step, admitted, admitted_all, announced, operations_outcome, reads_back,
    rejected, upgrades, UpgradeError,
};
use crate::apply::AcceptError;
use crate::articles::Articles;
use crate::chain::{law_chain_holds_the_reached, law_chain_is_unique, reached, walk};
use crate::export::ExportError;
use crate::forward::{eligible, forward_outcome, redone_all, refused};
use crate::history::{
    held_back, law_accepting_again_changes_nothing, law_forward_undoes_rollback,
    law_issued_contract_is_settled, lemma_same_children, lemma_undone_frame, op_data, parents_first,
    settled, undisputed,
};
use crate::ledger::{
    all_known, descendant_links, genesis_of, issued, law_descendants_are_known, MultiError,
};
use crate::ledger_export::{opids_of, plain_export_outcome};
use crate::lineage::{law_rollback_in_two_steps, law_valid_operations_are_undisputed};
use crate::processed::{Conversion, ConversionView, StateAtom};
use crate::recall::{law_forward_restores_main_state, recalls};
use crate::reader::ApiReader;
use crate::rollback::{rollback_outcome, undone_all};
use crate::shown::{reads_as, shows};
use crate::state::{only_computed_differs, ReadingsView};
use crate::stock::{Stock, StockView};
use crate::stream::stream_operations;
use crate::transfer::{
    follows, law_export_then_accept, law_forward_after_rollback_is_never_refused, same_code,
    upgrades_gently, verified,
};
use crate::types::{ContractId, OperationView, Opid};
use strict_types::StrictVal;
use ultrasonic::StateData;
use ultrasonic::StateValue;
use vstd::prelude::*;

verus! {

/// The descendants of the operations are discovered in the order of dependence; those of them which
/// are not valid wait for their ancestors, and no operation outside lives on the cells which they have
/// destroyed.
pub open spec fn in_order(model: StockView, opids: Seq<Opid>) -> bool {
    forall|chain: Seq<Opid>| #[trigger]
        walk(opids, descendant_links(model), chain) ==> {
            &&& undisputed(model, chain)
            &&& held_back(model, chain)
            &&& parents_first(model, chain)
        }
}

/// The links do not change when operations are rolled back.
proof fn lemma_links_stay<
    G: Fn(usize, &StateData) -> Conversion<StateAtom>,
    O: Fn(usize, StateValue) -> Conversion<StrictVal>,
>(before: StockView, after: StockView, opids: Seq<Opid>, reader: ApiReader<G, O>)
    requires
        undone_all(before, after, opids, reader),
    ensures
        descendant_links(after) == descendant_links(before),
{
    lemma_undone_frame(before, after, opids, reader);
    assert forall|x: Opid| #[trigger] descendant_links(after)(x) == descendant_links(before)(x) by {
        lemma_same_children(after, before, x);
    }
    assert(descendant_links(after) =~= descendant_links(before));
}

/// The operations of a chain of descendants are known.
proof fn lemma_chain_known(model: StockView, opids: Seq<Opid>, chain: Seq<Opid>)
    requires
        model.consistent(),
        all_known(model, opids),
        walk(opids, descendant_links(model), chain),
    ensures
        all_known(model, chain),
{
    law_descendants_are_known(model, opids);
    law_chain_holds_the_reached(opids, descendant_links(model), chain);
    assert forall|i: int| 0 <= i < chain.len() implies model.known(#[trigger] chain[i]) by {
        assert(chain.contains(chain[i]));
    }
}

/// Rolling operations back and bringing them back again leads to where it started: none of them is
/// refused, and unless the storage fails, the same operations are valid, the memory is the same, and
/// so is the processed state, but for what is computed of it.
pub proof fn law_rollback_then_forward<
    S: Stock,
    G: Fn(usize, &StateData) -> Conversion<StateAtom>,
    O: Fn(usize, StateValue) -> Conversion<StrictVal>,
>(
    before: StockView,
    mid: StockView,
    after: StockView,
    opids: Seq<Opid>,
    reader: ApiReader<G, O>,
    read_owned: spec_fn(StateValue) -> ConversionView<StrictVal>,
    read_global: spec_fn(StateData) -> ConversionView<StateAtom>,
    back: Result<(), S::Error>,
    forth: Result<(), MultiError<AcceptError, S::Error>>,
)
    requires
        settled(before),
        verified(before),
        all_known(before, opids),
        in_order(before, opids),
        shows(before, read_owned, read_global),
        recalls(before, read_owned, read_global),
        reads_as(reader, read_owned, read_global),
        back is Ok,
        rollback_outcome::<S, G, O>(before, mid, opids, reader, back),
        forward_outcome::<S, G, O>(mid, after, opids, reader, forth),
    ensures
        forth matches Err(e) ==> e is B,
        forth is Ok ==> {
            &&& after.valid == before.valid
            &&& after.state.raw.owned == before.state.raw.owned
            &&& after.state.raw.global == before.state.raw.global
            &&& only_computed_differs(before.state.main, after.state.main)
        },
{
    let chain = choose|chain: Seq<Opid>|
        {
            &&& #[trigger] walk(opids, descendant_links(before), chain)
            &&& undone_all(before, mid, chain.reverse(), reader)
        };
    lemma_chain_known(before, opids, chain);
    lemma_links_stay(before, mid, chain.reverse(), reader);
    let other = choose|other: Seq<Opid>|
        {
            &&& #[trigger] walk(opids, descendant_links(mid), other)
            &&& match forth {
                Ok(()) => redone_all(mid, after, other, reader),
                Err(MultiError::A(reason)) => exists|n: int|
                    {
                        &&& 0 <= n < other.len()
                        &&& redone_all(mid, after, #[trigger] other.take(n), reader)
                        &&& eligible(after, other[n])
                        &&& refused(after, after.ops[other[n]], reason)
                    },
                Err(MultiError::B(_)) => true,
            }
        };
    law_chain_is_unique(opids, descendant_links(before), other, chain);
    match forth {
        Ok(()) => {
            law_forward_undoes_rollback(before, mid, after, opids, chain, reader, reader);
            law_forward_restores_main_state(
                before,
                mid,
                after,
                opids,
                chain,
                reader,
                read_owned,
                read_global,
            );
        },
        Err(MultiError::A(reason)) => {
            let n = choose|n: int|
                {
                    &&& 0 <= n < chain.len()
                    &&& redone_all(mid, after, #[trigger] chain.take(n), reader)
                    &&& eligible(after, chain[n])
                    &&& refused(after, after.ops[chain[n]], reason)
                };
            law_forward_after_rollback_is_never_refused(
                before,
                mid,
                after,
                opids,
                chain,
                n,
                reader,
                reader,
                reason,
            );
        },
        Err(MultiError::B(_)) => {},
    }
}

/// No operation outside of the descendants lives on the cells which those of them have destroyed that
/// are not valid.
pub open spec fn descends_undisputed(model: StockView, opids: Seq<Opid>) -> bool {
    forall|chain: Seq<Opid>| #[trigger]
        walk(opids, descendant_links(model), chain) ==> undisputed(model, chain)
}

/// All the descendants of the operations are valid.
pub open spec fn descends_valid(model: StockView, opids: Seq<Opid>) -> bool {
    forall|opid: Opid| #[trigger]
        reached(opids, descendant_links(model), opid) ==> model.valid.contains(opid)
}

/// Rolling operations back one after another leads to where rolling all of them back at once does: the
/// same operations are valid, and the memory is the same. Where operations are among the descendants
/// which are not valid before, no operation outside may live on the cells which they have destroyed.
pub proof fn law_rollbacks_add_up<
    S: Stock,
    G: Fn(usize, &StateData) -> Conversion<StateAtom>,
    O: Fn(usize, StateValue) -> Conversion<StrictVal>,
>(
    before: StockView,
    mid: StockView,
    stepwise: StockView,
    at_once: StockView,
    one: Seq<Opid>,
    other: Seq<Opid>,
    reader: ApiReader<G, O>,
    first: Result<(), S::Error>,
    second: Result<(), S::Error>,
    single: Result<(), S::Error>,
)
    requires
        settled(before),
        all_known(before, one + other),
        descends_valid(before, one + other) || (descends_undisputed(before, one + other)
            && descends_undisputed(before, one) && descends_undisputed(mid, other)),
        first is Ok && second is Ok && single is Ok,
        rollback_outcome::<S, G, O>(before, mid, one, reader, first),
        rollback_outcome::<S, G, O>(mid, stepwise, other, reader, second),
        rollback_outcome::<S, G, O>(before, at_once, one + other, reader, single),
    ensures
        stepwise.valid == at_once.valid,
        stepwise.state.raw.owned == at_once.state.raw.owned,
        stepwise.state.raw.global == at_once.state.raw.global,
{
    let one_chain = choose|chain: Seq<Opid>|
        {
            &&& #[trigger] walk(one, descendant_links(before), chain)
            &&& undone_all(before, mid, chain.reverse(), reader)
        };
    let other_chain = choose|chain: Seq<Opid>|
        {
            &&& #[trigger] walk(other, descendant_links(mid), chain)
            &&& undone_all(mid, stepwise, chain.reverse(), reader)
        };
    let chain = choose|chain: Seq<Opid>|
        {
            &&& #[trigger] walk(one + other, descendant_links(before), chain)
            &&& undone_all(before, at_once, chain.reverse(), reader)
        };
    lemma_chain_known(before, one + other, chain);
    if descends_valid(before, one + other) {
        law_chain_holds_the_reached(one + other, descendant_links(before), chain);
        assert forall|i: int| 0 <= i < chain.len() implies before.valid.contains(
            #[trigger] chain[i],
        ) by {
            assert(chain.contains(chain[i]));
        }
        law_valid_operations_are_undisputed(
            before,
            mid,
            one,
            other,
            one_chain,
            other_chain,
            chain,
            reader,
        );
    }
    law_rollback_in_two_steps(
        before,
        mid,
        stepwise,
        at_once,
        one,
        other,
        one_chain,
        other_chain,
        chain,
        reader,
    );
}

/// Accepting the same stream once more changes nothing but the articles: none of the operations is
/// rejected; unless the upgrade is refused or the storage fails, everything else stays as it was.
pub proof fn law_accepting_twice_changes_nothing<
    S: Stock,
    G: Fn(usize, &StateData) -> Conversion<StateAtom>,
    O: Fn(usize, StateValue) -> Conversion<StrictVal>,
    U: Fn(&Articles, Articles) -> Result<(Articles, bool), UpgradeError>,
>(
    before: StockView,
    after: StockView,
    again: StockView,
    bytes: Seq<u8>,
    start: Result<(Articles, usize), AcceptError>,
    upgrade: U,
    reader: ApiReader<G, O>,
    first: Result<(), MultiError<AcceptError, S::Error>>,
    second: Result<(), MultiError<AcceptError, S::Error>>,
)
    requires
        before.articles.well_formed(),
        upgrades(upgrade),
        first is Ok,
        accept_outcome::<S, G, O, U>(before, after, bytes, start, upgrade, reader, first),
        accept_outcome::<S, G, O, U>(after, again, bytes, start, upgrade, reader, second),
    ensures
        second matches Err(MultiError::A(reason)) ==> reason is Persistence,
        second is Ok ==> again == (StockView { articles: again.articles, ..after }),
        second is Ok ==> again.articles.contract_id == after.articles.contract_id
            && again.articles.genesis@ == after.articles.genesis@ && again.articles.codex
            == after.articles.codex,
{
    let (articles, end) = start->Ok_0;
    let outcome = choose|outcome: Result<(Articles, bool), UpgradeError>|
        {
            &&& #[trigger] call_ensures(upgrade, (&before.articles, articles), outcome)
            &&& accept_step::<S, G, O>(before, after, bytes, end, outcome, reader, first)
        };
    let upgraded = outcome->Ok_0.0;
    assert(call_ensures(upgrade, (&before.articles, articles), Ok((upgraded, outcome->Ok_0.1))));
    let mid = StockView { articles: upgraded, ..before };
    let count = announced(bytes, end as nat)->Some_0;
    let rest = bytes.skip(end as int + 4);
    let ops = stream_operations(rest, count + 1).0;
    assert(operations_outcome::<S, G, O>(mid, after, rest, count + 1, reader, first));
    lemma_admitted_keep_articles(mid, after, ops, reader);
    let outcome = choose|outcome: Result<(Articles, bool), UpgradeError>|
        {
            &&& #[trigger] call_ensures(upgrade, (&after.articles, articles), outcome)
            &&& accept_step::<S, G, O>(after, again, bytes, end, outcome, reader, second)
        };
    if let Ok((newer, flag)) = outcome {
        assert(call_ensures(upgrade, (&after.articles, articles), Ok((newer, flag))));
        let start = StockView { articles: newer, ..after };
        let kept = second matches Err(MultiError::A(AcceptError::Persistence(_)));
        if !kept {
            assert(operations_outcome::<S, G, O>(start, again, rest, count + 1, reader, second));
            match second {
                Ok(()) => {
                    assert(ops.take(ops.len() as int) =~= ops);
                    law_accepting_again_changes_nothing(
                        mid,
                        after,
                        start,
                        again,
                        ops,
                        ops.len() as int,
                        reader,
                        reader,
                    );
                },
                Err(MultiError::A(reason)) => {
                    let i = choose|i: int|
                        {
                            &&& 0 <= i < ops.len()
                            &&& admitted_all(
                                start,
                                again,
                                #[trigger] ops.take(i),
                                reader,
                            )
                            &&& rejected(again, ops[i], reason)
                        };
                    law_accepting_again_changes_nothing(
                        mid,
                        after,
                        start,
                        again,
                        ops,
                        i,
                        reader,
                        reader,
                    );
                },
                Err(MultiError::B(_)) => {},
            }
        }
    }
}

/// The operations of a stream do not change the articles.
proof fn lemma_admitted_keep_articles<
    G: Fn(usize, &StateData) -> Conversion<StateAtom>,
    O: Fn(usize, StateValue) -> Conversion<StrictVal>,
>(
    before: StockView,
    after: StockView,
    ops: Seq<OperationView>,
    reader: ApiReader<G, O>,
)
    requires
        admitted_all(before, after, ops, reader),
    ensures
        after.articles == before.articles,
    decreases ops.len(),
{
    if ops.len() > 0 {
        let mid = choose|mid: StockView|
            admitted_all(before, mid, ops.drop_last(), reader)
                && #[trigger] admitted(mid, after, ops.last(), reader);
        lemma_admitted_keep_articles(before, mid, ops.drop_last(), reader);
    }
}

/// A ledger which has just been issued accepts all that another ledger of the contract exports:
/// nothing is rejected; unless the storage fails, the new ledger has exactly the operations of the
/// other one, all of them valid, and the same memory.
pub proof fn law_export_all_into_new_ledger<
    S: Stock,
    G: Fn(usize, &StateData) -> Conversion<StateAtom>,
    O: Fn(usize, StateValue) -> Conversion<StrictVal>,
    U: Fn(&Articles, Articles) -> Result<(Articles, bool), UpgradeError>,
>(
    source: StockView,
    new_articles: Articles,
    readings: Option<ReadingsView>,
    after: StockView,
    id: ContractId,
    written: Seq<u8>,
    stream: Vec<u8>,
    articles: Articles,
    end: usize,
    upgrade: U,
    reader: ApiReader<G, O>,
    r: Result<(), MultiError<AcceptError, S::Error>>,
)
    requires
        settled(source),
        verified(source),
        forall|x: Opid| #[trigger] source.ops.contains_key(x) ==> source.valid.contains(x),
        plain_export_outcome(
            source,
            id,
            written,
            opids_of(source.stash),
            Ok::<Vec<u8>, ExportError>(stream),
        ),
        same_code(source.articles, new_articles),
        new_articles.genesis@ == source.articles.genesis@,
        end == 34 + written.len(),
        reads_back(stream@, end as nat),
        upgrades_gently(upgrade, new_articles, articles),
        accept_outcome::<S, G, O, U>(
            issued(new_articles, readings),
            after,
            stream@,
            Ok((articles, end)),
            upgrade,
            reader,
            r,
        ),
    ensures
        r matches Err(MultiError::A(reason)) ==> reason is Persistence,
        r is Ok ==> {
            &&& after.ops == source.ops
            &&& after.valid == source.valid
            &&& after.state.raw.owned == source.state.raw.owned
            &&& after.state.raw.global == source.state.raw.global
        },
{
    let before = issued(new_articles, readings);
    let genesis = genesis_of(source);
    law_issued_contract_is_settled(new_articles, readings);
    assert(follows(source, before)) by {
        assert forall|x: Opid| #[trigger] before.valid.contains(x) implies source.valid.contains(x)
            && op_data(before, x) == op_data(source, x) by {
            assert(x == genesis);
        }
    }
    law_export_then_accept::<S, G, O, U>(
        source,
        before,
        after,
        opids_of(source.stash),
        id,
        written,
        stream,
        articles,
        end,
        upgrade,
        reader,
        r,
    );
    if r is Ok {
        assert forall|x: Opid| after.ops.contains_key(x) == source.ops.contains_key(x) by {
            if source.ops.contains_key(x) {
                assert(after.valid.contains(x));
            }
        }
        assert forall|x: Opid| #[trigger] source.ops.contains_key(x) implies after.ops[x]
            == source.ops[x] by {
            assert(after.valid.contains(x));
            assert(op_data(after, x) == op_data(source, x));
        }
        assert(after.ops =~= source.ops);
    }
}

} // verus!
