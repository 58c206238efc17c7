//! The processed state of a contract shows the memory which its valid operations make.

use crate::apply::{applied_by, recorded};
use crate::cells::lists;
use crate::chain::walk;
use crate::forward::{accepted, eligible, redone, redone_all};
use crate::history::{
    held_back, law_forward_keeps_contract_settled, law_forward_undoes_rollback,
    law_rollback_keeps_contract_settled, lemma_undone_cells, parents_first, settled, traced,
    undisputed,
};
use crate::ledger::{all_known, descendant_links};
use crate::processed::{ApiReading, Conversion, ConversionView, StateAtom};
use crate::processed_laws::{
    faithful, in_step, law_apply_keeps_step, law_rollback_keeps_step, law_states_in_step_agree,
};
use crate::raw::fresh;
use crate::reader::{reads_by, readings_by, restorations_by, ApiReader};
use crate::rollback::{taken_back, undone, undone_all};
use crate::sorted::cells_of;
use crate::state::{given_readings, given_restorations, Readings, Restorations};
use crate::stock::StockView;
use crate::types::{CellAddr, Operation, Opid, StateCell};
use strict_types::StrictVal;
use ultrasonic::StateData;
use ultrasonic::StateValue;
use vstd::prelude::*;

verus! {

/// The default API reads cells as the given functions say, and at once.
pub open spec fn reads_as<
    G: Fn(usize, &StateData) -> Conversion<StateAtom>,
    O: Fn(usize, StateValue) -> Conversion<StrictVal>,
>(
    reader: ApiReader<G, O>,
    read_owned: spec_fn(StateValue) -> ConversionView<StrictVal>,
    read_global: spec_fn(StateData) -> ConversionView<StateAtom>,
) -> bool {
    &&& !reader.defer
    &&& forall|data: StateData, reading: Conversion<StateAtom>| #[trigger]
        call_ensures(reader.global, (0, &data), reading) ==> reading@ == read_global(data)
    &&& forall|value: StateValue, reading: Conversion<StrictVal>| #[trigger]
        call_ensures(reader.owned, (0, value), reading) ==> reading@ == read_owned(value)
}

/// The state as the default API reads it shows the memory of the contract.
pub open spec fn shows(
    model: StockView,
    read_owned: spec_fn(StateValue) -> ConversionView<StrictVal>,
    read_global: spec_fn(StateData) -> ConversionView<StateAtom>,
) -> bool {
    in_step(model.state.main, model.state.raw, read_owned, read_global)
}

/// The readings of a reader are what the functions say.
pub(crate) proof fn lemma_faithful<
    G: Fn(usize, &StateData) -> Conversion<StateAtom>,
    O: Fn(usize, StateValue) -> Conversion<StrictVal>,
>(
    reader: ApiReader<G, O>,
    read_owned: spec_fn(StateValue) -> ConversionView<StrictVal>,
    read_global: spec_fn(StateData) -> ConversionView<StateAtom>,
    op: Operation,
    reading: ApiReading,
)
    requires
        reads_as(reader, read_owned, read_global),
        reads_by(reader, 0, op, reading),
    ensures
        faithful(reading@, op@, read_owned, read_global),
{
    assert forall|i: int| 0 <= i < op@.immutable_out.len() implies #[trigger] reading@.global[i]
        == read_global(op@.immutable_out[i]) by {
        assert(reading@.global[i] == reading.global@[i]@);
        assert(call_ensures(reader.global, (0, &op.immutable_out@[i]), reading.global@[i]));
    }
    assert forall|i: int| 0 <= i < op@.destructible_out.len() implies #[trigger] reading@.owned[i]
        == read_owned(op@.destructible_out[i].data) by {
        assert(reading@.owned[i] == reading.owned@[i]@);
        assert(call_ensures(reader.owned, (0, op.destructible_out@[i].data), reading.owned@[i]));
    }
}

/// The processed state keeps showing the memory, when an operation is applied.
pub proof fn law_apply_keeps_state_shown<
    G: Fn(usize, &StateData) -> Conversion<StateAtom>,
    O: Fn(usize, StateValue) -> Conversion<StrictVal>,
>(
    before: StockView,
    after: StockView,
    opid: Opid,
    op: Operation,
    reader: ApiReader<G, O>,
    read_owned: spec_fn(StateValue) -> ConversionView<StrictVal>,
    read_global: spec_fn(StateData) -> ConversionView<StateAtom>,
)
    requires
        settled(before),
        shows(before, read_owned, read_global),
        reads_as(reader, read_owned, read_global),
        op@.well_formed(),
        !before.valid.contains(opid),
        applied_by(before, after, opid, op, false, reader),
    ensures
        shows(after, read_owned, read_global),
{
    let readings = choose|readings: Option<Readings>| #[trigger]
        readings_by(reader, before.articles.semantics, op, readings) && recorded(
            before,
            after,
            opid,
            op@,
            false,
            readings,
        );
    let given = readings->Some_0;
    assert(readings is Some);
    lemma_faithful(reader, read_owned, read_global, op, given.main);
    assert(given_readings(readings) == Some(given@));
    assert(fresh(before.state.raw, opid));
    law_apply_keeps_step(
        before.state.main,
        before.state.raw,
        opid,
        op@,
        given@.main,
        read_owned,
        read_global,
    );
}

/// The processed state keeps showing the memory, when operations are rolled back.
pub proof fn law_rollback_keeps_state_shown<
    G: Fn(usize, &StateData) -> Conversion<StateAtom>,
    O: Fn(usize, StateValue) -> Conversion<StrictVal>,
>(
    before: StockView,
    after: StockView,
    opids: Seq<Opid>,
    reader: ApiReader<G, O>,
    read_owned: spec_fn(StateValue) -> ConversionView<StrictVal>,
    read_global: spec_fn(StateData) -> ConversionView<StateAtom>,
)
    requires
        settled(before),
        all_known(before, opids),
        shows(before, read_owned, read_global),
        reads_as(reader, read_owned, read_global),
        undone_all(before, after, opids, reader),
    ensures
        shows(after, read_owned, read_global),
    decreases opids.len(),
{
    if opids.len() > 0 {
        let less = opids.drop_last();
        let x = opids.last();
        let mid = choose|mid: StockView|
            undone_all(before, mid, less, reader) && #[trigger] undone(mid, after, x, reader);
        assert forall|i: int| 0 <= i < less.len() implies before.known(#[trigger] less[i]) by {
            assert(before.known(opids[i]));
        }
        law_rollback_keeps_state_shown(before, mid, less, reader, read_owned, read_global);
        lemma_undone_cells(before, mid, less, reader);
        assert(before.known(opids[opids.len() - 1]));
        let (destroyed, readings) = choose|
            destroyed: Seq<(CellAddr, StateCell)>,
            readings: Option<Restorations>,
        |
            {
                &&& lists(destroyed, taken_back(mid, x).destroyed)
                &&& #[trigger] restorations_by(reader, mid.articles.semantics, destroyed, readings)
                &&& after == StockView {
                    valid: mid.valid.remove(x),
                    state: after.state,
                    ..mid
                }
                &&& crate::stock::refreshed(
                    mid.state.rolled_back(
                        taken_back(mid, x),
                        destroyed,
                        given_restorations(readings),
                    ),
                    after.state,
                    readings is None,
                )
            };
        assert(readings is Some);
        let given = readings->Some_0;
        assert(given_restorations(readings) == Some(given@));
        assert forall|i: int| 0 <= i < destroyed.len() implies #[trigger] given@.main[i]
            == read_owned(destroyed[i].1.data) by {
            assert(given@.main[i] == given.main@[i]@);
            assert(call_ensures(reader.owned, (0, destroyed[i].1.data), given.main@[i]));
        }
        assert(traced(before, x));
        law_rollback_keeps_step(
            mid.state.main,
            mid.state.raw,
            taken_back(mid, x),
            destroyed,
            given@.main,
            read_owned,
            read_global,
        );
    }
}

/// The processed state keeps showing the memory, when operations are brought back.
pub proof fn law_forward_keeps_state_shown<
    G: Fn(usize, &StateData) -> Conversion<StateAtom>,
    O: Fn(usize, StateValue) -> Conversion<StrictVal>,
>(
    before: StockView,
    after: StockView,
    opids: Seq<Opid>,
    reader: ApiReader<G, O>,
    read_owned: spec_fn(StateValue) -> ConversionView<StrictVal>,
    read_global: spec_fn(StateData) -> ConversionView<StateAtom>,
)
    requires
        settled(before),
        all_known(before, opids),
        opids.no_duplicates(),
        forall|i: int| 0 <= i < opids.len() ==> !before.valid.contains(#[trigger] opids[i]),
        shows(before, read_owned, read_global),
        reads_as(reader, read_owned, read_global),
        redone_all(before, after, opids, reader),
    ensures
        shows(after, read_owned, read_global),
    decreases opids.len(),
{
    if opids.len() > 0 {
        let less = opids.drop_last();
        let x = opids.last();
        let mid = choose|mid: StockView|
            redone_all(before, mid, less, reader) && #[trigger] redone(mid, after, x, reader);
        assert forall|i: int| 0 <= i < less.len() implies before.known(#[trigger] less[i])
            && !before.valid.contains(less[i]) by {
            assert(before.known(opids[i]) && !before.valid.contains(opids[i]));
        }
        law_forward_keeps_state_shown(before, mid, less, reader, read_owned, read_global);
        law_forward_keeps_contract_settled(before, mid, less, reader);
        let n = opids.len() - 1;
        assert(before.known(opids[n]) && !before.valid.contains(opids[n]));
        assert(!less.contains(x)) by {
            if less.contains(x) {
                let k = choose|k: int| 0 <= k < less.len() && less[k] == x;
                assert(opids[k] == opids[n]);
            }
        }
        assert(!mid.valid.contains(x));
        assert(mid.ops[x].well_formed());
        if eligible(mid, x) {
            let op = choose|op: Operation|
                {
                    &&& op@ == mid.ops[x]
                    &&& accepted(mid, op@)
                    &&& mid.state.raw.has_inputs(op@)
                    &&& crate::articles::has_reads(mid.state.raw, op@)
                    &&& #[trigger] applied_by(mid, after, x, op, false, reader)
                };
            law_apply_keeps_state_shown(mid, after, x, op, reader, read_owned, read_global);
        }
    }
}

/// Bringing operations back restores what the processed state shows and their rollback has changed,
/// wherever the chain of the descendants is in the order of dependence.
pub proof fn law_forward_restores_shown_state<
    G: Fn(usize, &StateData) -> Conversion<StateAtom>,
    O: Fn(usize, StateValue) -> Conversion<StrictVal>,
>(
    before: StockView,
    mid: StockView,
    after: StockView,
    seeds: Seq<Opid>,
    chain: Seq<Opid>,
    reader: ApiReader<G, O>,
    read_owned: spec_fn(StateValue) -> ConversionView<StrictVal>,
    read_global: spec_fn(StateData) -> ConversionView<StateAtom>,
    name: Seq<char>,
)
    requires
        settled(before),
        all_known(before, chain),
        undisputed(before, chain),
        held_back(before, chain),
        walk(seeds, descendant_links(before), chain),
        parents_first(before, chain),
        shows(before, read_owned, read_global),
        reads_as(reader, read_owned, read_global),
        undone_all(before, mid, chain.reverse(), reader),
        redone_all(mid, after, chain, reader),
    ensures
        cells_of(after.state.main.owned, name) == cells_of(before.state.main.owned, name),
        cells_of(after.state.main.global, name) == cells_of(before.state.main.global, name),
{
    let order = chain.reverse();
    assert forall|i: int| 0 <= i < order.len() implies before.known(#[trigger] order[i]) by {
        assert(before.known(chain[chain.len() - 1 - i]));
    }
    law_rollback_keeps_state_shown(before, mid, order, reader, read_owned, read_global);
    law_rollback_keeps_contract_settled(before, mid, seeds, chain, reader);
    crate::history::lemma_undone_frame(before, mid, order, reader);
    crate::chain::law_chain_holds_the_reached(seeds, descendant_links(before), chain);
    assert forall|i: int| 0 <= i < chain.len() implies mid.known(#[trigger] chain[i])
        && !mid.valid.contains(chain[i]) by {
        assert(before.known(chain[i]));
        assert(chain.to_set().contains(chain[i]));
    }
    law_forward_keeps_state_shown(mid, after, chain, reader, read_owned, read_global);
    law_forward_undoes_rollback(before, mid, after, seeds, chain, reader, reader);
    assert(in_step(after.state.main, before.state.raw, read_owned, read_global));
    law_states_in_step_agree(
        after.state.main,
        before.state.main,
        before.state.raw,
        read_owned,
        read_global,
        name,
    );
}

} // verus!
