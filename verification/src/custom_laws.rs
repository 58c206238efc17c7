//! What holds of the default API holds of each custom one: its processed state shows the memory which
//! the valid operations of the contract make.

use crate::accept::{admitted, admitted_all};
use crate::aggregate::aggregation;
use crate::apply::{applied_by, recorded};
use crate::articles::{has_reads, Articles};
use crate::cells::lists;
use crate::chain::{law_chain_holds_the_reached, walk};
use crate::family_laws::output_at;
use crate::forward::{accepted, eligible, redone, redone_all};
use crate::history::{
    collision_free, held_back, law_accept_keeps_contract_settled, law_forward_keeps_contract_settled, law_forward_undoes_rollback,
    law_rollback_keeps_contract_settled, lemma_undone_cells, lemma_undone_frame, parents_first,
    settled, traced, undisputed,
};
use crate::ledger::{all_known, descendant_links, issued};
use crate::processed::{
    conversions, ApiReading, Conversion, ConversionView, ProcessedView, ReadingView, StateAtom,
};
use crate::processed_laws::{
    faithful, in_step, law_apply_keeps_step, law_rebuilt_state_is_in_step, law_rollback_keeps_step,
    law_states_in_step_agree,
};
use crate::raw::{fresh, law_rollback_undoes_apply, RawView, TransitionView};
use crate::reader::{
    reads_by, reads_state_by, readings_by, restorations_by, restores_by, ApiReader,
};
use crate::rollback::{lemma_lists_unique, taken_back, undone, undone_all};
use crate::shown::{law_apply_keeps_state_shown, reads_as, shows};
use crate::sorted::{cells_of, NamedCells, SortedMap};
use crate::state::{
    api_computed, aux_applied, aux_computed, aux_rebuilt, aux_rolled_back, aux_state, aux_view,
    custom_views, given_readings, given_restorations, is_custom, rebuilt, restored_views,
    EffectiveState, EffectiveView, Readings, ReadingsView, Restorations, RestorationsView,
    Semantics,
};
use crate::stock::{refreshed, StockView};
use crate::types::{CellAddr, Operation, OperationView, Opid, StateCell};
use crate::ultra::committed_opid;
use strict_types::StrictVal;
use ultrasonic::StateData;
use ultrasonic::StateValue;
use vstd::prelude::*;

verus! {

/// No name repeats.
pub open spec fn distinct_names<X>(list: Seq<(Seq<char>, X)>) -> bool {
    forall|i: int, j: int|
        0 <= i < j < list.len() ==> (#[trigger] list[i]).0 != (#[trigger] list[j]).0
}

/// The processed state of the custom API under the given name shows the cells of the raw state, the
/// way the API reads them. An API without a state shows no cell.
pub open spec fn custom_in_step(
    state: EffectiveView,
    name: Seq<char>,
    read_owned: spec_fn(StateValue) -> ConversionView<StrictVal>,
    read_global: spec_fn(StateData) -> ConversionView<StateAtom>,
) -> bool {
    if state.aux.contains_key(name) {
        in_step(state.aux[name], state.raw, read_owned, read_global)
    } else {
        in_step(ProcessedView::empty(), state.raw, read_owned, read_global)
    }
}

/// An operation reaches the state of each API by its name, and leaves the others.
proof fn lemma_aux_applied(
    aux: Map<Seq<char>, ProcessedView>,
    custom: Seq<(Seq<char>, ReadingView)>,
    opid: Opid,
    op: OperationView,
)
    requires
        distinct_names(custom),
    ensures
        forall|k: int|
            0 <= k < custom.len() ==> aux_applied(aux, custom, opid, op).contains_key(
                (#[trigger] custom[k]).0,
            ) && aux_applied(aux, custom, opid, op)[custom[k].0] == aux_state(
                aux,
                custom[k].0,
            ).applied(opid, op, custom[k].1),
        forall|name: Seq<char>|
            (forall|k: int| 0 <= k < custom.len() ==> (#[trigger] custom[k]).0 != name)
                ==> #[trigger] aux_applied(aux, custom, opid, op).contains_key(name)
                == aux.contains_key(name) && aux_applied(aux, custom, opid, op)[name] == aux[name],
    decreases custom.len(),
{
    if custom.len() > 0 {
        let less = custom.drop_last();
        assert forall|k: int| 0 <= k < less.len() implies less[k] == custom[k] by {}
        lemma_aux_applied(aux, less, opid, op);
        let n = custom.len() - 1;
        let earlier = aux_applied(aux, less, opid, op);
        let last = custom[n].0;
        assert(forall|k: int| 0 <= k < less.len() ==> (#[trigger] less[k]).0 != last);
        assert(earlier.contains_key(last) == aux.contains_key(last));
        assert forall|name: Seq<char>|
            (forall|k: int| 0 <= k < custom.len() ==> (#[trigger] custom[k]).0 != name) implies
        #[trigger] aux_applied(aux, custom, opid, op).contains_key(name) == aux.contains_key(name)
            && aux_applied(aux, custom, opid, op)[name] == aux[name] by {
            assert(custom[n].0 != name);
            assert(forall|k: int| 0 <= k < less.len() ==> (#[trigger] less[k]).0 == custom[k].0);
            assert(earlier.contains_key(name) == aux.contains_key(name));
        }
        assert forall|k: int| 0 <= k < custom.len() implies aux_applied(
            aux,
            custom,
            opid,
            op,
        ).contains_key((#[trigger] custom[k]).0) && aux_applied(aux, custom, opid, op)[custom[k].0]
            == aux_state(aux, custom[k].0).applied(opid, op, custom[k].1) by {
            if k < n {
                assert(custom[k].0 != custom[n].0);
                assert(less[k] == custom[k]);
            }
        }
    }
}

/// A transition is taken back in the state of each API by its name, and the others are left.
proof fn lemma_aux_rolled_back(
    aux: Map<Seq<char>, ProcessedView>,
    custom: Seq<(Seq<char>, Seq<ConversionView<StrictVal>>)>,
    opid: Opid,
    destroyed: Seq<(CellAddr, StateCell)>,
)
    requires
        distinct_names(custom),
    ensures
        forall|k: int|
            0 <= k < custom.len() ==> aux_rolled_back(aux, custom, opid, destroyed).contains_key(
                (#[trigger] custom[k]).0,
            ) && aux_rolled_back(aux, custom, opid, destroyed)[custom[k].0] == aux_state(
                aux,
                custom[k].0,
            ).rolled_back(opid, destroyed, custom[k].1),
        forall|name: Seq<char>|
            (forall|k: int| 0 <= k < custom.len() ==> (#[trigger] custom[k]).0 != name)
                ==> #[trigger] aux_rolled_back(aux, custom, opid, destroyed).contains_key(name)
                == aux.contains_key(name) && aux_rolled_back(aux, custom, opid, destroyed)[name]
                == aux[name],
    decreases custom.len(),
{
    if custom.len() > 0 {
        let less = custom.drop_last();
        assert forall|k: int| 0 <= k < less.len() implies less[k] == custom[k] by {}
        lemma_aux_rolled_back(aux, less, opid, destroyed);
        let n = custom.len() - 1;
        let earlier = aux_rolled_back(aux, less, opid, destroyed);
        let last = custom[n].0;
        assert(forall|k: int| 0 <= k < less.len() ==> (#[trigger] less[k]).0 != last);
        assert(earlier.contains_key(last) == aux.contains_key(last));
        assert forall|name: Seq<char>|
            (forall|k: int| 0 <= k < custom.len() ==> (#[trigger] custom[k]).0 != name) implies
        #[trigger] aux_rolled_back(aux, custom, opid, destroyed).contains_key(name)
            == aux.contains_key(name) && aux_rolled_back(aux, custom, opid, destroyed)[name]
            == aux[name] by {
            assert(custom[n].0 != name);
            assert(forall|k: int| 0 <= k < less.len() ==> (#[trigger] less[k]).0 == custom[k].0);
            assert(earlier.contains_key(name) == aux.contains_key(name));
        }
        assert forall|k: int| 0 <= k < custom.len() implies aux_rolled_back(
            aux,
            custom,
            opid,
            destroyed,
        ).contains_key((#[trigger] custom[k]).0) && aux_rolled_back(
            aux,
            custom,
            opid,
            destroyed,
        )[custom[k].0] == aux_state(aux, custom[k].0).rolled_back(opid, destroyed, custom[k].1) by {
            if k < n {
                assert(custom[k].0 != custom[n].0);
                assert(less[k] == custom[k]);
            }
        }
    }
}

/// Applying an operation keeps the state of each custom API in step with the raw one. An API of which
/// nothing is read keeps its state.
pub proof fn law_apply_keeps_custom_step(
    state: EffectiveView,
    opid: Opid,
    op: OperationView,
    readings: ReadingsView,
    k: int,
    read_owned: spec_fn(StateValue) -> ConversionView<StrictVal>,
    read_global: spec_fn(StateData) -> ConversionView<StateAtom>,
)
    requires
        distinct_names(readings.custom),
        0 <= k < readings.custom.len(),
        custom_in_step(state, readings.custom[k].0, read_owned, read_global),
        fresh(state.raw, opid),
        op.well_formed(),
        faithful(readings.custom[k].1, op, read_owned, read_global),
    ensures
        state.applied(opid, op, Some(readings)).aux.contains_key(readings.custom[k].0),
        custom_in_step(
            state.applied(opid, op, Some(readings)),
            readings.custom[k].0,
            read_owned,
            read_global,
        ),
{
    let (name, reading) = readings.custom[k];
    lemma_aux_applied(state.aux, readings.custom, opid, op);
    law_apply_keeps_step(
        aux_state(state.aux, name),
        state.raw,
        opid,
        op,
        reading,
        read_owned,
        read_global,
    );
}

/// Taking a transition back keeps the state of each custom API in step with the raw one.
pub proof fn law_rollback_keeps_custom_step(
    state: EffectiveView,
    transition: TransitionView,
    destroyed: Seq<(CellAddr, StateCell)>,
    readings: RestorationsView,
    k: int,
    read_owned: spec_fn(StateValue) -> ConversionView<StrictVal>,
    read_global: spec_fn(StateData) -> ConversionView<StateAtom>,
)
    requires
        distinct_names(readings.custom),
        0 <= k < readings.custom.len(),
        custom_in_step(state, readings.custom[k].0, read_owned, read_global),
        lists(destroyed, transition.destroyed),
        readings.custom[k].1.len() == destroyed.len(),
        forall|i: int|
            0 <= i < destroyed.len() ==> #[trigger] readings.custom[k].1[i] == read_owned(
                destroyed[i].1.data,
            ),
        forall|addr: CellAddr| #[trigger]
            transition.destroyed.contains_key(addr) && state.raw.owned.contains_key(addr)
                ==> state.raw.owned[addr] == transition.destroyed[addr],
    ensures
        state.rolled_back(transition, destroyed, Some(readings)).aux.contains_key(
            readings.custom[k].0,
        ),
        custom_in_step(
            state.rolled_back(transition, destroyed, Some(readings)),
            readings.custom[k].0,
            read_owned,
            read_global,
        ),
{
    let (name, list) = readings.custom[k];
    lemma_aux_rolled_back(state.aux, readings.custom, transition.opid, destroyed);
    law_rollback_keeps_step(
        aux_state(state.aux, name),
        state.raw,
        transition,
        destroyed,
        list,
        read_owned,
        read_global,
    );
}

/// A custom API which reads the cells as the default one does, and has the same state, has the same
/// state after an operation and after a transition was taken back. An API which the readings don't
/// name keeps its state.
pub proof fn law_custom_states_follow_the_default_one(
    state: EffectiveView,
    opid: Opid,
    op: OperationView,
    readings: ReadingsView,
    transition: TransitionView,
    destroyed: Seq<(CellAddr, StateCell)>,
    restorations: RestorationsView,
)
    requires
        distinct_names(readings.custom),
        distinct_names(restorations.custom),
    ensures
        forall|k: int|
            0 <= k < readings.custom.len() && (#[trigger] readings.custom[k]).1 == readings.main
                && state.aux.contains_key(readings.custom[k].0) && state.aux[readings.custom[k].0]
                == state.main ==> state.applied(
                opid,
                op,
                Some(readings),
            ).aux[readings.custom[k].0] == state.applied(opid, op, Some(readings)).main,
        forall|k: int|
            0 <= k < restorations.custom.len() && (#[trigger] restorations.custom[k]).1
                == restorations.main && state.aux.contains_key(restorations.custom[k].0)
                && state.aux[restorations.custom[k].0] == state.main ==> state.rolled_back(
                transition,
                destroyed,
                Some(restorations),
            ).aux[restorations.custom[k].0] == state.rolled_back(
                transition,
                destroyed,
                Some(restorations),
            ).main,
        forall|name: Seq<char>|
            state.aux.contains_key(name) && (forall|k: int|
                0 <= k < readings.custom.len() ==> (#[trigger] readings.custom[k]).0 != name)
                ==> #[trigger] state.applied(opid, op, Some(readings)).aux[name] == state.aux[name],
        forall|name: Seq<char>|
            state.aux.contains_key(name) && (forall|k: int|
                0 <= k < restorations.custom.len() ==> (#[trigger] restorations.custom[k]).0
                    != name) ==> #[trigger] state.rolled_back(
                transition,
                destroyed,
                Some(restorations),
            ).aux[name] == state.aux[name],
{
    lemma_aux_applied(state.aux, readings.custom, opid, op);
    lemma_aux_rolled_back(state.aux, restorations.custom, transition.opid, destroyed);
    assert forall|name: Seq<char>|
        state.aux.contains_key(name) && (forall|k: int|
            0 <= k < readings.custom.len() ==> (#[trigger] readings.custom[k]).0 != name) implies
    #[trigger] state.applied(opid, op, Some(readings)).aux[name] == state.aux[name] by {
        assert(aux_applied(state.aux, readings.custom, opid, op).contains_key(name));
    }
    assert forall|name: Seq<char>|
        state.aux.contains_key(name) && (forall|k: int|
            0 <= k < restorations.custom.len() ==> (#[trigger] restorations.custom[k]).0 != name) implies
    #[trigger] state.rolled_back(transition, destroyed, Some(restorations)).aux[name]
        == state.aux[name] by {
        assert(aux_rolled_back(
            state.aux,
            restorations.custom,
            transition.opid,
            destroyed,
        ).contains_key(name));
    }
}

/// Applying an operation and taking it back restores the cells which a custom API shows under every
/// name.
pub proof fn law_rollback_restores_custom_cells(
    state: EffectiveView,
    opid: Opid,
    op: OperationView,
    readings: ReadingsView,
    destroyed: Seq<(CellAddr, StateCell)>,
    restorations: RestorationsView,
    k: int,
    read_owned: spec_fn(StateValue) -> ConversionView<StrictVal>,
    read_global: spec_fn(StateData) -> ConversionView<StateAtom>,
    name: Seq<char>,
)
    requires
        distinct_names(readings.custom),
        distinct_names(restorations.custom),
        0 <= k < readings.custom.len(),
        k < restorations.custom.len(),
        restorations.custom[k].0 == readings.custom[k].0,
        state.aux.contains_key(readings.custom[k].0),
        custom_in_step(state, readings.custom[k].0, read_owned, read_global),
        fresh(state.raw, opid),
        state.raw.has_inputs(op),
        op.well_formed(),
        faithful(readings.custom[k].1, op, read_owned, read_global),
        lists(destroyed, state.raw.transition(opid, op).destroyed),
        restorations.custom[k].1.len() == destroyed.len(),
        forall|i: int|
            0 <= i < destroyed.len() ==> #[trigger] restorations.custom[k].1[i] == read_owned(
                destroyed[i].1.data,
            ),
    ensures
        ({
            let api = readings.custom[k].0;
            let back = state.applied(opid, op, Some(readings)).rolled_back(
                state.raw.transition(opid, op),
                destroyed,
                Some(restorations),
            );
            &&& back.aux.contains_key(api)
            &&& cells_of(back.aux[api].owned, name) == cells_of(state.aux[api].owned, name)
            &&& cells_of(back.aux[api].global, name) == cells_of(state.aux[api].global, name)
        }),
{
    let api = readings.custom[k].0;
    let transition = state.raw.transition(opid, op);
    let once = state.applied(opid, op, Some(readings));
    law_apply_keeps_custom_step(state, opid, op, readings, k, read_owned, read_global);
    assert forall|addr: CellAddr| #[trigger]
        transition.destroyed.contains_key(addr) && once.raw.owned.contains_key(
            addr,
        ) implies once.raw.owned[addr] == transition.destroyed[addr] by {
        assert(state.raw.owned.contains_key(addr));
    }
    law_rollback_keeps_custom_step(
        once,
        transition,
        destroyed,
        restorations,
        k,
        read_owned,
        read_global,
    );
    let back = once.rolled_back(transition, destroyed, Some(restorations));
    law_rollback_undoes_apply(state.raw, opid, op);
    assert(in_step(back.aux[api], back.raw, read_owned, read_global));
    let raw = RawView { auth: back.raw.auth, ..state.raw };
    assert(back.raw == raw);
    assert(in_step(state.aux[api], raw, read_owned, read_global));
    law_states_in_step_agree(back.aux[api], state.aux[api], raw, read_owned, read_global, name);
}

/// The API with the given number reads cells as the given functions say, and at once.
pub open spec fn api_reads_as<
    G: Fn(usize, &StateData) -> Conversion<StateAtom>,
    O: Fn(usize, StateValue) -> Conversion<StrictVal>,
>(
    reader: ApiReader<G, O>,
    api: usize,
    read_owned: spec_fn(StateValue) -> ConversionView<StrictVal>,
    read_global: spec_fn(StateData) -> ConversionView<StateAtom>,
) -> bool {
    &&& !reader.defer
    &&& forall|data: StateData, reading: Conversion<StateAtom>| #[trigger]
        call_ensures(reader.global, (api, &data), reading) ==> reading@ == read_global(data)
    &&& forall|value: StateValue, reading: Conversion<StrictVal>| #[trigger]
        call_ensures(reader.owned, (api, value), reading) ==> reading@ == read_owned(value)
}

/// The state as the custom API with the given number reads it shows the memory of the contract.
pub open spec fn shows_custom(
    model: StockView,
    k: int,
    read_owned: spec_fn(StateValue) -> ConversionView<StrictVal>,
    read_global: spec_fn(StateData) -> ConversionView<StateAtom>,
) -> bool {
    custom_in_step(model.state, model.articles.semantics.custom@[k].0@, read_owned, read_global)
}

/// The readings of a reader are what the functions say.
proof fn lemma_api_faithful<
    G: Fn(usize, &StateData) -> Conversion<StateAtom>,
    O: Fn(usize, StateValue) -> Conversion<StrictVal>,
>(
    reader: ApiReader<G, O>,
    api: usize,
    read_owned: spec_fn(StateValue) -> ConversionView<StrictVal>,
    read_global: spec_fn(StateData) -> ConversionView<StateAtom>,
    op: Operation,
    reading: ApiReading,
)
    requires
        api_reads_as(reader, api, read_owned, read_global),
        reads_by(reader, api, op, reading),
    ensures
        faithful(reading@, op@, read_owned, read_global),
{
    assert forall|i: int| 0 <= i < op@.immutable_out.len() implies #[trigger] reading@.global[i]
        == read_global(op@.immutable_out[i]) by {
        assert(reading@.global[i] == reading.global@[i]@);
        assert(call_ensures(reader.global, (api, &op.immutable_out@[i]), reading.global@[i]));
    }
    assert forall|i: int| 0 <= i < op@.destructible_out.len() implies #[trigger] reading@.owned[i]
        == read_owned(op@.destructible_out[i].data) by {
        assert(reading@.owned[i] == reading.owned@[i]@);
        assert(call_ensures(reader.owned, (api, op.destructible_out@[i].data), reading.owned@[i]));
    }
}

/// A contract which has just been issued shows the outputs of its genesis in the state of each custom
/// API.
pub proof fn law_issued_contract_is_shown_by_custom_apis(
    articles: Articles,
    readings: ReadingsView,
    k: int,
    read_owned: spec_fn(StateValue) -> ConversionView<StrictVal>,
    read_global: spec_fn(StateData) -> ConversionView<StateAtom>,
)
    requires
        articles.genesis@.well_formed(),
        distinct_names(readings.custom),
        0 <= k < readings.custom.len() == articles.semantics.custom@.len(),
        readings.custom[k].0 == articles.semantics.custom@[k].0@,
        faithful(readings.custom[k].1, articles.genesis@, read_owned, read_global),
    ensures
        shows_custom(issued(articles, Some(readings)), k, read_owned, read_global),
{
    let start = EffectiveView {
        raw: RawView::empty(),
        main: ProcessedView::empty(),
        aux: Map::empty(),
    };
    law_apply_keeps_custom_step(
        start,
        committed_opid(articles.genesis@),
        articles.genesis@,
        readings,
        k,
        read_owned,
        read_global,
    );
}

/// The state of each custom API keeps showing the memory, when an operation is applied.
pub proof fn law_apply_keeps_custom_state_shown<
    G: Fn(usize, &StateData) -> Conversion<StateAtom>,
    O: Fn(usize, StateValue) -> Conversion<StrictVal>,
>(
    before: StockView,
    after: StockView,
    opid: Opid,
    op: Operation,
    reader: ApiReader<G, O>,
    k: int,
    read_owned: spec_fn(StateValue) -> ConversionView<StrictVal>,
    read_global: spec_fn(StateData) -> ConversionView<StateAtom>,
)
    requires
        settled(before),
        before.articles.semantics.well_formed(),
        0 <= k < before.articles.semantics.custom@.len(),
        shows_custom(before, k, read_owned, read_global),
        api_reads_as(reader, (k + 1) as usize, read_owned, read_global),
        op@.well_formed(),
        !before.valid.contains(opid),
        applied_by(before, after, opid, op, false, reader),
    ensures
        shows_custom(after, k, read_owned, read_global),
{
    let semantics = before.articles.semantics;
    let readings = choose|readings: Option<Readings>| #[trigger]
        readings_by(reader, semantics, op, readings) && recorded(
            before,
            after,
            opid,
            op@,
            false,
            readings,
        );
    assert(readings is Some);
    let given = readings->Some_0;
    assert(given_readings(readings) == Some(given@));
    assert forall|i: int| 0 <= i < given@.custom.len() implies #[trigger] given@.custom[i] == (
        semantics.custom@[i].0@,
        given.custom@[i].1@,
    ) by {
        assert(custom_views(given.custom@)[i] == (given.custom@[i].0@, given.custom@[i].1@));
    }
    assert forall|i: int, j: int| 0 <= i < j < given@.custom.len() implies (
    #[trigger] given@.custom[i]).0 != (#[trigger] given@.custom[j]).0 by {
        assert(semantics.custom@[i].0@ != semantics.custom@[j].0@);
    }
    let name = semantics.custom@[k].0@;
    assert(given@.custom[k].0 == name);
    assert(reads_by(reader, (k + 1) as usize, op, given.custom@[k].1));
    lemma_api_faithful(reader, (k + 1) as usize, read_owned, read_global, op, given.custom@[k].1);
    assert(fresh(before.state.raw, opid));
    law_apply_keeps_custom_step(before.state, opid, op@, given@, k, read_owned, read_global);
    let expected = before.state.applied(opid, op@, Some(given@));
    assert(expected.aux.contains_key(name));
    assert(after.state.aux.contains_key(name));
    assert(after.articles == before.articles);
}

/// The state of each custom API keeps showing the memory, when operations are rolled back.
pub proof fn law_rollback_keeps_custom_state_shown<
    G: Fn(usize, &StateData) -> Conversion<StateAtom>,
    O: Fn(usize, StateValue) -> Conversion<StrictVal>,
>(
    before: StockView,
    after: StockView,
    opids: Seq<Opid>,
    reader: ApiReader<G, O>,
    k: int,
    read_owned: spec_fn(StateValue) -> ConversionView<StrictVal>,
    read_global: spec_fn(StateData) -> ConversionView<StateAtom>,
)
    requires
        settled(before),
        before.articles.semantics.well_formed(),
        0 <= k < before.articles.semantics.custom@.len(),
        all_known(before, opids),
        shows_custom(before, k, read_owned, read_global),
        api_reads_as(reader, (k + 1) as usize, read_owned, read_global),
        undone_all(before, after, opids, reader),
    ensures
        shows_custom(after, k, read_owned, read_global),
        after.articles == before.articles,
    decreases opids.len(),
{
    if opids.len() > 0 {
        let semantics = before.articles.semantics;
        let less = opids.drop_last();
        let x = opids.last();
        let mid = choose|mid: StockView|
            undone_all(before, mid, less, reader) && #[trigger] undone(mid, after, x, reader);
        assert forall|i: int| 0 <= i < less.len() implies before.known(#[trigger] less[i]) by {
            assert(before.known(opids[i]));
        }
        law_rollback_keeps_custom_state_shown(
            before,
            mid,
            less,
            reader,
            k,
            read_owned,
            read_global,
        );
        lemma_undone_cells(before, mid, less, reader);
        assert(before.known(opids[opids.len() - 1]));
        let (destroyed, readings) = choose|
            destroyed: Seq<(CellAddr, StateCell)>,
            readings: Option<Restorations>,
        |
            {
                &&& lists(destroyed, taken_back(mid, x).destroyed)
                &&& #[trigger] restorations_by(reader, mid.articles.semantics, destroyed, readings)
                &&& after == StockView {
                    valid: mid.valid.remove(x),
                    state: after.state,
                    ..mid
                }
                &&& refreshed(
                    mid.state.rolled_back(
                        taken_back(mid, x),
                        destroyed,
                        given_restorations(readings),
                    ),
                    after.state,
                    readings is None,
                )
            };
        assert(readings is Some);
        let given = readings->Some_0;
        assert(given_restorations(readings) == Some(given@));
        let name = semantics.custom@[k].0@;
        assert forall|i: int| 0 <= i < given@.custom.len() implies (#[trigger] given@.custom[i]).0
            == semantics.custom@[i].0@ && given@.custom[i].1 == conversions(
            given.custom@[i].1@,
        ) by {
            assert(restored_views(given.custom@)[i] == (
                given.custom@[i].0@,
                conversions(given.custom@[i].1@),
            ));
        }
        assert forall|i: int, j: int| 0 <= i < j < given@.custom.len() implies (
        #[trigger] given@.custom[i]).0 != (#[trigger] given@.custom[j]).0 by {
            assert(semantics.custom@[i].0@ != semantics.custom@[j].0@);
        }
        assert(given@.custom[k].0 == name);
        assert(restores_by(reader, (k + 1) as usize, destroyed, given.custom@[k].1@));
        assert forall|i: int| 0 <= i < destroyed.len() implies #[trigger] given@.custom[k].1[i]
            == read_owned(destroyed[i].1.data) by {
            assert(given@.custom[k].1[i] == given.custom@[k].1@[i]@);
            assert(call_ensures(
                reader.owned,
                ((k + 1) as usize, destroyed[i].1.data),
                given.custom@[k].1@[i],
            ));
        }
        assert(traced(before, x));
        law_rollback_keeps_custom_step(
            mid.state,
            taken_back(mid, x),
            destroyed,
            given@,
            k,
            read_owned,
            read_global,
        );
        let expected = mid.state.rolled_back(taken_back(mid, x), destroyed, Some(given@));
        assert(expected.aux.contains_key(name));
        assert(after.state.aux.contains_key(name));
    }
}

/// The state of each custom API keeps showing the memory, when operations are brought back.
pub proof fn law_forward_keeps_custom_state_shown<
    G: Fn(usize, &StateData) -> Conversion<StateAtom>,
    O: Fn(usize, StateValue) -> Conversion<StrictVal>,
>(
    before: StockView,
    after: StockView,
    opids: Seq<Opid>,
    reader: ApiReader<G, O>,
    k: int,
    read_owned: spec_fn(StateValue) -> ConversionView<StrictVal>,
    read_global: spec_fn(StateData) -> ConversionView<StateAtom>,
)
    requires
        settled(before),
        before.articles.semantics.well_formed(),
        0 <= k < before.articles.semantics.custom@.len(),
        all_known(before, opids),
        opids.no_duplicates(),
        forall|i: int| 0 <= i < opids.len() ==> !before.valid.contains(#[trigger] opids[i]),
        shows_custom(before, k, read_owned, read_global),
        api_reads_as(reader, (k + 1) as usize, read_owned, read_global),
        redone_all(before, after, opids, reader),
    ensures
        shows_custom(after, k, read_owned, read_global),
        after.articles == before.articles,
    decreases opids.len(),
{
    if opids.len() > 0 {
        let less = opids.drop_last();
        let x = opids.last();
        let mid = choose|mid: StockView|
            redone_all(before, mid, less, reader) && #[trigger] redone(mid, after, x, reader);
        assert forall|i: int| 0 <= i < less.len() implies before.known(#[trigger] less[i])
            && !before.valid.contains(less[i]) by {
            assert(before.known(opids[i]) && !before.valid.contains(opids[i]));
        }
        law_forward_keeps_custom_state_shown(
            before,
            mid,
            less,
            reader,
            k,
            read_owned,
            read_global,
        );
        law_forward_keeps_contract_settled(before, mid, less, reader);
        let n = opids.len() - 1;
        assert(before.known(opids[n]) && !before.valid.contains(opids[n]));
        assert(!less.contains(x)) by {
            if less.contains(x) {
                let m = choose|m: int| 0 <= m < less.len() && less[m] == x;
                assert(opids[m] == opids[n]);
            }
        }
        assert(!mid.valid.contains(x));
        assert(mid.ops[x].well_formed());
        if eligible(mid, x) {
            let op = choose|op: Operation|
                {
                    &&& op@ == mid.ops[x]
                    &&& accepted(mid, op@)
                    &&& mid.state.raw.has_inputs(op@)
                    &&& has_reads(mid.state.raw, op@)
                    &&& #[trigger] applied_by(mid, after, x, op, false, reader)
                };
            law_apply_keeps_custom_state_shown(
                mid,
                after,
                x,
                op,
                reader,
                k,
                read_owned,
                read_global,
            );
        }
    }
}

/// Bringing operations back restores the cells which a custom API shows and their rollback has
/// changed, wherever the chain of the descendants is in the order of dependence.
pub proof fn law_forward_restores_custom_state<
    G: Fn(usize, &StateData) -> Conversion<StateAtom>,
    O: Fn(usize, StateValue) -> Conversion<StrictVal>,
>(
    before: StockView,
    mid: StockView,
    after: StockView,
    seeds: Seq<Opid>,
    chain: Seq<Opid>,
    reader: ApiReader<G, O>,
    k: int,
    read_owned: spec_fn(StateValue) -> ConversionView<StrictVal>,
    read_global: spec_fn(StateData) -> ConversionView<StateAtom>,
    name: Seq<char>,
)
    requires
        settled(before),
        before.articles.semantics.well_formed(),
        0 <= k < before.articles.semantics.custom@.len(),
        all_known(before, chain),
        undisputed(before, chain),
        held_back(before, chain),
        walk(seeds, descendant_links(before), chain),
        parents_first(before, chain),
        shows_custom(before, k, read_owned, read_global),
        api_reads_as(reader, (k + 1) as usize, read_owned, read_global),
        undone_all(before, mid, chain.reverse(), reader),
        redone_all(mid, after, chain, reader),
    ensures
        ({
            let api = before.articles.semantics.custom@[k].0@;
            let old_state = aux_state(before.state.aux, api);
            let new_state = aux_state(after.state.aux, api);
            &&& cells_of(new_state.owned, name) == cells_of(old_state.owned, name)
            &&& cells_of(new_state.global, name) == cells_of(old_state.global, name)
        }),
{
    let api = before.articles.semantics.custom@[k].0@;
    let order = chain.reverse();
    assert forall|i: int| 0 <= i < order.len() implies before.known(#[trigger] order[i]) by {
        assert(before.known(chain[chain.len() - 1 - i]));
    }
    law_rollback_keeps_custom_state_shown(before, mid, order, reader, k, read_owned, read_global);
    law_rollback_keeps_contract_settled(before, mid, seeds, chain, reader);
    lemma_undone_frame(before, mid, order, reader);
    law_chain_holds_the_reached(seeds, descendant_links(before), chain);
    assert forall|i: int| 0 <= i < chain.len() implies mid.known(#[trigger] chain[i])
        && !mid.valid.contains(chain[i]) by {
        assert(before.known(chain[i]));
        assert(chain.to_set().contains(chain[i]));
    }
    law_forward_keeps_custom_state_shown(mid, after, chain, reader, k, read_owned, read_global);
    law_forward_undoes_rollback(before, mid, after, seeds, chain, reader, reader);
    law_states_in_step_agree(
        aux_state(after.state.aux, api),
        aux_state(before.state.aux, api),
        before.state.raw,
        read_owned,
        read_global,
        name,
    );
}

/// The conversions are what the API makes of all the cells of a raw state.
pub open spec fn reads_raw(
    raw: RawView,
    reading: ReadingView,
    read_owned: spec_fn(StateValue) -> ConversionView<StrictVal>,
    read_global: spec_fn(StateData) -> ConversionView<StateAtom>,
) -> bool {
    exists|globals: Seq<(CellAddr, StateData)>, owned: Seq<(CellAddr, StateCell)>|
        {
            &&& #[trigger] lists(globals, raw.global)
            &&& #[trigger] lists(owned, raw.owned)
            &&& reading.global.len() == globals.len()
            &&& reading.owned.len() == owned.len()
            &&& forall|i: int|
                0 <= i < globals.len() ==> #[trigger] reading.global[i] == read_global(globals[i].1)
            &&& forall|i: int|
                0 <= i < owned.len() ==> #[trigger] reading.owned[i] == read_owned(owned[i].1.data)
        }
}

/// A state which was processed anew is in step with the raw state.
pub proof fn law_rebuilt_is_in_step(
    raw: RawView,
    reading: ReadingView,
    state: ProcessedView,
    read_owned: spec_fn(StateValue) -> ConversionView<StrictVal>,
    read_global: spec_fn(StateData) -> ConversionView<StateAtom>,
)
    requires
        rebuilt(raw, reading, state),
        reads_raw(raw, reading, read_owned, read_global),
    ensures
        in_step(state, raw, read_owned, read_global),
{
    let (globals, owned) = choose|
        globals: Seq<(CellAddr, StateData)>,
        owned: Seq<(CellAddr, StateCell)>,
    |
        lists(globals, raw.global) && lists(owned, raw.owned) && state
            == #[trigger] ProcessedView::empty().with_globals(globals, reading.global).with_owneds(
            owned,
            reading.owned,
        );
    let (read_globals, read_owneds) = choose|
        globals: Seq<(CellAddr, StateData)>,
        owned: Seq<(CellAddr, StateCell)>,
    |
        {
            &&& #[trigger] lists(globals, raw.global)
            &&& #[trigger] lists(owned, raw.owned)
            &&& reading.global.len() == globals.len()
            &&& reading.owned.len() == owned.len()
            &&& forall|i: int|
                0 <= i < globals.len() ==> #[trigger] reading.global[i] == read_global(globals[i].1)
            &&& forall|i: int|
                0 <= i < owned.len() ==> #[trigger] reading.owned[i] == read_owned(owned[i].1.data)
        };
    lemma_lists_unique(globals, read_globals, raw.global);
    lemma_lists_unique(owned, read_owneds, raw.owned);
    law_rebuilt_state_is_in_step(raw, globals, owned, reading, read_owned, read_global);
}

/// After all the cells were processed anew, there is a state of each custom API and of no other, and
/// each is in step with the raw state.
pub proof fn law_rebuilt_custom_states_are_in_step(
    state: EffectiveView,
    readings: ReadingsView,
    k: int,
    read_owned: spec_fn(StateValue) -> ConversionView<StrictVal>,
    read_global: spec_fn(StateData) -> ConversionView<StateAtom>,
)
    requires
        aux_rebuilt(state.raw, readings.custom, state.aux),
        0 <= k < readings.custom.len(),
        reads_raw(state.raw, readings.custom[k].1, read_owned, read_global),
    ensures
        state.aux.contains_key(readings.custom[k].0),
        custom_in_step(state, readings.custom[k].0, read_owned, read_global),
        forall|name: Seq<char>| #[trigger]
            state.aux.contains_key(name) ==> exists|i: int|
                0 <= i < readings.custom.len() && (#[trigger] readings.custom[i]).0 == name,
{
    let (name, reading) = readings.custom[k];
    assert(readings.custom[k].0 == name);
    assert(state.aux.contains_key(name));
    law_rebuilt_is_in_step(state.raw, reading, state.aux[name], read_owned, read_global);
}

/// The readings of all the cells of a raw state are what each API makes of them.
pub proof fn law_state_is_read_by_every_api<
    G: Fn(usize, &StateData) -> Conversion<StateAtom>,
    O: Fn(usize, StateValue) -> Conversion<StrictVal>,
>(
    reader: ApiReader<G, O>,
    raw: RawView,
    readings: Readings,
    k: int,
    read_owned: spec_fn(StateValue) -> ConversionView<StrictVal>,
    read_global: spec_fn(StateData) -> ConversionView<StateAtom>,
)
    requires
        exists|globals: Seq<(CellAddr, StateData)>, owned: Seq<(CellAddr, StateCell)>|
            {
                &&& #[trigger] lists(globals, raw.global)
                &&& #[trigger] lists(owned, raw.owned)
                &&& reads_state_by(reader, 0, globals, owned, readings.main)
                &&& forall|k: int|
                    0 <= k < readings.custom@.len() ==> reads_state_by(
                        reader,
                        (k + 1) as usize,
                        globals,
                        owned,
                        (#[trigger] readings.custom@[k]).1,
                    )
            },
        0 <= k <= readings.custom@.len(),
        api_reads_as(reader, k as usize, read_owned, read_global),
    ensures
        k == 0 ==> reads_raw(raw, readings.main@, read_owned, read_global),
        k > 0 ==> reads_raw(raw, readings.custom@[k - 1].1@, read_owned, read_global),
{
    let (globals, owned) = choose|
        globals: Seq<(CellAddr, StateData)>,
        owned: Seq<(CellAddr, StateCell)>,
    |
        {
            &&& #[trigger] lists(globals, raw.global)
            &&& #[trigger] lists(owned, raw.owned)
            &&& reads_state_by(reader, 0, globals, owned, readings.main)
            &&& forall|k: int|
                0 <= k < readings.custom@.len() ==> reads_state_by(
                    reader,
                    (k + 1) as usize,
                    globals,
                    owned,
                    (#[trigger] readings.custom@[k]).1,
                )
        };
    let reading = if k == 0 {
        readings.main
    } else {
        readings.custom@[k - 1].1
    };
    let api = k as usize;
    assert(reads_state_by(reader, api, globals, owned, reading));
    assert forall|i: int| 0 <= i < globals.len() implies #[trigger] reading@.global[i]
        == read_global(globals[i].1) by {
        assert(reading@.global[i] == reading.global@[i]@);
        assert(call_ensures(reader.global, (api, &globals[i].1), reading.global@[i]));
    }
    assert forall|i: int| 0 <= i < owned.len() implies #[trigger] reading@.owned[i] == read_owned(
        owned[i].1.data,
    ) by {
        assert(reading@.owned[i] == reading.owned@[i]@);
        assert(call_ensures(reader.owned, (api, owned[i].1.data), reading.owned@[i]));
    }
}

/// But for what is computed, the states are the same.
pub open spec fn same_cells(one: ProcessedView, other: ProcessedView) -> bool {
    &&& one.global == other.global
    &&& one.owned == other.owned
    &&& one.invalid_global == other.invalid_global
    &&& one.invalid_owned == other.invalid_owned
}

/// Computing the aggregates anew changes nothing but the aggregates, and brings up to date those of
/// the default API and those of every custom one, each of them from its own global state and by its own
/// aggregators. Where a custom API had no state, it gets one without cells; there are no others.
pub proof fn law_recompute_reaches_every_api<
    F: Fn(usize, usize, &NamedCells<StateAtom>, &SortedMap<String, StrictVal>) -> Option<StrictVal>,
>(semantics: Semantics, evaluate: F, before: EffectiveView, after: EffectiveState)
    requires
        api_computed(semantics.default, evaluate, 0, before.main, after.main),
        aux_computed(semantics, evaluate, semantics.custom@.len() as int, before.aux, after.aux),
    ensures
        same_cells(after@.main, before.main),
        aggregation(
            semantics.default.aggregators@,
            after.main.global,
            evaluate,
            0,
            after@.main.aggregated,
        ),
        forall|k: int|
            0 <= k < semantics.custom@.len() ==> {
                let name = (#[trigger] semantics.custom@[k]).0@;
                &&& after@.aux.contains_key(name)
                &&& before.aux.contains_key(name) ==> same_cells(after@.aux[name], before.aux[name])
                &&& !before.aux.contains_key(name) ==> same_cells(
                    after@.aux[name],
                    ProcessedView::empty(),
                )
                &&& aggregation(
                    semantics.custom@[k].1.aggregators@,
                    after.aux.content()[name].global,
                    evaluate,
                    (k + 1) as usize,
                    after@.aux[name].aggregated,
                )
            },
        forall|name: Seq<char>|
            before.aux.contains_key(name) && (forall|k: int|
                0 <= k < semantics.custom@.len() ==> (#[trigger] semantics.custom@[k]).0@ != name)
                ==> #[trigger] after@.aux.contains_key(name) && after@.aux[name]
                == before.aux[name],
        forall|name: Seq<char>| #[trigger]
            after@.aux.contains_key(name) ==> before.aux.contains_key(name) || exists|k: int|
                0 <= k < semantics.custom@.len() && (#[trigger] semantics.custom@[k]).0@ == name,
{
    let n = semantics.custom@.len() as int;
    assert forall|k: int| 0 <= k < n implies {
        let name = (#[trigger] semantics.custom@[k]).0@;
        &&& after@.aux.contains_key(name)
        &&& before.aux.contains_key(name) ==> same_cells(after@.aux[name], before.aux[name])
        &&& !before.aux.contains_key(name) ==> same_cells(after@.aux[name], ProcessedView::empty())
        &&& aggregation(
            semantics.custom@[k].1.aggregators@,
            after.aux.content()[name].global,
            evaluate,
            (k + 1) as usize,
            after@.aux[name].aggregated,
        )
    } by {
        let name = semantics.custom@[k].0@;
        assert(is_custom(semantics, n, name));
        assert(aux_view(after.aux).contains_key(name));
        assert(api_computed(
            semantics.custom@[k].1,
            evaluate,
            (k + 1) as usize,
            aux_state(before.aux, name),
            after.aux.content()[name],
        ));
        assert(after@.aux[name] == after.aux.content()[name]@);
    }
    assert forall|name: Seq<char>|
        before.aux.contains_key(name) && (forall|k: int|
            0 <= k < n ==> (#[trigger] semantics.custom@[k]).0@ != name) implies
    #[trigger] after@.aux.contains_key(name) && after@.aux[name] == before.aux[name] by {
        assert(!is_custom(semantics, n, name));
        assert(aux_view(after.aux).contains_key(name));
        assert(aux_view(after.aux)[name] == before.aux[name]);
    }
    assert forall|name: Seq<char>| #[trigger]
        after@.aux.contains_key(name) implies before.aux.contains_key(name) || exists|k: int|
        0 <= k < n && (#[trigger] semantics.custom@[k]).0@ == name by {
        assert(aux_view(after.aux).contains_key(name));
    }
}

/// Where the processing is deferred, an operation and a rollback change the raw state as ever, and
/// leave all the processed states as they are.
pub proof fn law_deferred_processing_leaves_processed_states(
    state: EffectiveView,
    opid: Opid,
    op: OperationView,
    transition: TransitionView,
    destroyed: Seq<(CellAddr, StateCell)>,
    readings: Option<ReadingsView>,
    restorations: Option<RestorationsView>,
)
    ensures
        state.applied(opid, op, None).main == state.main,
        state.applied(opid, op, None).aux == state.aux,
        state.rolled_back(transition, destroyed, None).main == state.main,
        state.rolled_back(transition, destroyed, None).aux == state.aux,
        state.applied(opid, op, readings).raw == state.raw.applied(opid, op),
        state.rolled_back(transition, destroyed, restorations).raw == state.raw.rolled_back(
            transition,
        ),
{
}

/// A contract which has just been issued knows of genesis alone: genesis is valid, and there is no
/// other operation, no transition, and nobody has taken any cell.
pub proof fn law_issued_contract_has_nothing_but_genesis(
    articles: Articles,
    readings: Option<ReadingsView>,
)
    ensures
        ({
            let model = issued(articles, readings);
            let genesis = committed_opid(articles.genesis@);
            &&& model.articles == articles
            &&& forall|opid: Opid| #[trigger] model.valid.contains(opid) <==> opid == genesis
            &&& forall|opid: Opid| !#[trigger] model.ops.contains_key(opid)
            &&& model.stash.len() == 0
            &&& forall|opid: Opid| !#[trigger] model.trace.contains_key(opid)
            &&& forall|addr: CellAddr| !#[trigger] model.spent.contains_key(addr)
            &&& forall|addr: CellAddr| !#[trigger] model.read.contains_key(addr)
            &&& forall|no: u16|
                no < articles.genesis@.destructible_out.len() ==> model.state.raw.owned.contains_key(
                    #[trigger] output_at(genesis, no),
                ) && model.state.raw.owned[output_at(genesis, no)]
                    == articles.genesis@.destructible_out[no as int]
            &&& forall|no: u16|
                no < articles.genesis@.immutable_out.len() ==> model.state.raw.global.contains_key(
                    #[trigger] output_at(genesis, no),
                ) && model.state.raw.global[output_at(genesis, no)]
                    == articles.genesis@.immutable_out[no as int]
            &&& forall|addr: CellAddr| #[trigger]
                model.state.raw.owned.contains_key(addr) ==> addr.opid == genesis && addr.pos
                    < articles.genesis@.destructible_out.len()
            &&& forall|addr: CellAddr| #[trigger]
                model.state.raw.global.contains_key(addr) ==> addr.opid == genesis && addr.pos
                    < articles.genesis@.immutable_out.len()
        }),
{
}

/// A contract which has just been issued shows the outputs of its genesis in the state of the default
/// API.
pub proof fn law_issued_contract_is_shown(
    articles: Articles,
    readings: ReadingsView,
    read_owned: spec_fn(StateValue) -> ConversionView<StrictVal>,
    read_global: spec_fn(StateData) -> ConversionView<StateAtom>,
)
    requires
        articles.genesis@.well_formed(),
        faithful(readings.main, articles.genesis@, read_owned, read_global),
    ensures
        shows(issued(articles, Some(readings)), read_owned, read_global),
{
    law_apply_keeps_step(
        ProcessedView::empty(),
        RawView::empty(),
        committed_opid(articles.genesis@),
        articles.genesis@,
        readings.main,
        read_owned,
        read_global,
    );
}

/// The states of all the APIs keep showing the memory, when the operations of a stream are accepted.
pub proof fn law_accept_keeps_states_shown<
    G: Fn(usize, &StateData) -> Conversion<StateAtom>,
    O: Fn(usize, StateValue) -> Conversion<StrictVal>,
>(
    before: StockView,
    after: StockView,
    ops: Seq<OperationView>,
    reader: ApiReader<G, O>,
    k: int,
    main_owned: spec_fn(StateValue) -> ConversionView<StrictVal>,
    main_global: spec_fn(StateData) -> ConversionView<StateAtom>,
    read_owned: spec_fn(StateValue) -> ConversionView<StrictVal>,
    read_global: spec_fn(StateData) -> ConversionView<StateAtom>,
)
    requires
        settled(before),
        before.articles.semantics.well_formed(),
        0 <= k < before.articles.semantics.custom@.len(),
        forall|i: int|
            0 <= i < ops.len() ==> (#[trigger] ops[i]).well_formed() && ops[i].distinct_inputs(),
        collision_free(before, ops),
        admitted_all(before, after, ops, reader),
        shows(before, main_owned, main_global),
        reads_as(reader, main_owned, main_global),
        shows_custom(before, k, read_owned, read_global),
        api_reads_as(reader, (k + 1) as usize, read_owned, read_global),
    ensures
        shows(after, main_owned, main_global),
        shows_custom(after, k, read_owned, read_global),
    decreases ops.len(),
{
    if ops.len() > 0 {
        let less = ops.drop_last();
        let op = ops.last();
        let id = committed_opid(op);
        let mid = choose|mid: StockView|
            admitted_all(before, mid, less, reader) && #[trigger] admitted(mid, after, op, reader);
        assert forall|i: int| 0 <= i < less.len() implies (#[trigger] less[i]).well_formed()
            && less[i].distinct_inputs() by {
            assert(less[i] == ops[i]);
        }
        lemma_fewer_collide(before, ops);
        law_accept_keeps_states_shown(
            before,
            mid,
            less,
            reader,
            k,
            main_owned,
            main_global,
            read_owned,
            read_global,
        );
        law_accept_keeps_contract_settled(before, mid, less, reader);
        assert(op == ops[ops.len() - 1]);
        if !(op.contract_id == mid.articles.contract_id && mid.valid.contains(id)) {
            let operation = choose|operation: Operation|
                {
                    &&& operation@ == op
                    &&& accepted(mid, op)
                    &&& mid.state.raw.has_inputs(op)
                    &&& has_reads(mid.state.raw, op)
                    &&& #[trigger] applied_by(mid, after, id, operation, false, reader)
                };
            assert(!mid.valid.contains(id));
            law_apply_keeps_state_shown(mid, after, id, operation, reader, main_owned, main_global);
            law_apply_keeps_custom_state_shown(
                mid,
                after,
                id,
                operation,
                reader,
                k,
                read_owned,
                read_global,
            );
        }
    }
}

/// Fewer operations do not collide either.
proof fn lemma_fewer_collide(model: StockView, ops: Seq<OperationView>)
    requires
        ops.len() > 0,
        collision_free(model, ops),
    ensures
        collision_free(model, ops.drop_last()),
{
    let less = ops.drop_last();
    assert forall|i: int| 0 <= i < less.len() implies less[i] == ops[i] by {}
}

} // verus!
