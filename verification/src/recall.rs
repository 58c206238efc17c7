//! What the processed state of a contract remembers of its valid operations: the names of the states
//! they have defined, and the data which could not be read.

use crate::apply::{applied_by, recorded};
use crate::articles::{has_reads, Articles};
use crate::cells::lists;
use crate::chain::{law_chain_holds_the_reached, walk};
use crate::forward::{accepted, eligible, redone, redone_all};
use crate::history::{
    cell_of, held_back, is_data, is_output, law_rollback_keeps_contract_settled,
    lemma_fewer_eligible, lemma_redone_order, lemma_undone_frame, op_data, parents_first, settled,
    takes, traced, undisputed,
};
use crate::ledger::{all_known, descendant_links, genesis_of, issued};
use crate::processed::{
    numbered, Conversion, ConversionView, ProcessedView, ReadingView, StateAtom,
};
use crate::processed_laws::faithful;
use crate::raw::input_addrs;
use crate::reader::{readings_by, restorations_by, ApiReader};
use crate::rollback::{taken_back, undone, undone_all};
use crate::shown::{law_forward_restores_shown_state, lemma_faithful, reads_as, shows};
use crate::state::{
    given_readings, given_restorations, only_computed_differs, Readings, ReadingsView, Restorations,
};
use crate::stock::{refreshed, StockView};
use crate::types::{CellAddr, Operation, OperationView, Opid, StateCell};
use crate::ultra::committed_opid;
use strict_types::StrictVal;
use ultrasonic::StateData;
use ultrasonic::StateValue;
use vstd::prelude::*;

verus! {

/// The state knows the name under which an immutable cell is read, or the cell itself where it can't
/// be read.
pub open spec fn recalled_global(
    state: ProcessedView,
    addr: CellAddr,
    data: StateData,
    reading: ConversionView<StateAtom>,
) -> bool {
    match reading {
        ConversionView::Unrelated => true,
        ConversionView::Atom(name, _) => state.global.contains_key(name),
        ConversionView::Invalid => state.invalid_global.contains_key(addr)
            && state.invalid_global[addr] == data,
    }
}

/// The state knows the name under which an owned cell is read, or the value of the cell where it
/// can't be read.
pub open spec fn recalled_owned(
    state: ProcessedView,
    addr: CellAddr,
    value: StateValue,
    reading: ConversionView<StrictVal>,
) -> bool {
    match reading {
        ConversionView::Unrelated => true,
        ConversionView::Atom(name, _) => state.owned.contains_key(name),
        ConversionView::Invalid => state.invalid_owned.contains_key(addr)
            && state.invalid_owned[addr] == value,
    }
}

/// The immutable cell, as its operation has defined it.
pub open spec fn data_of(model: StockView, addr: CellAddr) -> StateData {
    op_data(model, addr.opid).immutable_out[addr.pos as int]
}

/// The state remembers a cell of a valid operation, were it even destroyed.
pub open spec fn recalls_at(
    model: StockView,
    read_owned: spec_fn(StateValue) -> ConversionView<StrictVal>,
    read_global: spec_fn(StateData) -> ConversionView<StateAtom>,
    state: ProcessedView,
    addr: CellAddr,
) -> bool {
    &&& is_data(model, addr) ==> recalled_global(
        state,
        addr,
        data_of(model, addr),
        read_global(data_of(model, addr)),
    )
    &&& is_output(model, addr) ==> recalled_owned(
        state,
        addr,
        cell_of(model, addr).data,
        read_owned(cell_of(model, addr).data),
    )
}

/// The state as the default API reads it remembers all the cells of the valid operations.
pub open spec fn recalls(
    model: StockView,
    read_owned: spec_fn(StateValue) -> ConversionView<StrictVal>,
    read_global: spec_fn(StateData) -> ConversionView<StateAtom>,
) -> bool {
    forall|addr: CellAddr|
        model.valid.contains(addr.opid) ==> #[trigger] recalls_at(
            model,
            read_owned,
            read_global,
            model.state.main,
            addr,
        )
}

/// The states know the same names and the same data which could not be read.
pub open spec fn same_frame(one: ProcessedView, other: ProcessedView) -> bool {
    &&& one.global.dom() == other.global.dom()
    &&& one.owned.dom() == other.owned.dom()
    &&& one.invalid_global == other.invalid_global
    &&& one.invalid_owned == other.invalid_owned
}

/// One more immutable cell which is remembered already brings nothing new.
proof fn lemma_frame_globals(
    model: ProcessedView,
    state: ProcessedView,
    cells: Seq<(CellAddr, StateData)>,
    readings: Seq<ConversionView<StateAtom>>,
)
    requires
        same_frame(state, model),
        forall|i: int|
            0 <= i < cells.len() ==> recalled_global(
                model,
                (#[trigger] cells[i]).0,
                cells[i].1,
                readings[i],
            ),
    ensures
        same_frame(state.with_globals(cells, readings), model),
    decreases cells.len(),
{
    if cells.len() > 0 {
        let less = cells.drop_last();
        let n = cells.len() - 1;
        assert forall|i: int| 0 <= i < less.len() implies recalled_global(
            model,
            (#[trigger] less[i]).0,
            less[i].1,
            readings[i],
        ) by {
            assert(less[i] == cells[i]);
        }
        lemma_frame_globals(model, state, less, readings);
        assert(recalled_global(model, cells[n].0, cells[n].1, readings[n]));
        let before = state.with_globals(less, readings);
        let after = before.with_global(cells[n].0, cells[n].1, readings[n]);
        assert(after.global.dom() =~= model.global.dom());
        assert(after.invalid_global =~= model.invalid_global);
    }
}

/// Owned cells which are remembered already bring nothing new.
proof fn lemma_frame_owneds(
    model: ProcessedView,
    state: ProcessedView,
    cells: Seq<(CellAddr, StateCell)>,
    readings: Seq<ConversionView<StrictVal>>,
)
    requires
        same_frame(state, model),
        forall|i: int|
            0 <= i < cells.len() ==> recalled_owned(
                model,
                (#[trigger] cells[i]).0,
                cells[i].1.data,
                readings[i],
            ),
    ensures
        same_frame(state.with_owneds(cells, readings), model),
    decreases cells.len(),
{
    if cells.len() > 0 {
        let less = cells.drop_last();
        let n = cells.len() - 1;
        assert forall|i: int| 0 <= i < less.len() implies recalled_owned(
            model,
            (#[trigger] less[i]).0,
            less[i].1.data,
            readings[i],
        ) by {
            assert(less[i] == cells[i]);
        }
        lemma_frame_owneds(model, state, less, readings);
        assert(recalled_owned(model, cells[n].0, cells[n].1.data, readings[n]));
        let before = state.with_owneds(less, readings);
        let after = before.with_owned(cells[n].0, cells[n].1.data, readings[n]);
        assert(after.owned.dom() =~= model.owned.dom());
        assert(after.invalid_owned =~= model.invalid_owned);
    }
}

/// More immutable cells do not make the state forget one, and they are remembered too.
proof fn lemma_globals_recalled(
    state: ProcessedView,
    cells: Seq<(CellAddr, StateData)>,
    readings: Seq<ConversionView<StateAtom>>,
    addr: CellAddr,
    data: StateData,
    reading: ConversionView<StateAtom>,
)
    requires
        forall|i: int|
            0 <= i < cells.len() && (#[trigger] cells[i]).0 == addr ==> cells[i].1 == data
                && readings[i] == reading,
        recalled_global(state, addr, data, reading) || exists|i: int|
            0 <= i < cells.len() && (#[trigger] cells[i]).0 == addr,
    ensures
        recalled_global(state.with_globals(cells, readings), addr, data, reading),
        state.with_globals(cells, readings).owned == state.owned,
        state.with_globals(cells, readings).invalid_owned == state.invalid_owned,
    decreases cells.len(),
{
    if cells.len() > 0 {
        let less = cells.drop_last();
        let n = cells.len() - 1;
        assert forall|i: int| 0 <= i < less.len() && (#[trigger] less[i]).0 == addr implies less[i].1
            == data && readings[i] == reading by {
            assert(less[i] == cells[i]);
        }
        if cells[n].0 == addr {
            assert(cells[n].1 == data && readings[n] == reading);
            lemma_globals_frame(state, less, readings);
        } else {
            if !recalled_global(state, addr, data, reading) {
                let i = choose|i: int| 0 <= i < cells.len() && (#[trigger] cells[i]).0 == addr;
                assert(less[i].0 == addr);
            }
            lemma_globals_recalled(state, less, readings, addr, data, reading);
        }
    }
}

/// Immutable cells do not touch the owned ones.
proof fn lemma_globals_frame(
    state: ProcessedView,
    cells: Seq<(CellAddr, StateData)>,
    readings: Seq<ConversionView<StateAtom>>,
)
    ensures
        state.with_globals(cells, readings).owned == state.owned,
        state.with_globals(cells, readings).invalid_owned == state.invalid_owned,
    decreases cells.len(),
{
    if cells.len() > 0 {
        lemma_globals_frame(state, cells.drop_last(), readings);
    }
}

/// More owned cells do not make the state forget one, and they are remembered too.
proof fn lemma_owneds_recalled(
    state: ProcessedView,
    cells: Seq<(CellAddr, StateCell)>,
    readings: Seq<ConversionView<StrictVal>>,
    addr: CellAddr,
    value: StateValue,
    reading: ConversionView<StrictVal>,
)
    requires
        forall|i: int|
            0 <= i < cells.len() && (#[trigger] cells[i]).0 == addr ==> cells[i].1.data == value
                && readings[i] == reading,
        recalled_owned(state, addr, value, reading) || exists|i: int|
            0 <= i < cells.len() && (#[trigger] cells[i]).0 == addr,
    ensures
        recalled_owned(state.with_owneds(cells, readings), addr, value, reading),
    decreases cells.len(),
{
    if cells.len() > 0 {
        let less = cells.drop_last();
        let n = cells.len() - 1;
        assert forall|i: int| 0 <= i < less.len() && (#[trigger] less[i]).0 == addr implies less[i].1.data
            == value && readings[i] == reading by {
            assert(less[i] == cells[i]);
        }
        if cells[n].0 == addr {
            assert(cells[n].1.data == value && readings[n] == reading);
        } else {
            if !recalled_owned(state, addr, value, reading) {
                let i = choose|i: int| 0 <= i < cells.len() && (#[trigger] cells[i]).0 == addr;
                assert(less[i].0 == addr);
            }
            lemma_owneds_recalled(state, less, readings, addr, value, reading);
        }
    }
}

/// Owned cells do not touch the immutable ones.
proof fn lemma_owneds_frame(
    state: ProcessedView,
    cells: Seq<(CellAddr, StateCell)>,
    readings: Seq<ConversionView<StrictVal>>,
)
    ensures
        state.with_owneds(cells, readings).global == state.global,
        state.with_owneds(cells, readings).invalid_global == state.invalid_global,
    decreases cells.len(),
{
    if cells.len() > 0 {
        lemma_owneds_frame(state, cells.drop_last(), readings);
    }
}

/// The state after an operation remembers a cell, which it has remembered before or which is an
/// output of the operation.
proof fn lemma_applied_recalls(
    model: StockView,
    read_owned: spec_fn(StateValue) -> ConversionView<StrictVal>,
    read_global: spec_fn(StateData) -> ConversionView<StateAtom>,
    state: ProcessedView,
    opid: Opid,
    op: OperationView,
    reading: ReadingView,
    addr: CellAddr,
)
    requires
        op.well_formed(),
        faithful(reading, op, read_owned, read_global),
        addr.opid == opid ==> op_data(model, opid) == op,
        addr.opid != opid ==> recalls_at(model, read_owned, read_global, state, addr),
    ensures
        recalls_at(model, read_owned, read_global, state.applied(opid, op, reading), addr),
{
    let globals = numbered(opid, op.immutable_out);
    let outs = numbered(opid, op.destructible_out);
    let one = state.with_globals(globals, reading.global);
    let two = one.without_owned(input_addrs(op.destructible_in));
    lemma_globals_frame(state, globals, reading.global);
    lemma_owneds_frame(two, outs, reading.owned);
    if is_data(model, addr) {
        let data = data_of(model, addr);
        if addr.opid == opid {
            assert(globals[addr.pos as int].0 == addr);
        }
        lemma_globals_recalled(state, globals, reading.global, addr, data, read_global(data));
    }
    if is_output(model, addr) {
        let value = cell_of(model, addr).data;
        if addr.opid == opid {
            assert(outs[addr.pos as int].0 == addr);
        } else {
            assert(recalled_owned(two, addr, value, read_owned(value)));
        }
        lemma_owneds_recalled(two, outs, reading.owned, addr, value, read_owned(value));
    }
}

/// What the reader makes of an applied operation.
proof fn lemma_step_forth<
    G: Fn(usize, &StateData) -> Conversion<StateAtom>,
    O: Fn(usize, StateValue) -> Conversion<StrictVal>,
>(
    before: StockView,
    after: StockView,
    opid: Opid,
    op: Operation,
    reader: ApiReader<G, O>,
    read_owned: spec_fn(StateValue) -> ConversionView<StrictVal>,
    read_global: spec_fn(StateData) -> ConversionView<StateAtom>,
) -> (reading: ReadingView)
    requires
        reads_as(reader, read_owned, read_global),
        applied_by(before, after, opid, op, false, reader),
    ensures
        faithful(reading, op@, read_owned, read_global),
        only_computed_differs(before.state.main.applied(opid, op@, reading), after.state.main),
{
    let readings = choose|readings: Option<Readings>| #[trigger]
        readings_by(reader, before.articles.semantics, op, readings) && recorded(
            before,
            after,
            opid,
            op@,
            false,
            readings,
        );
    let given = readings->Some_0;
    assert(readings is Some);
    lemma_faithful(reader, read_owned, read_global, op, given.main);
    assert(given_readings(readings) == Some(given@));
    given@.main
}

/// What the reader makes of the cells restored by a rollback.
proof fn lemma_step_back<
    G: Fn(usize, &StateData) -> Conversion<StateAtom>,
    O: Fn(usize, StateValue) -> Conversion<StrictVal>,
>(
    before: StockView,
    after: StockView,
    opid: Opid,
    reader: ApiReader<G, O>,
    read_owned: spec_fn(StateValue) -> ConversionView<StrictVal>,
    read_global: spec_fn(StateData) -> ConversionView<StateAtom>,
) -> (r: (Seq<(CellAddr, StateCell)>, Seq<ConversionView<StrictVal>>))
    requires
        reads_as(reader, read_owned, read_global),
        undone(before, after, opid, reader),
    ensures
        lists(r.0, taken_back(before, opid).destroyed),
        r.1.len() == r.0.len(),
        forall|i: int| 0 <= i < r.0.len() ==> r.1[i] == read_owned((#[trigger] r.0[i]).1.data),
        only_computed_differs(
            before.state.main.rolled_back(before.trace[opid].opid, r.0, r.1),
            after.state.main,
        ),
{
    let (destroyed, readings) = choose|
        destroyed: Seq<(CellAddr, StateCell)>,
        readings: Option<Restorations>,
    |
        {
            &&& lists(destroyed, taken_back(before, opid).destroyed)
            &&& #[trigger] restorations_by(reader, before.articles.semantics, destroyed, readings)
            &&& after == StockView {
                valid: before.valid.remove(opid),
                state: after.state,
                ..before
            }
            &&& refreshed(
                before.state.rolled_back(
                    taken_back(before, opid),
                    destroyed,
                    given_restorations(readings),
                ),
                after.state,
                readings is None,
            )
        };
    assert(readings is Some);
    let given = readings->Some_0;
    assert(given_restorations(readings) == Some(given@));
    let list = given@.main;
    assert forall|i: int| 0 <= i < destroyed.len() implies list[i] == read_owned(
        (#[trigger] destroyed[i]).1.data,
    ) by {
        assert(list[i] == given.main@[i]@);
        assert(call_ensures(reader.owned, (0, destroyed[i].1.data), given.main@[i]));
    }
    (destroyed, list)
}

/// A contract which has just been issued, the genesis of which was read, remembers its cells.
pub proof fn law_issued_contract_recalls(
    articles: Articles,
    readings: ReadingsView,
    read_owned: spec_fn(StateValue) -> ConversionView<StrictVal>,
    read_global: spec_fn(StateData) -> ConversionView<StateAtom>,
)
    requires
        articles.genesis@.well_formed(),
        faithful(readings.main, articles.genesis@, read_owned, read_global),
    ensures
        recalls(issued(articles, Some(readings)), read_owned, read_global),
{
    let model = issued(articles, Some(readings));
    let genesis = committed_opid(articles.genesis@);
    assert forall|addr: CellAddr| model.valid.contains(addr.opid) implies #[trigger] recalls_at(
        model,
        read_owned,
        read_global,
        model.state.main,
        addr,
    ) by {
        lemma_applied_recalls(
            model,
            read_owned,
            read_global,
            ProcessedView::empty(),
            genesis,
            articles.genesis@,
            readings.main,
            addr,
        );
    }
}

/// The state keeps remembering the cells of the valid operations, when an operation is applied.
pub proof fn law_apply_keeps_recall<
    G: Fn(usize, &StateData) -> Conversion<StateAtom>,
    O: Fn(usize, StateValue) -> Conversion<StrictVal>,
>(
    before: StockView,
    after: StockView,
    opid: Opid,
    op: Operation,
    reader: ApiReader<G, O>,
    read_owned: spec_fn(StateValue) -> ConversionView<StrictVal>,
    read_global: spec_fn(StateData) -> ConversionView<StateAtom>,
)
    requires
        recalls(before, read_owned, read_global),
        reads_as(reader, read_owned, read_global),
        op@.well_formed(),
        opid != genesis_of(before),
        before.ops.contains_key(opid) ==> before.ops[opid] == op@,
        applied_by(before, after, opid, op, false, reader),
    ensures
        recalls(after, read_owned, read_global),
{
    let reading = lemma_step_forth(before, after, opid, op, reader, read_owned, read_global);
    let state = before.state.main.applied(opid, op@, reading);
    assert(after.articles == before.articles);
    assert forall|addr: CellAddr| after.valid.contains(addr.opid) implies #[trigger] recalls_at(
        after,
        read_owned,
        read_global,
        after.state.main,
        addr,
    ) by {
        if addr.opid != opid {
            assert(op_data(after, addr.opid) == op_data(before, addr.opid));
            assert(recalls_at(before, read_owned, read_global, before.state.main, addr));
        }
        lemma_applied_recalls(
            after,
            read_owned,
            read_global,
            before.state.main,
            opid,
            op@,
            reading,
            addr,
        );
    }
}

/// The cells which a rollback restores are remembered, and it brings nothing new.
proof fn lemma_undone_frame_kept<
    G: Fn(usize, &StateData) -> Conversion<StateAtom>,
    O: Fn(usize, StateValue) -> Conversion<StrictVal>,
>(
    before: StockView,
    after: StockView,
    opids: Seq<Opid>,
    reader: ApiReader<G, O>,
    read_owned: spec_fn(StateValue) -> ConversionView<StrictVal>,
    read_global: spec_fn(StateData) -> ConversionView<StateAtom>,
)
    requires
        settled(before),
        all_known(before, opids),
        recalls(before, read_owned, read_global),
        reads_as(reader, read_owned, read_global),
        undone_all(before, after, opids, reader),
    ensures
        same_frame(after.state.main, before.state.main),
    decreases opids.len(),
{
    if opids.len() > 0 {
        let less = opids.drop_last();
        let x = opids.last();
        let mid = choose|mid: StockView|
            undone_all(before, mid, less, reader) && #[trigger] undone(mid, after, x, reader);
        assert forall|i: int| 0 <= i < less.len() implies before.known(#[trigger] less[i]) by {
            assert(before.known(opids[i]));
        }
        lemma_undone_frame_kept(before, mid, less, reader, read_owned, read_global);
        lemma_undone_frame(before, mid, less, reader);
        assert(before.known(opids[opids.len() - 1]));
        assert(traced(before, x));
        let (cells, list) = lemma_step_back(mid, after, x, reader, read_owned, read_global);
        let cleared = mid.state.main.without_outputs(mid.trace[x].opid);
        assert(cleared.global.dom() =~= before.state.main.global.dom());
        assert(cleared.owned.dom() =~= before.state.main.owned.dom());
        assert forall|i: int| 0 <= i < cells.len() implies recalled_owned(
            before.state.main,
            (#[trigger] cells[i]).0,
            cells[i].1.data,
            list[i],
        ) by {
            let addr = cells[i].0;
            assert(taken_back(mid, x).destroyed.contains_key(addr));
            assert(mid.valid.contains(addr.opid));
            assert(before.trace[x].destroyed.contains_key(addr));
            assert(takes(before.ops[x], addr));
            assert(cells[i].1 == cell_of(before, addr));
            assert(recalls_at(before, read_owned, read_global, before.state.main, addr));
        }
        lemma_frame_owneds(before.state.main, cleared, cells, list);
    }
}

/// The state keeps remembering the cells of the valid operations, when operations are rolled back. It
/// learns no name and forgets none, and keeps the data which could not be read.
pub proof fn law_rollback_keeps_recall<
    G: Fn(usize, &StateData) -> Conversion<StateAtom>,
    O: Fn(usize, StateValue) -> Conversion<StrictVal>,
>(
    before: StockView,
    after: StockView,
    opids: Seq<Opid>,
    reader: ApiReader<G, O>,
    read_owned: spec_fn(StateValue) -> ConversionView<StrictVal>,
    read_global: spec_fn(StateData) -> ConversionView<StateAtom>,
)
    requires
        settled(before),
        all_known(before, opids),
        recalls(before, read_owned, read_global),
        reads_as(reader, read_owned, read_global),
        undone_all(before, after, opids, reader),
    ensures
        same_frame(after.state.main, before.state.main),
        recalls(after, read_owned, read_global),
{
    lemma_undone_frame_kept(before, after, opids, reader, read_owned, read_global);
    lemma_undone_frame(before, after, opids, reader);
    assert forall|addr: CellAddr| after.valid.contains(addr.opid) implies #[trigger] recalls_at(
        after,
        read_owned,
        read_global,
        after.state.main,
        addr,
    ) by {
        assert(recalls_at(before, read_owned, read_global, before.state.main, addr));
        assert(op_data(after, addr.opid) == op_data(before, addr.opid));
    }
}

/// An operation, the outputs of which are remembered, brings nothing new when it is applied.
proof fn lemma_applied_frame(
    model: StockView,
    read_owned: spec_fn(StateValue) -> ConversionView<StrictVal>,
    read_global: spec_fn(StateData) -> ConversionView<StateAtom>,
    state: ProcessedView,
    opid: Opid,
    op: OperationView,
    reading: ReadingView,
)
    requires
        recalls(model, read_owned, read_global),
        model.valid.contains(opid),
        op_data(model, opid) == op,
        op.well_formed(),
        faithful(reading, op, read_owned, read_global),
        same_frame(state, model.state.main),
    ensures
        same_frame(state.applied(opid, op, reading), model.state.main),
{
    let main = model.state.main;
    let globals = numbered(opid, op.immutable_out);
    let outs = numbered(opid, op.destructible_out);
    assert forall|i: int| 0 <= i < globals.len() implies recalled_global(
        main,
        (#[trigger] globals[i]).0,
        globals[i].1,
        reading.global[i],
    ) by {
        let addr = globals[i].0;
        assert(recalls_at(model, read_owned, read_global, main, addr));
        assert(data_of(model, addr) == op.immutable_out[i]);
    }
    assert forall|i: int| 0 <= i < outs.len() implies recalled_owned(
        main,
        (#[trigger] outs[i]).0,
        outs[i].1.data,
        reading.owned[i],
    ) by {
        let addr = outs[i].0;
        assert(recalls_at(model, read_owned, read_global, main, addr));
        assert(cell_of(model, addr) == op.destructible_out[i]);
    }
    lemma_frame_globals(main, state, globals, reading.global);
    let one = state.with_globals(globals, reading.global);
    let two = one.without_owned(input_addrs(op.destructible_in));
    assert(two.owned.dom() =~= main.owned.dom());
    lemma_frame_owneds(main, two, outs, reading.owned);
}

/// Bringing back operations which were valid before brings nothing new.
proof fn lemma_redone_frame<
    G: Fn(usize, &StateData) -> Conversion<StateAtom>,
    O: Fn(usize, StateValue) -> Conversion<StrictVal>,
>(
    before: StockView,
    mid: StockView,
    after: StockView,
    seeds: Seq<Opid>,
    chain: Seq<Opid>,
    n: int,
    reader: ApiReader<G, O>,
    read_owned: spec_fn(StateValue) -> ConversionView<StrictVal>,
    read_global: spec_fn(StateData) -> ConversionView<StateAtom>,
)
    requires
        settled(before),
        all_known(before, chain),
        chain.no_duplicates(),
        held_back(before, chain),
        walk(seeds, descendant_links(before), chain),
        parents_first(before, chain),
        settled(mid),
        mid.ops == before.ops,
        mid.trace == before.trace,
        mid.articles == before.articles,
        mid.valid == before.valid.difference(chain.to_set()),
        recalls(before, read_owned, read_global),
        reads_as(reader, read_owned, read_global),
        same_frame(mid.state.main, before.state.main),
        0 <= n <= chain.len(),
        redone_all(mid, after, chain.take(n), reader),
    ensures
        same_frame(after.state.main, before.state.main),
    decreases n,
{
    let list = chain.take(n);
    if n > 0 {
        let x = chain[n - 1];
        assert(list.drop_last() =~= chain.take(n - 1));
        assert(list.last() == x);
        let prior = choose|prior: StockView|
            redone_all(mid, prior, list.drop_last(), reader) && #[trigger] redone(
                prior,
                after,
                list.last(),
                reader,
            );
        lemma_redone_frame(
            before,
            mid,
            prior,
            seeds,
            chain,
            n - 1,
            reader,
            read_owned,
            read_global,
        );
        lemma_redone_order(before, mid, prior, seeds, chain, reader, n - 1);
        assert(before.known(chain[n - 1]));
        if eligible(prior, x) {
            assert(prior.valid.subset_of(before.valid));
            if !before.valid.contains(x) {
                assert(!eligible(before, chain[n - 1]));
                lemma_fewer_eligible(before, prior, x);
            }
            let op = choose|op: Operation|
                {
                    &&& op@ == prior.ops[x]
                    &&& accepted(prior, op@)
                    &&& prior.state.raw.has_inputs(op@)
                    &&& has_reads(prior.state.raw, op@)
                    &&& #[trigger] applied_by(prior, after, x, op, false, reader)
                };
            let reading = lemma_step_forth(prior, after, x, op, reader, read_owned, read_global);
            assert(x != genesis_of(before));
            lemma_applied_frame(
                before,
                read_owned,
                read_global,
                prior.state.main,
                x,
                op@,
                reading,
            );
        }
    }
}

/// Bringing operations back restores the whole processed state which their rollback has changed, but
/// for what is computed of it, wherever the chain of the descendants is in the order of dependence.
/// What is computed depends on the global state alone.
pub proof fn law_forward_restores_main_state<
    G: Fn(usize, &StateData) -> Conversion<StateAtom>,
    O: Fn(usize, StateValue) -> Conversion<StrictVal>,
>(
    before: StockView,
    mid: StockView,
    after: StockView,
    seeds: Seq<Opid>,
    chain: Seq<Opid>,
    reader: ApiReader<G, O>,
    read_owned: spec_fn(StateValue) -> ConversionView<StrictVal>,
    read_global: spec_fn(StateData) -> ConversionView<StateAtom>,
)
    requires
        settled(before),
        all_known(before, chain),
        undisputed(before, chain),
        held_back(before, chain),
        walk(seeds, descendant_links(before), chain),
        parents_first(before, chain),
        shows(before, read_owned, read_global),
        recalls(before, read_owned, read_global),
        reads_as(reader, read_owned, read_global),
        undone_all(before, mid, chain.reverse(), reader),
        redone_all(mid, after, chain, reader),
    ensures
        only_computed_differs(before.state.main, after.state.main),
{
    let order = chain.reverse();
    assert forall|i: int| 0 <= i < order.len() implies before.known(#[trigger] order[i]) by {
        assert(before.known(chain[chain.len() - 1 - i]));
    }
    law_chain_holds_the_reached(seeds, descendant_links(before), chain);
    law_rollback_keeps_recall(before, mid, order, reader, read_owned, read_global);
    law_rollback_keeps_contract_settled(before, mid, seeds, chain, reader);
    lemma_undone_frame(before, mid, order, reader);
    assert(chain.take(chain.len() as int) =~= chain);
    lemma_redone_frame(
        before,
        mid,
        after,
        seeds,
        chain,
        chain.len() as int,
        reader,
        read_owned,
        read_global,
    );
    let (one, other) = (after.state.main, before.state.main);
    assert forall|name: Seq<char>| #[trigger] one.owned.contains_key(name) implies one.owned[name]
        == other.owned[name] by {
        law_forward_restores_shown_state(
            before,
            mid,
            after,
            seeds,
            chain,
            reader,
            read_owned,
            read_global,
            name,
        );
        assert(other.owned.dom().contains(name));
    }
    assert forall|name: Seq<char>| #[trigger] one.global.contains_key(name) implies one.global[name]
        == other.global[name] by {
        law_forward_restores_shown_state(
            before,
            mid,
            after,
            seeds,
            chain,
            reader,
            read_owned,
            read_global,
            name,
        );
        assert(other.global.dom().contains(name));
    }
    assert(one.owned =~= other.owned);
    assert(one.global =~= other.global);
}

} // verus!
