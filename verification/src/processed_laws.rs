//! The processed state stays in step with the raw one.

use crate::cells::{lists, without_outputs};
use crate::processed::{
    numbered, reads_outputs, ConversionView, ProcessedView, ReadingView, StateAtom,
};
use crate::raw::{fresh, input_addrs, output_cells, RawView, TransitionView};
use crate::sorted::{cells_of, outputs_of_any, with_cell, without_cells};
use crate::types::{CellAddr, OperationView, Opid, StateCell};
use strict_types::StrictVal;
use ultrasonic::StateData;
use ultrasonic::StateValue;
use vstd::prelude::*;

verus! {

/// The named cells are those which are read as values of the named states.
pub open spec fn reflects<V>(
    named: Map<Seq<char>, Map<CellAddr, V>>,
    readings: Map<CellAddr, ConversionView<V>>,
) -> bool {
    forall|name: Seq<char>, addr: CellAddr| #[trigger] reflects_at(named, readings, name, addr)
}

/// A cell is under a name if and only if it is read as a value of that state, and holds that value.
pub open spec fn reflects_at<V>(
    named: Map<Seq<char>, Map<CellAddr, V>>,
    readings: Map<CellAddr, ConversionView<V>>,
    name: Seq<char>,
    addr: CellAddr,
) -> bool {
    if readings.contains_key(addr) && readings[addr] is Atom && readings[addr]->Atom_0 == name {
        cells_of(named, name).contains_key(addr) && cells_of(named, name)[addr]
            == readings[addr]->Atom_1
    } else {
        !cells_of(named, name).contains_key(addr)
    }
}

/// What an API makes of the owned cells of a raw state.
pub open spec fn owned_readings(
    owned: Map<CellAddr, StateCell>,
    read: spec_fn(StateValue) -> ConversionView<StrictVal>,
) -> Map<CellAddr, ConversionView<StrictVal>> {
    owned.map_values(|cell: StateCell| read(cell.data))
}

/// What an API makes of the immutable cells of a raw state.
pub open spec fn global_readings(
    global: Map<CellAddr, StateData>,
    read: spec_fn(StateData) -> ConversionView<StateAtom>,
) -> Map<CellAddr, ConversionView<StateAtom>> {
    global.map_values(|data: StateData| read(data))
}

/// Every immutable cell, which the API fails to read, is among the invalid ones.
pub open spec fn keeps_invalid_global(
    invalid: Map<CellAddr, StateData>,
    global: Map<CellAddr, StateData>,
    read: spec_fn(StateData) -> ConversionView<StateAtom>,
) -> bool {
    forall|addr: CellAddr| #[trigger]
        global.contains_key(addr) && read(global[addr]) is Invalid ==> invalid.contains_key(addr)
            && invalid[addr] == global[addr]
}

/// The value of every owned cell, which the API fails to read, is among the invalid ones.
pub open spec fn keeps_invalid_owned(
    invalid: Map<CellAddr, StateValue>,
    owned: Map<CellAddr, StateCell>,
    read: spec_fn(StateValue) -> ConversionView<StrictVal>,
) -> bool {
    forall|addr: CellAddr| #[trigger]
        owned.contains_key(addr) && read(owned[addr].data) is Invalid ==> invalid.contains_key(addr)
            && invalid[addr] == owned[addr].data
}

/// The processed state shows the cells of the raw one, the way the API reads them, and holds those
/// which the API fails to read. Of the latter it may hold more: they stay when the cells are gone.
pub open spec fn in_step(
    state: ProcessedView,
    raw: RawView,
    read_owned: spec_fn(StateValue) -> ConversionView<StrictVal>,
    read_global: spec_fn(StateData) -> ConversionView<StateAtom>,
) -> bool {
    &&& reflects(state.owned, owned_readings(raw.owned, read_owned))
    &&& reflects(state.global, global_readings(raw.global, read_global))
    &&& keeps_invalid_owned(state.invalid_owned, raw.owned, read_owned)
    &&& keeps_invalid_global(state.invalid_global, raw.global, read_global)
}

/// The conversions are what the API makes of the outputs of an operation.
pub open spec fn faithful(
    reading: ReadingView,
    op: OperationView,
    read_owned: spec_fn(StateValue) -> ConversionView<StrictVal>,
    read_global: spec_fn(StateData) -> ConversionView<StateAtom>,
) -> bool {
    &&& reads_outputs(reading, op)
    &&& forall|i: int|
        0 <= i < op.immutable_out.len() ==> #[trigger] reading.global[i] == read_global(
            op.immutable_out[i],
        )
    &&& forall|i: int|
        0 <= i < op.destructible_out.len() ==> #[trigger] reading.owned[i] == read_owned(
            op.destructible_out[i].data,
        )
}

/// One more cell keeps the named cells in step.
proof fn lemma_one_more<V>(
    named: Map<Seq<char>, Map<CellAddr, V>>,
    readings: Map<CellAddr, ConversionView<V>>,
    addr: CellAddr,
    reading: ConversionView<V>,
)
    requires
        reflects(named, readings),
        readings.contains_key(addr) ==> readings[addr] == reading,
    ensures
        reading is Atom ==> reflects(
            with_cell(named, reading->Atom_0, addr, reading->Atom_1),
            readings.insert(addr, reading),
        ),
        !(reading is Atom) ==> reflects(named, readings.insert(addr, reading)),
{
    let more = readings.insert(addr, reading);
    let changed = with_cell(named, reading->Atom_0, addr, reading->Atom_1);
    assert forall|name: Seq<char>, a: CellAddr|
        reading is Atom implies #[trigger] reflects_at(changed, more, name, a) by {
        assert(reflects_at(named, readings, name, a));
        assert(cells_of(changed, name) == if name == reading->Atom_0 {
            cells_of(named, name).insert(addr, reading->Atom_1)
        } else {
            cells_of(named, name)
        });
    }
    assert forall|name: Seq<char>, a: CellAddr|
        !(reading is Atom) implies #[trigger] reflects_at(named, more, name, a) by {
        assert(reflects_at(named, readings, name, a));
    }
}

/// Taking cells out keeps the named cells in step.
proof fn lemma_fewer_cells<V>(
    named: Map<Seq<char>, Map<CellAddr, V>>,
    readings: Map<CellAddr, ConversionView<V>>,
    gone: Set<CellAddr>,
)
    requires
        reflects(named, readings),
    ensures
        reflects(without_cells(named, gone), readings.remove_keys(gone)),
{
    let changed = without_cells(named, gone);
    assert forall|name: Seq<char>, a: CellAddr| #[trigger]
        reflects_at(changed, readings.remove_keys(gone), name, a) by {
        assert(reflects_at(named, readings, name, a));
        assert(cells_of(changed, name) =~= cells_of(named, name).remove_keys(gone));
    }
}

/// No address stands in the list twice.
spec fn distinct<V>(list: Seq<(CellAddr, V)>) -> bool {
    forall|i: int, j: int| 0 <= i < j < list.len() ==> (#[trigger] list[i]).0 != (#[trigger] list[j]).0
}

/// The cells of a list, as a map.
spec fn as_map<V>(list: Seq<(CellAddr, V)>) -> Map<CellAddr, V>
    decreases list.len(),
{
    if list.len() == 0 {
        Map::empty()
    } else {
        as_map(list.drop_last()).insert(list.last().0, list.last().1)
    }
}

/// What the map of a list holds.
proof fn lemma_as_map<V>(list: Seq<(CellAddr, V)>, addr: CellAddr)
    requires
        distinct(list),
    ensures
        as_map(list).contains_key(addr) <==> exists|i: int|
            0 <= i < list.len() && (#[trigger] list[i]).0 == addr,
        forall|i: int|
            0 <= i < list.len() && (#[trigger] list[i]).0 == addr ==> as_map(list)[addr]
                == list[i].1,
    decreases list.len(),
{
    if list.len() > 0 {
        let less = list.drop_last();
        assert(distinct(less)) by {
            assert forall|i: int, j: int| 0 <= i < j < less.len() implies (#[trigger] less[i]).0 != (
            #[trigger] less[j]).0 by {
                assert(list[i].0 != list[j].0);
            }
        }
        lemma_as_map(less, addr);
        let last = list.len() - 1;
        assert forall|i: int| 0 <= i < list.len() && (#[trigger] list[i]).0 == addr implies as_map(
            list,
        )[addr] == list[i].1 by {
            if i < last {
                assert(less[i].0 == addr);
                assert(list[i].0 != list[last].0);
            }
        }
        if as_map(list).contains_key(addr) {
            if addr == list.last().0 {
                assert(list[last].0 == addr);
            } else {
                let i = choose|i: int| 0 <= i < less.len() && (#[trigger] less[i]).0 == addr;
                assert(list[i].0 == addr);
            }
        }
        if exists|i: int| 0 <= i < list.len() && (#[trigger] list[i]).0 == addr {
            let i = choose|i: int| 0 <= i < list.len() && (#[trigger] list[i]).0 == addr;
            if i < last {
                assert(less[i].0 == addr);
            }
        }
    }
}

/// The owned cells of a list keep the state in step.
proof fn lemma_owneds(
    state: ProcessedView,
    owned: Map<CellAddr, StateCell>,
    cells: Seq<(CellAddr, StateCell)>,
    readings: Seq<ConversionView<StrictVal>>,
    read: spec_fn(StateValue) -> ConversionView<StrictVal>,
)
    requires
        reflects(state.owned, owned_readings(owned, read)),
        keeps_invalid_owned(state.invalid_owned, owned, read),
        distinct(cells),
        readings.len() >= cells.len(),
        forall|i: int|
            0 <= i < cells.len() ==> readings[i] == read((#[trigger] cells[i]).1.data),
        forall|i: int|
            0 <= i < cells.len() && owned.contains_key((#[trigger] cells[i]).0)
                ==> owned[cells[i].0] == cells[i].1,
    ensures
        reflects(
            state.with_owneds(cells, readings).owned,
            owned_readings(owned.union_prefer_right(as_map(cells)), read),
        ),
        keeps_invalid_owned(
            state.with_owneds(cells, readings).invalid_owned,
            owned.union_prefer_right(as_map(cells)),
            read,
        ),
        state.with_owneds(cells, readings).global == state.global,
        state.with_owneds(cells, readings).invalid_global == state.invalid_global,
    decreases cells.len(),
{
    if cells.len() == 0 {
        assert(owned.union_prefer_right(as_map(cells)) =~= owned);
    } else {
        let less = cells.drop_last();
        let last = cells.len() - 1;
        assert(distinct(less)) by {
            assert forall|i: int, j: int| 0 <= i < j < less.len() implies (#[trigger] less[i]).0 != (
            #[trigger] less[j]).0 by {
                assert(cells[i].0 != cells[j].0);
            }
        }
        assert forall|i: int| 0 <= i < less.len() implies readings[i] == read(
            (#[trigger] less[i]).1.data,
        ) by {
            assert(less[i] == cells[i]);
        }
        assert forall|i: int|
            0 <= i < less.len() && owned.contains_key((#[trigger] less[i]).0) implies owned[less[i].0]
            == less[i].1 by {
            assert(less[i] == cells[i]);
        }
        lemma_owneds(state, owned, less, readings, read);
        let before = state.with_owneds(less, readings);
        let map = owned.union_prefer_right(as_map(less));
        let (addr, cell) = cells[last];
        lemma_as_map(less, addr);
        if as_map(less).contains_key(addr) {
            let i = choose|i: int| 0 <= i < less.len() && (#[trigger] less[i]).0 == addr;
            assert(cells[i].0 != cells[last].0);
        }
        lemma_one_more(before.owned, owned_readings(map, read), addr, readings[last]);
        let more = owned.union_prefer_right(as_map(cells));
        assert(more =~= map.insert(addr, cell));
        assert(owned_readings(map, read).insert(addr, readings[last]) =~= owned_readings(more, read));
        let after = state.with_owneds(cells, readings);
        assert(after == before.with_owned(addr, cell.data, readings[last]));
        assert forall|a: CellAddr| #[trigger]
            more.contains_key(a) && read(more[a].data) is Invalid implies after.invalid_owned.contains_key(
            a,
        ) && after.invalid_owned[a] == more[a].data by {
            if a != addr {
                assert(map.contains_key(a));
            }
        }
    }
}

/// The immutable cells of a list keep the state in step.
proof fn lemma_globals(
    state: ProcessedView,
    global: Map<CellAddr, StateData>,
    cells: Seq<(CellAddr, StateData)>,
    readings: Seq<ConversionView<StateAtom>>,
    read: spec_fn(StateData) -> ConversionView<StateAtom>,
)
    requires
        reflects(state.global, global_readings(global, read)),
        keeps_invalid_global(state.invalid_global, global, read),
        distinct(cells),
        readings.len() >= cells.len(),
        forall|i: int| 0 <= i < cells.len() ==> readings[i] == read((#[trigger] cells[i]).1),
        forall|i: int|
            0 <= i < cells.len() && global.contains_key((#[trigger] cells[i]).0)
                ==> global[cells[i].0] == cells[i].1,
    ensures
        reflects(
            state.with_globals(cells, readings).global,
            global_readings(global.union_prefer_right(as_map(cells)), read),
        ),
        keeps_invalid_global(
            state.with_globals(cells, readings).invalid_global,
            global.union_prefer_right(as_map(cells)),
            read,
        ),
        state.with_globals(cells, readings).owned == state.owned,
        state.with_globals(cells, readings).invalid_owned == state.invalid_owned,
    decreases cells.len(),
{
    if cells.len() == 0 {
        assert(global.union_prefer_right(as_map(cells)) =~= global);
    } else {
        let less = cells.drop_last();
        let last = cells.len() - 1;
        assert(distinct(less)) by {
            assert forall|i: int, j: int| 0 <= i < j < less.len() implies (#[trigger] less[i]).0 != (
            #[trigger] less[j]).0 by {
                assert(cells[i].0 != cells[j].0);
            }
        }
        assert forall|i: int| 0 <= i < less.len() implies readings[i] == read((#[trigger] less[i]).1) by {
            assert(less[i] == cells[i]);
        }
        assert forall|i: int|
            0 <= i < less.len() && global.contains_key((#[trigger] less[i]).0) implies global[less[i].0]
            == less[i].1 by {
            assert(less[i] == cells[i]);
        }
        lemma_globals(state, global, less, readings, read);
        let before = state.with_globals(less, readings);
        let map = global.union_prefer_right(as_map(less));
        let (addr, data) = cells[last];
        lemma_as_map(less, addr);
        if as_map(less).contains_key(addr) {
            let i = choose|i: int| 0 <= i < less.len() && (#[trigger] less[i]).0 == addr;
            assert(cells[i].0 != cells[last].0);
        }
        lemma_one_more(before.global, global_readings(map, read), addr, readings[last]);
        let more = global.union_prefer_right(as_map(cells));
        assert(more =~= map.insert(addr, data));
        assert(global_readings(map, read).insert(addr, readings[last]) =~= global_readings(
            more,
            read,
        ));
        let after = state.with_globals(cells, readings);
        assert(after == before.with_global(addr, data, readings[last]));
        assert forall|a: CellAddr| #[trigger]
            more.contains_key(a) && read(more[a]) is Invalid implies after.invalid_global.contains_key(a)
            && after.invalid_global[a] == more[a] by {
            if a != addr {
                assert(map.contains_key(a));
            }
        }
    }
}

/// The numbered outputs of an operation are its output cells.
proof fn lemma_numbered<V>(opid: Opid, outputs: Seq<V>)
    requires
        outputs.len() <= 65535,
    ensures
        distinct(numbered(opid, outputs)),
        as_map(numbered(opid, outputs)) == output_cells(opid, outputs),
{
    let list = numbered(opid, outputs);
    assert forall|addr: CellAddr|
        as_map(list).contains_key(addr) == output_cells(opid, outputs).contains_key(addr) by {
        lemma_as_map(list, addr);
        if output_cells(opid, outputs).contains_key(addr) {
            assert(list[addr.pos as int].0 == addr);
        }
    }
    assert forall|addr: CellAddr| as_map(list).contains_key(addr) implies as_map(list)[addr]
        == output_cells(opid, outputs)[addr] by {
        lemma_as_map(list, addr);
        assert(list[addr.pos as int].0 == addr);
    }
    assert(as_map(list) =~= output_cells(opid, outputs));
}

/// A list of the entries of a map is the map.
proof fn lemma_lists<V>(list: Seq<(CellAddr, V)>, map: Map<CellAddr, V>)
    requires
        lists(list, map),
    ensures
        distinct(list),
        as_map(list) == map,
{
    assert forall|i: int, j: int| 0 <= i < j < list.len() implies (#[trigger] list[i]).0 != (
    #[trigger] list[j]).0 by {
        assert(list[i].0.precedes(list[j].0));
    }
    assert forall|addr: CellAddr| as_map(list).contains_key(addr) == map.contains_key(addr) by {
        lemma_as_map(list, addr);
    }
    assert forall|addr: CellAddr| as_map(list).contains_key(addr) implies as_map(list)[addr]
        == map[addr] by {
        lemma_as_map(list, addr);
        let i = choose|i: int| 0 <= i < list.len() && (#[trigger] list[i]).0 == addr;
        assert(list[i].0 == addr);
    }
    assert(as_map(list) =~= map);
}

/// A state processed anew out of a raw one is in step with it.
pub proof fn law_rebuilt_state_is_in_step(
    raw: RawView,
    globals: Seq<(CellAddr, StateData)>,
    owned: Seq<(CellAddr, StateCell)>,
    reading: ReadingView,
    read_owned: spec_fn(StateValue) -> ConversionView<StrictVal>,
    read_global: spec_fn(StateData) -> ConversionView<StateAtom>,
)
    requires
        lists(globals, raw.global),
        lists(owned, raw.owned),
        reading.global.len() == globals.len(),
        reading.owned.len() == owned.len(),
        forall|i: int|
            0 <= i < globals.len() ==> #[trigger] reading.global[i] == read_global(globals[i].1),
        forall|i: int|
            0 <= i < owned.len() ==> #[trigger] reading.owned[i] == read_owned(owned[i].1.data),
    ensures
        in_step(
            ProcessedView::empty().with_globals(globals, reading.global).with_owneds(
                owned,
                reading.owned,
            ),
            raw,
            read_owned,
            read_global,
        ),
{
    let empty = ProcessedView::empty();
    lemma_lists(globals, raw.global);
    lemma_lists(owned, raw.owned);
    let no_data = Map::<CellAddr, StateData>::empty();
    let no_cells = Map::<CellAddr, StateCell>::empty();
    assert(reflects(empty.global, global_readings(no_data, read_global)));
    assert(reflects(empty.owned, owned_readings(no_cells, read_owned)));
    lemma_globals(empty, no_data, globals, reading.global, read_global);
    let middle = empty.with_globals(globals, reading.global);
    lemma_owneds(middle, no_cells, owned, reading.owned, read_owned);
    assert(no_data.union_prefer_right(raw.global) =~= raw.global);
    assert(no_cells.union_prefer_right(raw.owned) =~= raw.owned);
}

/// Applying an operation keeps the processed state in step with the raw one.
pub proof fn law_apply_keeps_step(
    state: ProcessedView,
    raw: RawView,
    opid: Opid,
    op: OperationView,
    reading: ReadingView,
    read_owned: spec_fn(StateValue) -> ConversionView<StrictVal>,
    read_global: spec_fn(StateData) -> ConversionView<StateAtom>,
)
    requires
        in_step(state, raw, read_owned, read_global),
        fresh(raw, opid),
        op.well_formed(),
        faithful(reading, op, read_owned, read_global),
    ensures
        in_step(state.applied(opid, op, reading), raw.applied(opid, op), read_owned, read_global),
{
    let globals = numbered(opid, op.immutable_out);
    let outs = numbered(opid, op.destructible_out);
    lemma_numbered(opid, op.immutable_out);
    lemma_numbered(opid, op.destructible_out);
    assert forall|i: int| 0 <= i < globals.len() implies reading.global[i] == read_global(
        (#[trigger] globals[i]).1,
    ) by {}
    assert forall|i: int| 0 <= i < outs.len() implies reading.owned[i] == read_owned(
        (#[trigger] outs[i]).1.data,
    ) by {}
    lemma_globals(state, raw.global, globals, reading.global, read_global);
    let one = state.with_globals(globals, reading.global);
    let inputs = input_addrs(op.destructible_in);
    lemma_fewer_cells(one.owned, owned_readings(raw.owned, read_owned), inputs);
    let two = one.without_owned(inputs);
    let left = raw.owned.remove_keys(inputs);
    assert(owned_readings(raw.owned, read_owned).remove_keys(inputs) =~= owned_readings(
        left,
        read_owned,
    ));
    lemma_owneds(two, left, outs, reading.owned, read_owned);
}

/// Taking a transition back keeps the processed state in step with the raw one.
pub proof fn law_rollback_keeps_step(
    state: ProcessedView,
    raw: RawView,
    transition: TransitionView,
    destroyed: Seq<(CellAddr, StateCell)>,
    readings: Seq<ConversionView<StrictVal>>,
    read_owned: spec_fn(StateValue) -> ConversionView<StrictVal>,
    read_global: spec_fn(StateData) -> ConversionView<StateAtom>,
)
    requires
        in_step(state, raw, read_owned, read_global),
        lists(destroyed, transition.destroyed),
        readings.len() == destroyed.len(),
        forall|i: int|
            0 <= i < destroyed.len() ==> #[trigger] readings[i] == read_owned(destroyed[i].1.data),
        forall|addr: CellAddr| #[trigger]
            transition.destroyed.contains_key(addr) && raw.owned.contains_key(addr)
                ==> raw.owned[addr] == transition.destroyed[addr],
    ensures
        in_step(
            state.rolled_back(transition.opid, destroyed, readings),
            raw.rolled_back(transition),
            read_owned,
            read_global,
        ),
{
    let opid = transition.opid;
    let gone = outputs_of_any(opid);
    lemma_fewer_cells(state.owned, owned_readings(raw.owned, read_owned), gone);
    lemma_fewer_cells(state.global, global_readings(raw.global, read_global), gone);
    let cleared = state.without_outputs(opid);
    let left = without_outputs(raw.owned, opid);
    assert(owned_readings(raw.owned, read_owned).remove_keys(gone) =~= owned_readings(
        left,
        read_owned,
    ));
    assert(global_readings(raw.global, read_global).remove_keys(gone) =~= global_readings(
        without_outputs(raw.global, opid),
        read_global,
    ));
    lemma_lists(destroyed, transition.destroyed);
    assert forall|i: int| 0 <= i < destroyed.len() implies readings[i] == read_owned(
        (#[trigger] destroyed[i]).1.data,
    ) by {}
    assert forall|i: int|
        0 <= i < destroyed.len() && left.contains_key((#[trigger] destroyed[i]).0) implies left[destroyed[i].0]
        == destroyed[i].1 by {
        assert(transition.destroyed.contains_key(destroyed[i].0));
    }
    lemma_owneds(cleared, left, destroyed, readings, read_owned);
}

/// Two states in step with the same raw one show the same cells under every name.
pub proof fn law_states_in_step_agree(
    one: ProcessedView,
    other: ProcessedView,
    raw: RawView,
    read_owned: spec_fn(StateValue) -> ConversionView<StrictVal>,
    read_global: spec_fn(StateData) -> ConversionView<StateAtom>,
    name: Seq<char>,
)
    requires
        in_step(one, raw, read_owned, read_global),
        in_step(other, raw, read_owned, read_global),
    ensures
        cells_of(one.owned, name) == cells_of(other.owned, name),
        cells_of(one.global, name) == cells_of(other.global, name),
{
    lemma_same_cells(one.owned, other.owned, owned_readings(raw.owned, read_owned), name);
    lemma_same_cells(one.global, other.global, global_readings(raw.global, read_global), name);
}

/// Named cells which reflect the same readings are the same under every name.
proof fn lemma_same_cells<V>(
    one: Map<Seq<char>, Map<CellAddr, V>>,
    other: Map<Seq<char>, Map<CellAddr, V>>,
    readings: Map<CellAddr, ConversionView<V>>,
    name: Seq<char>,
)
    requires
        reflects(one, readings),
        reflects(other, readings),
    ensures
        cells_of(one, name) == cells_of(other, name),
{
    let a = cells_of(one, name);
    let b = cells_of(other, name);
    assert forall|addr: CellAddr| a.dom().contains(addr) == #[trigger] b.dom().contains(addr) by {
        assert(reflects_at(one, readings, name, addr));
        assert(reflects_at(other, readings, name, addr));
    }
    assert forall|addr: CellAddr| a.dom().contains(addr) implies a[addr] == #[trigger] b[addr] by {
        assert(reflects_at(one, readings, name, addr));
        assert(reflects_at(other, readings, name, addr));
    }
    assert(a =~= b);
}

/// The immutable cells which the API fails to read.
pub open spec fn unread_global(
    global: Map<CellAddr, StateData>,
    read: spec_fn(StateData) -> ConversionView<StateAtom>,
) -> Map<CellAddr, StateData> {
    Map::new(
        |addr: CellAddr| global.contains_key(addr) && read(global[addr]) is Invalid,
        |addr: CellAddr| global[addr],
    )
}

/// The values of the owned cells which the API fails to read.
pub open spec fn unread_owned(
    owned: Map<CellAddr, StateCell>,
    read: spec_fn(StateValue) -> ConversionView<StrictVal>,
) -> Map<CellAddr, StateValue> {
    Map::new(
        |addr: CellAddr| owned.contains_key(addr) && read(owned[addr].data) is Invalid,
        |addr: CellAddr| owned[addr].data,
    )
}

/// Of the immutable cells of a list, those which the API fails to read become invalid ones.
proof fn lemma_invalid_globals(
    state: ProcessedView,
    cells: Seq<(CellAddr, StateData)>,
    readings: Seq<ConversionView<StateAtom>>,
    read: spec_fn(StateData) -> ConversionView<StateAtom>,
)
    requires
        distinct(cells),
        readings.len() >= cells.len(),
        forall|i: int| 0 <= i < cells.len() ==> readings[i] == read((#[trigger] cells[i]).1),
    ensures
        state.with_globals(cells, readings).invalid_global
            == state.invalid_global.union_prefer_right(unread_global(as_map(cells), read)),
        state.with_globals(cells, readings).invalid_owned == state.invalid_owned,
    decreases cells.len(),
{
    let all = unread_global(as_map(cells), read);
    if cells.len() == 0 {
        assert(state.invalid_global.union_prefer_right(all) =~= state.invalid_global);
    } else {
        let less = cells.drop_last();
        let last = cells.len() - 1;
        lemma_fewer_distinct(cells);
        assert forall|i: int| 0 <= i < less.len() implies readings[i] == read((#[trigger] less[i]).1) by {
            assert(less[i] == cells[i]);
        }
        lemma_invalid_globals(state, less, readings, read);
        let (addr, data) = cells[last];
        lemma_not_in_rest(cells);
        let earlier = unread_global(as_map(less), read);
        if readings[last] is Invalid {
            assert(state.invalid_global.union_prefer_right(all)
                =~= state.invalid_global.union_prefer_right(earlier).insert(addr, data));
        } else {
            assert(all =~= earlier);
        }
    }
}

/// Of the owned cells of a list, those which the API fails to read become invalid ones.
proof fn lemma_invalid_owneds(
    state: ProcessedView,
    cells: Seq<(CellAddr, StateCell)>,
    readings: Seq<ConversionView<StrictVal>>,
    read: spec_fn(StateValue) -> ConversionView<StrictVal>,
)
    requires
        distinct(cells),
        readings.len() >= cells.len(),
        forall|i: int|
            0 <= i < cells.len() ==> readings[i] == read((#[trigger] cells[i]).1.data),
    ensures
        state.with_owneds(cells, readings).invalid_owned
            == state.invalid_owned.union_prefer_right(unread_owned(as_map(cells), read)),
        state.with_owneds(cells, readings).invalid_global == state.invalid_global,
    decreases cells.len(),
{
    let all = unread_owned(as_map(cells), read);
    if cells.len() == 0 {
        assert(state.invalid_owned.union_prefer_right(all) =~= state.invalid_owned);
    } else {
        let less = cells.drop_last();
        let last = cells.len() - 1;
        lemma_fewer_distinct(cells);
        assert forall|i: int| 0 <= i < less.len() implies readings[i] == read(
            (#[trigger] less[i]).1.data,
        ) by {
            assert(less[i] == cells[i]);
        }
        lemma_invalid_owneds(state, less, readings, read);
        let (addr, cell) = cells[last];
        lemma_not_in_rest(cells);
        let earlier = unread_owned(as_map(less), read);
        if readings[last] is Invalid {
            assert(state.invalid_owned.union_prefer_right(all)
                =~= state.invalid_owned.union_prefer_right(earlier).insert(addr, cell.data));
        } else {
            assert(all =~= earlier);
        }
    }
}

/// A shorter list repeats no address either.
proof fn lemma_fewer_distinct<V>(list: Seq<(CellAddr, V)>)
    requires
        distinct(list),
        list.len() > 0,
    ensures
        distinct(list.drop_last()),
{
    let less = list.drop_last();
    assert forall|i: int, j: int| 0 <= i < j < less.len() implies (#[trigger] less[i]).0 != (
    #[trigger] less[j]).0 by {
        assert(list[i].0 != list[j].0);
    }
}

/// The last address of a list does not stand before.
proof fn lemma_not_in_rest<V>(list: Seq<(CellAddr, V)>)
    requires
        distinct(list),
        list.len() > 0,
    ensures
        !as_map(list.drop_last()).contains_key(list.last().0),
{
    let less = list.drop_last();
    lemma_fewer_distinct(list);
    lemma_as_map(less, list.last().0);
    if as_map(less).contains_key(list.last().0) {
        let i = choose|i: int| 0 <= i < less.len() && (#[trigger] less[i]).0 == list.last().0;
        assert(list[i].0 != list[list.len() - 1].0);
    }
}

/// A state processed anew out of a raw one holds as invalid exactly the cells which the API fails to
/// read.
pub proof fn law_rebuilt_state_holds_the_unread(
    raw: RawView,
    globals: Seq<(CellAddr, StateData)>,
    owned: Seq<(CellAddr, StateCell)>,
    reading: ReadingView,
    read_owned: spec_fn(StateValue) -> ConversionView<StrictVal>,
    read_global: spec_fn(StateData) -> ConversionView<StateAtom>,
)
    requires
        lists(globals, raw.global),
        lists(owned, raw.owned),
        reading.global.len() == globals.len(),
        reading.owned.len() == owned.len(),
        forall|i: int|
            0 <= i < globals.len() ==> #[trigger] reading.global[i] == read_global(globals[i].1),
        forall|i: int|
            0 <= i < owned.len() ==> #[trigger] reading.owned[i] == read_owned(owned[i].1.data),
    ensures
        ({
            let state = ProcessedView::empty().with_globals(globals, reading.global).with_owneds(
                owned,
                reading.owned,
            );
            &&& state.invalid_global == unread_global(raw.global, read_global)
            &&& state.invalid_owned == unread_owned(raw.owned, read_owned)
        }),
{
    let empty = ProcessedView::empty();
    lemma_lists(globals, raw.global);
    lemma_lists(owned, raw.owned);
    lemma_invalid_globals(empty, globals, reading.global, read_global);
    lemma_invalid_owneds(
        empty.with_globals(globals, reading.global),
        owned,
        reading.owned,
        read_owned,
    );
    let no_data = Map::<CellAddr, StateData>::empty();
    let no_values = Map::<CellAddr, StateValue>::empty();
    let data = unread_global(raw.global, read_global);
    let values = unread_owned(raw.owned, read_owned);
    assert(no_data.union_prefer_right(data) =~= data);
    assert(no_values.union_prefer_right(values) =~= values);
}

/// Where the invalid immutable cells are exactly those which the API fails to read, they are so after
/// a new operation as well.
pub proof fn law_apply_holds_the_unread(
    state: ProcessedView,
    raw: RawView,
    opid: Opid,
    op: OperationView,
    reading: ReadingView,
    read_owned: spec_fn(StateValue) -> ConversionView<StrictVal>,
    read_global: spec_fn(StateData) -> ConversionView<StateAtom>,
)
    requires
        state.invalid_global == unread_global(raw.global, read_global),
        fresh(raw, opid),
        op.well_formed(),
        faithful(reading, op, read_owned, read_global),
    ensures
        state.applied(opid, op, reading).invalid_global == unread_global(
            raw.applied(opid, op).global,
            read_global,
        ),
{
    lemma_applied_invalid(state, opid, op, reading, read_owned, read_global);
    let outs = output_cells(opid, op.immutable_out);
    let after = raw.applied(opid, op);
    assert(unread_global(raw.global, read_global).union_prefer_right(
        unread_global(outs, read_global),
    ) =~= unread_global(after.global, read_global));
}

/// Where the invalid owned cells are exactly those which the API fails to read, they are so after a
/// new operation as well, which destroys none of them.
pub proof fn law_apply_holds_the_unread_owned(
    state: ProcessedView,
    raw: RawView,
    opid: Opid,
    op: OperationView,
    reading: ReadingView,
    read_owned: spec_fn(StateValue) -> ConversionView<StrictVal>,
    read_global: spec_fn(StateData) -> ConversionView<StateAtom>,
)
    requires
        state.invalid_owned == unread_owned(raw.owned, read_owned),
        fresh(raw, opid),
        op.well_formed(),
        faithful(reading, op, read_owned, read_global),
        forall|addr: CellAddr| #[trigger]
            input_addrs(op.destructible_in).contains(addr) && raw.owned.contains_key(addr) ==> !(
            read_owned(raw.owned[addr].data) is Invalid),
    ensures
        state.applied(opid, op, reading).invalid_owned == unread_owned(
            raw.applied(opid, op).owned,
            read_owned,
        ),
{
    lemma_applied_invalid(state, opid, op, reading, read_owned, read_global);
    let outs = output_cells(opid, op.destructible_out);
    let after = raw.applied(opid, op);
    assert(unread_owned(raw.owned, read_owned).union_prefer_right(unread_owned(outs, read_owned))
        =~= unread_owned(after.owned, read_owned));
}

/// An operation adds to the invalid cells those of its outputs which the API fails to read.
proof fn lemma_applied_invalid(
    state: ProcessedView,
    opid: Opid,
    op: OperationView,
    reading: ReadingView,
    read_owned: spec_fn(StateValue) -> ConversionView<StrictVal>,
    read_global: spec_fn(StateData) -> ConversionView<StateAtom>,
)
    requires
        op.well_formed(),
        faithful(reading, op, read_owned, read_global),
    ensures
        state.applied(opid, op, reading).invalid_global == state.invalid_global.union_prefer_right(
            unread_global(output_cells(opid, op.immutable_out), read_global),
        ),
        state.applied(opid, op, reading).invalid_owned == state.invalid_owned.union_prefer_right(
            unread_owned(output_cells(opid, op.destructible_out), read_owned),
        ),
{
    let globals = numbered(opid, op.immutable_out);
    let outs = numbered(opid, op.destructible_out);
    lemma_numbered(opid, op.immutable_out);
    lemma_numbered(opid, op.destructible_out);
    assert forall|i: int| 0 <= i < globals.len() implies reading.global[i] == read_global(
        (#[trigger] globals[i]).1,
    ) by {}
    assert forall|i: int| 0 <= i < outs.len() implies reading.owned[i] == read_owned(
        (#[trigger] outs[i]).1.data,
    ) by {}
    lemma_invalid_globals(state, globals, reading.global, read_global);
    let middle = state.with_globals(globals, reading.global).without_owned(
        input_addrs(op.destructible_in),
    );
    lemma_invalid_owneds(middle, outs, reading.owned, read_owned);
}

/// Applying a new operation leads to the state which is processed anew out of the raw one: every name
/// has the same immutable and the same owned cells, and the invalid immutable cells are the same.
pub proof fn law_apply_agrees_with_rebuilt(
    state: ProcessedView,
    raw: RawView,
    opid: Opid,
    op: OperationView,
    reading: ReadingView,
    globals: Seq<(CellAddr, StateData)>,
    owned: Seq<(CellAddr, StateCell)>,
    whole: ReadingView,
    read_owned: spec_fn(StateValue) -> ConversionView<StrictVal>,
    read_global: spec_fn(StateData) -> ConversionView<StateAtom>,
    name: Seq<char>,
)
    requires
        in_step(state, raw, read_owned, read_global),
        state.invalid_global == unread_global(raw.global, read_global),
        fresh(raw, opid),
        op.well_formed(),
        faithful(reading, op, read_owned, read_global),
        lists(globals, raw.applied(opid, op).global),
        lists(owned, raw.applied(opid, op).owned),
        whole.global.len() == globals.len(),
        whole.owned.len() == owned.len(),
        forall|i: int|
            0 <= i < globals.len() ==> #[trigger] whole.global[i] == read_global(globals[i].1),
        forall|i: int|
            0 <= i < owned.len() ==> #[trigger] whole.owned[i] == read_owned(owned[i].1.data),
    ensures
        ({
            let applied = state.applied(opid, op, reading);
            let rebuilt = ProcessedView::empty().with_globals(globals, whole.global).with_owneds(
                owned,
                whole.owned,
            );
            &&& cells_of(applied.global, name) == cells_of(rebuilt.global, name)
            &&& cells_of(applied.owned, name) == cells_of(rebuilt.owned, name)
            &&& applied.invalid_global == rebuilt.invalid_global
        }),
{
    let after = raw.applied(opid, op);
    let rebuilt = ProcessedView::empty().with_globals(globals, whole.global).with_owneds(
        owned,
        whole.owned,
    );
    law_apply_keeps_step(state, raw, opid, op, reading, read_owned, read_global);
    law_apply_holds_the_unread(state, raw, opid, op, reading, read_owned, read_global);
    law_rebuilt_state_is_in_step(after, globals, owned, whole, read_owned, read_global);
    law_rebuilt_state_holds_the_unread(after, globals, owned, whole, read_owned, read_global);
    law_states_in_step_agree(
        state.applied(opid, op, reading),
        rebuilt,
        after,
        read_owned,
        read_global,
        name,
    );
}

} // verus!
