//! Processed contract state: the memory cells as an API reads them.

use crate::cells::lists;
use crate::raw::{input_addrs, RawState};
use crate::sorted::{outputs_of_any, with_cell, without_cells, NamedCells, SortedMap};
use crate::types::{CellAddr, Operation, OperationView, Opid, StateCell};
use crate::ultra::clone_data;
use strict_types::StrictVal;
use ultrasonic::StateData;
use ultrasonic::StateValue;
use vstd::prelude::*;

verus! {

/// Value of a structured type; carried through unopened.
#[verifier::external_type_specification]
#[verifier::external_body]
pub struct ExStrictVal(StrictVal);

/// Immutable state as an API reads it.
#[derive(Debug, PartialEq, Eq)]
pub struct StateAtom {
    /// The part which the codex verifies.
    pub verified: StrictVal,
    /// The part which nothing verifies.
    pub unverified: Option<StrictVal>,
}

/// What an API makes of a memory cell.
#[derive(Debug)]
pub enum Conversion<V> {
    /// The cell is unrelated to the API.
    Unrelated,
    /// The cell holds a value of the named state.
    Atom(String, V),
    /// The cell is related to the API, but its data are invalid.
    Invalid,
}

/// Mathematical model of [`Conversion`].
pub enum ConversionView<V> {
    Unrelated,
    Atom(Seq<char>, V),
    Invalid,
}

impl<V> View for Conversion<V> {
    type V = ConversionView<V>;

    open spec fn view(&self) -> ConversionView<V> {
        match *self {
            Conversion::Unrelated => ConversionView::Unrelated,
            Conversion::Atom(name, value) => ConversionView::Atom(name@, value),
            Conversion::Invalid => ConversionView::Invalid,
        }
    }
}

/// What an API makes of the outputs of an operation, or of all the cells of a state.
#[derive(Debug)]
pub struct ApiReading {
    pub global: Vec<Conversion<StateAtom>>,
    pub owned: Vec<Conversion<StrictVal>>,
}

/// Mathematical model of [`ApiReading`].
#[verifier::ext_equal]
pub struct ReadingView {
    pub global: Seq<ConversionView<StateAtom>>,
    pub owned: Seq<ConversionView<StrictVal>>,
}

/// Models of a list of conversions.
pub open spec fn conversions<V>(list: Seq<Conversion<V>>) -> Seq<ConversionView<V>> {
    list.map_values(|c: Conversion<V>| c@)
}

impl View for ApiReading {
    type V = ReadingView;

    open spec fn view(&self) -> ReadingView {
        ReadingView { global: conversions(self.global@), owned: conversions(self.owned@) }
    }
}

/// Contract state as an API reads it.
#[derive(Debug, PartialEq, Eq)]
pub struct ProcessedState {
    pub global: NamedCells<StateAtom>,
    pub owned: NamedCells<StrictVal>,
    pub aggregated: SortedMap<String, StrictVal>,
    pub invalid_global: SortedMap<CellAddr, StateData>,
    pub invalid_owned: SortedMap<CellAddr, StateValue>,
}

/// Mathematical model of [`ProcessedState`].
#[verifier::ext_equal]
pub struct ProcessedView {
    pub global: Map<Seq<char>, Map<CellAddr, StateAtom>>,
    pub owned: Map<Seq<char>, Map<CellAddr, StrictVal>>,
    pub aggregated: Map<Seq<char>, StrictVal>,
    pub invalid_global: Map<CellAddr, StateData>,
    pub invalid_owned: Map<CellAddr, StateValue>,
}

impl View for ProcessedState {
    type V = ProcessedView;

    open spec fn view(&self) -> ProcessedView {
        ProcessedView {
            global: self.global@,
            owned: self.owned@,
            aggregated: self.aggregated.content(),
            invalid_global: self.invalid_global.content(),
            invalid_owned: self.invalid_owned.content(),
        }
    }
}

impl ProcessedView {
    /// Nothing is known.
    pub open spec fn empty() -> ProcessedView {
        ProcessedView {
            global: Map::empty(),
            owned: Map::empty(),
            aggregated: Map::empty(),
            invalid_global: Map::empty(),
            invalid_owned: Map::empty(),
        }
    }

    /// The state with one more immutable cell.
    pub open spec fn with_global(
        self,
        addr: CellAddr,
        data: StateData,
        reading: ConversionView<StateAtom>,
    ) -> ProcessedView {
        match reading {
            ConversionView::Unrelated => self,
            ConversionView::Atom(name, atom) => ProcessedView {
                global: with_cell(self.global, name, addr, atom),
                ..self
            },
            ConversionView::Invalid => ProcessedView {
                invalid_global: self.invalid_global.insert(addr, data),
                ..self
            },
        }
    }

    /// The state with one more owned cell.
    pub open spec fn with_owned(
        self,
        addr: CellAddr,
        value: StateValue,
        reading: ConversionView<StrictVal>,
    ) -> ProcessedView {
        match reading {
            ConversionView::Unrelated => self,
            ConversionView::Atom(name, atom) => ProcessedView {
                owned: with_cell(self.owned, name, addr, atom),
                ..self
            },
            ConversionView::Invalid => ProcessedView {
                invalid_owned: self.invalid_owned.insert(addr, value),
                ..self
            },
        }
    }

    /// The state with the immutable cells of a list.
    pub open spec fn with_globals(
        self,
        cells: Seq<(CellAddr, StateData)>,
        readings: Seq<ConversionView<StateAtom>>,
    ) -> ProcessedView
        decreases cells.len(),
    {
        if cells.len() == 0 {
            self
        } else {
            let last = cells.len() - 1;
            self.with_globals(cells.drop_last(), readings).with_global(
                cells[last].0,
                cells[last].1,
                readings[last],
            )
        }
    }

    /// The state with the owned cells of a list.
    pub open spec fn with_owneds(
        self,
        cells: Seq<(CellAddr, StateCell)>,
        readings: Seq<ConversionView<StrictVal>>,
    ) -> ProcessedView
        decreases cells.len(),
    {
        if cells.len() == 0 {
            self
        } else {
            let last = cells.len() - 1;
            self.with_owneds(cells.drop_last(), readings).with_owned(
                cells[last].0,
                cells[last].1.data,
                readings[last],
            )
        }
    }

    /// The state without owned cells.
    pub open spec fn without_owned(self, gone: Set<CellAddr>) -> ProcessedView {
        ProcessedView { owned: without_cells(self.owned, gone), ..self }
    }

    /// The state without the outputs of an operation. Invalid data stay.
    pub open spec fn without_outputs(self, opid: Opid) -> ProcessedView {
        ProcessedView {
            global: without_cells(self.global, outputs_of_any(opid)),
            owned: without_cells(self.owned, outputs_of_any(opid)),
            ..self
        }
    }

    /// The state after an operation.
    pub open spec fn applied(self, opid: Opid, op: OperationView, reading: ReadingView) -> ProcessedView {
        self.with_globals(numbered(opid, op.immutable_out), reading.global).without_owned(
            input_addrs(op.destructible_in),
        ).with_owneds(numbered(opid, op.destructible_out), reading.owned)
    }

    /// The state after a transition was taken back.
    pub open spec fn rolled_back(
        self,
        opid: Opid,
        destroyed: Seq<(CellAddr, StateCell)>,
        readings: Seq<ConversionView<StrictVal>>,
    ) -> ProcessedView {
        self.without_outputs(opid).with_owneds(destroyed, readings)
    }
}

/// The outputs of an operation with their addresses.
pub open spec fn numbered<V>(opid: Opid, outputs: Seq<V>) -> Seq<(CellAddr, V)> {
    Seq::new(outputs.len(), |i: int| (CellAddr { opid, pos: i as u16 }, outputs[i]))
}

/// The reading has a conversion for each output of the operation.
pub open spec fn reads_outputs(reading: ReadingView, op: OperationView) -> bool {
    reading.global.len() == op.immutable_out.len() && reading.owned.len()
        == op.destructible_out.len()
}

impl ProcessedState {
    /// The maps are in order.
    pub open spec fn well_formed(self) -> bool {
        &&& self.global.well_formed()
        &&& self.owned.well_formed()
        &&& self.aggregated.well_formed()
        &&& self.invalid_global.well_formed()
        &&& self.invalid_owned.well_formed()
    }

    /// Nothing is known.
    pub fn new() -> (r: ProcessedState)
        ensures
            r.well_formed(),
            r@ == ProcessedView::empty(),
    {
        ProcessedState {
            global: NamedCells::new(),
            owned: NamedCells::new(),
            aggregated: SortedMap::new(),
            invalid_global: SortedMap::new(),
            invalid_owned: SortedMap::new(),
        }
    }

    /// Processes all the cells of a raw state. The conversions come in the order of the addresses.
    pub fn with(raw: &RawState, reading: ApiReading) -> (r: ProcessedState)
        requires
            raw@.global.dom().finite(),
            raw@.owned.dom().finite(),
            reading@.global.len() == raw@.global.len(),
            reading@.owned.len() == raw@.owned.len(),
        ensures
            r.well_formed(),
            exists|globals: Seq<(CellAddr, StateData)>, owned: Seq<(CellAddr, StateCell)>|
                lists(globals, raw@.global) && lists(owned, raw@.owned) && r@
                    == #[trigger] ProcessedView::empty().with_globals(
                    globals,
                    reading@.global,
                ).with_owneds(owned, reading@.owned),
    {
        let mut me = ProcessedState::new();
        let globals = raw.global.entries();
        let owned = raw.owned.entries();
        proof {
            crate::raw::lemma_listed(globals@, raw@.global);
            crate::raw::lemma_listed(owned@, raw@.owned);
        }
        me.process_globals(&globals, reading.global);
        me.process_owneds(&owned, reading.owned);
        me
    }

    /// The cells of the named global state.
    pub fn global(&self, name: &String) -> (r: Option<&SortedMap<CellAddr, StateAtom>>)
        requires
            self.well_formed(),
        ensures
            match r {
                Some(cells) => {
                    &&& self@.global.contains_key(name@)
                    &&& cells.well_formed()
                    &&& cells.content() == self@.global[name@]
                },
                None => !self@.global.contains_key(name@),
            },
    {
        self.global.get(name)
    }

    /// The cells of the named owned state.
    pub fn owned(&self, name: &String) -> (r: Option<&SortedMap<CellAddr, StrictVal>>)
        requires
            self.well_formed(),
        ensures
            match r {
                Some(cells) => {
                    &&& self@.owned.contains_key(name@)
                    &&& cells.well_formed()
                    &&& cells.content() == self@.owned[name@]
                },
                None => !self@.owned.contains_key(name@),
            },
    {
        self.owned.get(name)
    }

    /// Processes an immutable cell.
    pub fn process_global(&mut self, addr: CellAddr, data: &StateData, reading: Conversion<StateAtom>)
        requires
            old(self).well_formed(),
        ensures
            final(self).well_formed(),
            final(self)@ == old(self)@.with_global(addr, *data, reading@),
    {
        match reading {
            // This means this state is unrelated to this API
            Conversion::Unrelated => {},
            Conversion::Atom(name, atom) => {
                self.global.insert(name, addr, atom);
            },
            Conversion::Invalid => {
                self.invalid_global.insert(addr, clone_data(data));
            },
        }
    }

    /// Processes an owned cell.
    pub fn process_owned(&mut self, addr: CellAddr, cell: &StateCell, reading: Conversion<StrictVal>)
        requires
            old(self).well_formed(),
        ensures
            final(self).well_formed(),
            final(self)@ == old(self)@.with_owned(addr, cell.data, reading@),
    {
        match reading {
            // This means this state is unrelated to this API
            Conversion::Unrelated => {},
            Conversion::Atom(name, atom) => {
                self.owned.insert(name, addr, atom);
            },
            Conversion::Invalid => {
                self.invalid_owned.insert(addr, cell.data);
            },
        }
    }

    /// Processes a list of immutable cells.
    fn process_globals(
        &mut self,
        cells: &Vec<(CellAddr, StateData)>,
        readings: Vec<Conversion<StateAtom>>,
    )
        requires
            old(self).well_formed(),
            readings@.len() == cells@.len(),
        ensures
            final(self).well_formed(),
            final(self)@ == old(self)@.with_globals(cells@, conversions(readings@)),
    {
        let ghost before = self@;
        let ghost all = conversions(readings@);
        let count = cells.len();
        let mut i: usize = 0;
        assert(cells@.take(0) =~= Seq::empty());
        for reading in it: readings
            invariant
                count == cells@.len(),
                it.seq() == readings@,
                i == it.index(),
                all == conversions(readings@),
                all.len() == cells@.len(),
                self.well_formed(),
                self@ == before.with_globals(cells@.take(i as int), all),
        {
            proof {
                assert(cells@.take(i + 1).drop_last() =~= cells@.take(i as int));
                assert(all[i as int] == reading@);
            }
            self.process_global(cells[i].0, &cells[i].1, reading);
            i = i + 1;
        }
        assert(cells@.take(cells@.len() as int) =~= cells@);
    }

    /// Processes a list of owned cells.
    fn process_owneds(
        &mut self,
        cells: &Vec<(CellAddr, StateCell)>,
        readings: Vec<Conversion<StrictVal>>,
    )
        requires
            old(self).well_formed(),
            readings@.len() == cells@.len(),
        ensures
            final(self).well_formed(),
            final(self)@ == old(self)@.with_owneds(cells@, conversions(readings@)),
    {
        let ghost before = self@;
        let ghost all = conversions(readings@);
        let count = cells.len();
        let mut i: usize = 0;
        assert(cells@.take(0) =~= Seq::empty());
        for reading in it: readings
            invariant
                count == cells@.len(),
                it.seq() == readings@,
                i == it.index(),
                all == conversions(readings@),
                all.len() == cells@.len(),
                self.well_formed(),
                self@ == before.with_owneds(cells@.take(i as int), all),
        {
            proof {
                assert(cells@.take(i + 1).drop_last() =~= cells@.take(i as int));
                assert(all[i as int] == reading@);
            }
            self.process_owned(cells[i].0, &cells[i].1, reading);
            i = i + 1;
        }
        assert(cells@.take(cells@.len() as int) =~= cells@);
    }

    /// Applies an operation.
    pub fn apply(&mut self, opid: Opid, op: &Operation, reading: ApiReading)
        requires
            old(self).well_formed(),
            op@.well_formed(),
            reads_outputs(reading@, op@),
        ensures
            final(self).well_formed(),
            final(self)@ == old(self)@.applied(opid, op@, reading@),
    {
        let ghost before = self@;
        let ghost globals = numbered(opid, op@.immutable_out);
        let ghost outs = numbered(opid, op@.destructible_out);
        let ghost global_readings = conversions(reading.global@);
        let ghost owned_readings = conversions(reading.owned@);
        let count = op.immutable_out.len();
        let mut i: usize = 0;
        assert(globals.take(0) =~= Seq::empty());
        for conversion in it: reading.global
            invariant
                count == op.immutable_out@.len(),
                op@.well_formed(),
                it.seq() == reading.global@,
                i == it.index(),
                global_readings == conversions(reading.global@),
                global_readings.len() == count,
                globals == numbered(opid, op@.immutable_out),
                self.well_formed(),
                self@ == before.with_globals(globals.take(i as int), global_readings),
        {
            proof {
                assert(globals.take(i + 1).drop_last() =~= globals.take(i as int));
                assert(global_readings[i as int] == conversion@);
                assert(globals.take(i + 1)[i as int] == globals[i as int]);
            }
            self.process_global(CellAddr::new(opid, i as u16), &op.immutable_out[i], conversion);
            i = i + 1;
        }
        assert(globals.take(globals.len() as int) =~= globals);
        let ghost middle = self@;
        let ghost inputs = op@.destructible_in;
        let mut j: usize = 0;
        proof {
            assert(without_cells(middle.owned, input_addrs(inputs.take(0))) =~= middle.owned) by {
                assert forall|name: Seq<char>| #[trigger] middle.owned.contains_key(name) implies
                    middle.owned[name].remove_keys(input_addrs(inputs.take(0)))
                    =~= middle.owned[name] by {}
            }
        }
        while j < op.destructible_in.len()
            invariant
                j <= inputs.len(),
                inputs == op.destructible_in@,
                self.well_formed(),
                self@ == middle.without_owned(input_addrs(inputs.take(j as int))),
            decreases inputs.len() - j,
        {
            let addr = op.destructible_in[j].addr;
            self.owned.remove(addr);
            proof {
                crate::raw::lemma_addrs_step(inputs, j as int);
                let less = input_addrs(inputs.take(j as int));
                let more = input_addrs(inputs.take(j + 1));
                lemma_without_twice(middle.owned, less, set![addr]);
                assert(less.union(set![addr]) =~= more);
            }
            j = j + 1;
        }
        assert(inputs.take(inputs.len() as int) =~= inputs);
        let ghost spent = self@;
        let out_count = op.destructible_out.len();
        let mut k: usize = 0;
        assert(outs.take(0) =~= Seq::empty());
        for conversion in it: reading.owned
            invariant
                out_count == op.destructible_out@.len(),
                op@.well_formed(),
                it.seq() == reading.owned@,
                k == it.index(),
                owned_readings == conversions(reading.owned@),
                owned_readings.len() == out_count,
                outs == numbered(opid, op@.destructible_out),
                self.well_formed(),
                self@ == spent.with_owneds(outs.take(k as int), owned_readings),
        {
            proof {
                assert(outs.take(k + 1).drop_last() =~= outs.take(k as int));
                assert(owned_readings[k as int] == conversion@);
                assert(outs.take(k + 1)[k as int] == outs[k as int]);
            }
            self.process_owned(CellAddr::new(opid, k as u16), &op.destructible_out[k], conversion);
            k = k + 1;
        }
        assert(outs.take(outs.len() as int) =~= outs);
    }

    /// Takes a transition back. The conversions come in the order of the addresses of the destroyed
    /// cells.
    pub fn rollback(
        &mut self,
        opid: Opid,
        destroyed: &Vec<(CellAddr, StateCell)>,
        readings: Vec<Conversion<StrictVal>>,
    )
        requires
            old(self).well_formed(),
            readings@.len() == destroyed@.len(),
        ensures
            final(self).well_formed(),
            final(self)@ == old(self)@.rolled_back(opid, destroyed@, conversions(readings@)),
    {
        self.global.remove_outputs(opid);
        self.owned.remove_outputs(opid);
        self.process_owneds(destroyed, readings);
    }
}

/// Taking cells out in two steps is the same as taking them out at once.
proof fn lemma_without_twice<V>(
    named: Map<Seq<char>, Map<CellAddr, V>>,
    one: Set<CellAddr>,
    other: Set<CellAddr>,
)
    ensures
        without_cells(without_cells(named, one), other) == without_cells(named, one.union(other)),
{
    let twice = without_cells(without_cells(named, one), other);
    let once = without_cells(named, one.union(other));
    assert forall|name: Seq<char>| named.contains_key(name) implies twice[name] == #[trigger] once[name] by {
        assert(twice[name] =~= once[name]);
    }
    assert(twice =~= once);
}

} // verus!
