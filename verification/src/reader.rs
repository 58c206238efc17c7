//! Reading of memory cells by the APIs of a contract.

use crate::cells::lists;
use crate::processed::{conversions, reads_outputs, ApiReading, Conversion, StateAtom};
use crate::raw::{lemma_listed, RawState};
use crate::state::{
    custom_views, reads_apis, reads_cells, restored_views, Readings, Restorations, Semantics,
};
use crate::types::{CellAddr, Operation, StateCell};
use strict_types::StrictVal;
use ultrasonic::StateData;
use ultrasonic::StateValue;
use vstd::prelude::*;

verus! {

/// The way the APIs of a contract read memory cells. The default API has the number 0, and the
/// custom ones follow.
pub struct ApiReader<G, O> {
    /// Reads an immutable cell.
    pub global: G,
    /// Reads the value of an owned cell.
    pub owned: O,
    /// Leaves the reading for later.
    pub defer: bool,
}

/// Any cell can be read by any API.
pub open spec fn usable<
    G: Fn(usize, &StateData) -> Conversion<StateAtom>,
    O: Fn(usize, StateValue) -> Conversion<StrictVal>,
>(reader: ApiReader<G, O>) -> bool {
    &&& forall|api: usize, data: StateData| #[trigger] call_requires(reader.global, (api, &data))
    &&& forall|api: usize, value: StateValue| #[trigger] call_requires(reader.owned, (api, value))
}

/// The reading is what the reader makes of the outputs of an operation.
pub open spec fn reads_by<
    G: Fn(usize, &StateData) -> Conversion<StateAtom>,
    O: Fn(usize, StateValue) -> Conversion<StrictVal>,
>(reader: ApiReader<G, O>, api: usize, op: Operation, reading: ApiReading) -> bool {
    &&& reads_outputs(reading@, op@)
    &&& forall|i: int|
        0 <= i < op.immutable_out@.len() ==> call_ensures(
            reader.global,
            (api, &op.immutable_out@[i]),
            #[trigger] reading.global@[i],
        )
    &&& forall|i: int|
        0 <= i < op.destructible_out@.len() ==> call_ensures(
            reader.owned,
            (api, op.destructible_out@[i].data),
            #[trigger] reading.owned@[i],
        )
}

/// The readings are what the reader makes of the outputs of an operation for all the APIs of a
/// contract; nothing where the reading is deferred.
pub open spec fn readings_by<
    G: Fn(usize, &StateData) -> Conversion<StateAtom>,
    O: Fn(usize, StateValue) -> Conversion<StrictVal>,
>(reader: ApiReader<G, O>, semantics: Semantics, op: Operation, readings: Option<Readings>) -> bool {
    match readings {
        None => reader.defer,
        Some(readings) => {
            &&& !reader.defer
            &&& reads_apis(readings@, semantics)
            &&& reads_by(reader, 0, op, readings.main)
            &&& forall|k: int|
                0 <= k < readings.custom@.len() ==> reads_by(
                    reader,
                    (k + 1) as usize,
                    op,
                    (#[trigger] readings.custom@[k]).1,
                )
        },
    }
}

/// The conversions are what the reader makes of a list of cells.
pub open spec fn restores_by<
    G: Fn(usize, &StateData) -> Conversion<StateAtom>,
    O: Fn(usize, StateValue) -> Conversion<StrictVal>,
>(
    reader: ApiReader<G, O>,
    api: usize,
    cells: Seq<(CellAddr, StateCell)>,
    list: Seq<Conversion<StrictVal>>,
) -> bool {
    &&& list.len() == cells.len()
    &&& forall|i: int|
        0 <= i < cells.len() ==> call_ensures(
            reader.owned,
            (api, cells[i].1.data),
            #[trigger] list[i],
        )
}

/// The conversions are what the reader makes of a list of cells for all the APIs of a contract;
/// nothing where the reading is deferred.
pub open spec fn restorations_by<
    G: Fn(usize, &StateData) -> Conversion<StateAtom>,
    O: Fn(usize, StateValue) -> Conversion<StrictVal>,
>(
    reader: ApiReader<G, O>,
    semantics: Semantics,
    cells: Seq<(CellAddr, StateCell)>,
    readings: Option<Restorations>,
) -> bool {
    match readings {
        None => reader.defer,
        Some(readings) => {
            &&& !reader.defer
            &&& readings.custom@.len() == semantics.custom@.len()
            &&& restores_by(reader, 0, cells, readings.main@)
            &&& forall|k: int|
                0 <= k < readings.custom@.len() ==> (#[trigger] readings.custom@[k]).0@
                    == semantics.custom@[k].0@ && restores_by(
                    reader,
                    (k + 1) as usize,
                    cells,
                    readings.custom@[k].1@,
                )
        },
    }
}

/// The reading is what the reader makes of the cells of a raw state, in the order of the addresses.
pub open spec fn reads_state_by<
    G: Fn(usize, &StateData) -> Conversion<StateAtom>,
    O: Fn(usize, StateValue) -> Conversion<StrictVal>,
>(
    reader: ApiReader<G, O>,
    api: usize,
    globals: Seq<(CellAddr, StateData)>,
    owned: Seq<(CellAddr, StateCell)>,
    reading: ApiReading,
) -> bool {
    &&& reading.global@.len() == globals.len()
    &&& forall|i: int|
        0 <= i < globals.len() ==> call_ensures(
            reader.global,
            (api, &globals[i].1),
            #[trigger] reading.global@[i],
        )
    &&& restores_by(reader, api, owned, reading.owned@)
}

impl<
    G: Fn(usize, &StateData) -> Conversion<StateAtom>,
    O: Fn(usize, StateValue) -> Conversion<StrictVal>,
> ApiReader<G, O> {
    /// Reads the outputs of an operation by one API.
    fn read_outputs(&self, api: usize, op: &Operation) -> (r: ApiReading)
        requires
            usable(*self),
        ensures
            reads_by(*self, api, *op, r),
    {
        let mut global: Vec<Conversion<StateAtom>> = Vec::new();
        let mut i: usize = 0;
        while i < op.immutable_out.len()
            invariant
                usable(*self),
                i <= op.immutable_out@.len(),
                global@.len() == i,
                forall|k: int|
                    0 <= k < i ==> call_ensures(
                        self.global,
                        (api, &op.immutable_out@[k]),
                        #[trigger] global@[k],
                    ),
            decreases op.immutable_out@.len() - i,
        {
            let conversion = (self.global)(api, &op.immutable_out[i]);
            global.push(conversion);
            i = i + 1;
        }
        let mut owned: Vec<Conversion<StrictVal>> = Vec::new();
        let mut j: usize = 0;
        while j < op.destructible_out.len()
            invariant
                usable(*self),
                j <= op.destructible_out@.len(),
                owned@.len() == j,
                forall|k: int|
                    0 <= k < j ==> call_ensures(
                        self.owned,
                        (api, op.destructible_out@[k].data),
                        #[trigger] owned@[k],
                    ),
            decreases op.destructible_out@.len() - j,
        {
            let conversion = (self.owned)(api, op.destructible_out[j].data);
            owned.push(conversion);
            j = j + 1;
        }
        ApiReading { global, owned }
    }

    /// Reads the outputs of an operation by all the APIs of a contract.
    pub fn read_operation(&self, semantics: &Semantics, op: &Operation) -> (r: Option<Readings>)
        requires
            usable(*self),
        ensures
            readings_by(*self, *semantics, *op, r),
            r matches Some(readings) ==> readings@.reads_outputs(op@),
    {
        if self.defer {
            return None;
        }
        let main = self.read_outputs(0, op);
        let mut custom: Vec<(String, ApiReading)> = Vec::new();
        let mut k: usize = 0;
        while k < semantics.custom.len()
            invariant
                usable(*self),
                k <= semantics.custom@.len(),
                custom@.len() == k,
                forall|m: int|
                    0 <= m < k ==> (#[trigger] custom@[m]).0@ == semantics.custom@[m].0@ && reads_by(
                        *self,
                        (m + 1) as usize,
                        *op,
                        custom@[m].1,
                    ),
            decreases semantics.custom@.len() - k,
        {
            let reading = self.read_outputs(k + 1, op);
            custom.push((semantics.custom[k].0.clone(), reading));
            k = k + 1;
        }
        let readings = Readings { main, custom };
        proof {
            assert forall|m: int| 0 <= m < readings@.custom.len() implies (
            #[trigger] readings@.custom[m]).0 == semantics.custom@[m].0@ && reads_outputs(
                readings@.custom[m].1,
                op@,
            ) by {
                assert(custom_views(custom@)[m] == (custom@[m].0@, custom@[m].1@));
            }
        }
        Some(readings)
    }

    /// Reads a list of cells by one API.
    fn read_cells(&self, api: usize, cells: &Vec<(CellAddr, StateCell)>) -> (r: Vec<
        Conversion<StrictVal>,
    >)
        requires
            usable(*self),
        ensures
            restores_by(*self, api, cells@, r@),
    {
        let mut list: Vec<Conversion<StrictVal>> = Vec::new();
        let mut i: usize = 0;
        while i < cells.len()
            invariant
                usable(*self),
                i <= cells@.len(),
                list@.len() == i,
                forall|k: int|
                    0 <= k < i ==> call_ensures(
                        self.owned,
                        (api, cells@[k].1.data),
                        #[trigger] list@[k],
                    ),
            decreases cells@.len() - i,
        {
            let conversion = (self.owned)(api, cells[i].1.data);
            list.push(conversion);
            i = i + 1;
        }
        list
    }

    /// Reads a list of destroyed cells by all the APIs of a contract.
    pub fn read_destroyed(&self, semantics: &Semantics, cells: &Vec<(CellAddr, StateCell)>) -> (r: Option<
        Restorations,
    >)
        requires
            usable(*self),
        ensures
            restorations_by(*self, *semantics, cells@, r),
            r matches Some(readings) ==> readings@.reads(cells@.len()),
    {
        if self.defer {
            return None;
        }
        let main = self.read_cells(0, cells);
        let mut custom: Vec<(String, Vec<Conversion<StrictVal>>)> = Vec::new();
        let mut k: usize = 0;
        while k < semantics.custom.len()
            invariant
                usable(*self),
                k <= semantics.custom@.len(),
                custom@.len() == k,
                forall|m: int|
                    0 <= m < k ==> (#[trigger] custom@[m]).0@ == semantics.custom@[m].0@
                        && restores_by(*self, (m + 1) as usize, cells@, custom@[m].1@),
            decreases semantics.custom@.len() - k,
        {
            let list = self.read_cells(k + 1, cells);
            custom.push((semantics.custom[k].0.clone(), list));
            k = k + 1;
        }
        let readings = Restorations { main, custom };
        proof {
            assert forall|m: int| 0 <= m < readings@.custom.len() implies (
            #[trigger] readings@.custom[m]).1.len() == cells@.len() by {
                assert(restored_views(custom@)[m] == (custom@[m].0@, conversions(custom@[m].1@)));
            }
        }
        Some(readings)
    }

    /// Reads lists of cells by one API.
    fn read_lists(
        &self,
        api: usize,
        globals: &Vec<(CellAddr, StateData)>,
        owned: &Vec<(CellAddr, StateCell)>,
    ) -> (r: ApiReading)
        requires
            usable(*self),
        ensures
            reads_state_by(*self, api, globals@, owned@, r),
    {
        let mut list: Vec<Conversion<StateAtom>> = Vec::new();
        let mut i: usize = 0;
        while i < globals.len()
            invariant
                usable(*self),
                i <= globals@.len(),
                list@.len() == i,
                forall|k: int|
                    0 <= k < i ==> call_ensures(
                        self.global,
                        (api, &globals@[k].1),
                        #[trigger] list@[k],
                    ),
            decreases globals@.len() - i,
        {
            let conversion = (self.global)(api, &globals[i].1);
            list.push(conversion);
            i = i + 1;
        }
        ApiReading { global: list, owned: self.read_cells(api, owned) }
    }

    /// Reads all the cells of a raw state by all the APIs of a contract.
    pub fn read_state(&self, semantics: &Semantics, raw: &RawState) -> (r: Readings)
        requires
            usable(*self),
        ensures
            reads_apis(r@, *semantics),
            r@.reads_state(raw@),
            exists|globals: Seq<(CellAddr, StateData)>, owned: Seq<(CellAddr, StateCell)>|
                {
                    &&& #[trigger] lists(globals, raw@.global)
                    &&& #[trigger] lists(owned, raw@.owned)
                    &&& reads_state_by(*self, 0, globals, owned, r.main)
                    &&& forall|k: int|
                        0 <= k < r.custom@.len() ==> reads_state_by(
                            *self,
                            (k + 1) as usize,
                            globals,
                            owned,
                            (#[trigger] r.custom@[k]).1,
                        )
                },
    {
        let globals = raw.global_cells();
        let owned = raw.owned_cells();
        proof {
            lemma_listed(globals@, raw@.global);
            lemma_listed(owned@, raw@.owned);
        }
        let main = self.read_lists(0, &globals, &owned);
        let mut custom: Vec<(String, ApiReading)> = Vec::new();
        let mut k: usize = 0;
        while k < semantics.custom.len()
            invariant
                usable(*self),
                k <= semantics.custom@.len(),
                custom@.len() == k,
                forall|m: int|
                    0 <= m < k ==> (#[trigger] custom@[m]).0@ == semantics.custom@[m].0@
                        && reads_state_by(
                        *self,
                        (m + 1) as usize,
                        globals@,
                        owned@,
                        custom@[m].1,
                    ),
            decreases semantics.custom@.len() - k,
        {
            let reading = self.read_lists(k + 1, &globals, &owned);
            custom.push((semantics.custom[k].0.clone(), reading));
            k = k + 1;
        }
        let readings = Readings { main, custom };
        proof {
            assert forall|m: int| 0 <= m < readings@.custom.len() implies (
            #[trigger] readings@.custom[m]).0 == semantics.custom@[m].0@ && reads_cells(
                readings@.custom[m].1,
                raw@,
            ) by {
                assert(custom_views(custom@)[m] == (custom@[m].0@, custom@[m].1@));
            }
        }
        readings
    }
}

} // verus!
