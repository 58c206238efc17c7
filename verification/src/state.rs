//! Effective contract state: the raw state together with the way the APIs of the contract read it.

use crate::aggregate::{aggregation, Aggregator};
use crate::cells::lists;
use crate::processed::{
    conversions, reads_outputs, ApiReading, Conversion, ConversionView, ProcessedState,
    ProcessedView, ReadingView, StateAtom,
};
use crate::raw::{RawState, RawView, Transition, TransitionView, VerifiedOperation};
use crate::sorted::{NamedCells, SortedMap};
use crate::types::{AuthToken, CellAddr, OperationView, Opid, StateCell};
use strict_types::StrictVal;
use ultrasonic::StateData;
use vstd::prelude::*;

verus! {

/// Part of a contract API which the ledger relies on.
#[derive(Debug)]
pub struct Api {
    /// Names of the global states which are published.
    pub published: Vec<String>,
    pub aggregators: Vec<Aggregator>,
}

/// The APIs of a contract: the default one and the custom ones under their names.
#[derive(Debug)]
pub struct Semantics {
    pub default: Api,
    pub custom: Vec<(String, Api)>,
}

impl Semantics {
    /// No name of a custom API repeats.
    pub open spec fn well_formed(self) -> bool {
        forall|i: int, j: int|
            0 <= i < j < self.custom@.len() ==> (#[trigger] self.custom@[i]).0@ != (
            #[trigger] self.custom@[j]).0@
    }
}

/// What the APIs make of memory cells: the default one and the custom ones under their names.
#[derive(Debug)]
pub struct Readings {
    pub main: ApiReading,
    pub custom: Vec<(String, ApiReading)>,
}

/// Mathematical model of [`Readings`].
#[verifier::ext_equal]
pub struct ReadingsView {
    pub main: ReadingView,
    pub custom: Seq<(Seq<char>, ReadingView)>,
}

/// Models of the readings of the custom APIs.
pub open spec fn custom_views(custom: Seq<(String, ApiReading)>) -> Seq<(Seq<char>, ReadingView)> {
    custom.map_values(|entry: (String, ApiReading)| (entry.0@, entry.1@))
}

impl View for Readings {
    type V = ReadingsView;

    open spec fn view(&self) -> ReadingsView {
        ReadingsView { main: self.main@, custom: custom_views(self.custom@) }
    }
}

impl ReadingsView {
    /// There is a conversion of each output of the operation for each API.
    pub open spec fn reads_outputs(self, op: OperationView) -> bool {
        &&& reads_outputs(self.main, op)
        &&& forall|k: int| 0 <= k < self.custom.len() ==> reads_outputs((#[trigger] self.custom[k]).1, op)
    }

    /// There is a conversion of each cell of the raw state for each API.
    pub open spec fn reads_state(self, raw: RawView) -> bool {
        &&& reads_cells(self.main, raw)
        &&& forall|k: int| 0 <= k < self.custom.len() ==> reads_cells((#[trigger] self.custom[k]).1, raw)
    }
}

/// There is a conversion for each cell of the raw state.
pub open spec fn reads_cells(reading: ReadingView, raw: RawView) -> bool {
    reading.global.len() == raw.global.len() && reading.owned.len() == raw.owned.len()
}

/// What the APIs make of the cells which a transition has destroyed.
#[derive(Debug)]
pub struct Restorations {
    pub main: Vec<Conversion<StrictVal>>,
    pub custom: Vec<(String, Vec<Conversion<StrictVal>>)>,
}

/// Mathematical model of [`Restorations`].
#[verifier::ext_equal]
pub struct RestorationsView {
    pub main: Seq<ConversionView<StrictVal>>,
    pub custom: Seq<(Seq<char>, Seq<ConversionView<StrictVal>>)>,
}

/// Models of what the custom APIs make of destroyed cells.
pub open spec fn restored_views(custom: Seq<(String, Vec<Conversion<StrictVal>>)>) -> Seq<
    (Seq<char>, Seq<ConversionView<StrictVal>>),
> {
    custom.map_values(
        |entry: (String, Vec<Conversion<StrictVal>>)| (entry.0@, conversions(entry.1@)),
    )
}

impl View for Restorations {
    type V = RestorationsView;

    open spec fn view(&self) -> RestorationsView {
        RestorationsView { main: conversions(self.main@), custom: restored_views(self.custom@) }
    }
}

impl RestorationsView {
    /// There is a conversion of each destroyed cell for each API.
    pub open spec fn reads(self, count: nat) -> bool {
        &&& self.main.len() == count
        &&& forall|k: int| 0 <= k < self.custom.len() ==> (#[trigger] self.custom[k]).1.len() == count
    }
}

/// Model of readings which may be absent.
pub open spec fn given_readings(readings: Option<Readings>) -> Option<ReadingsView> {
    match readings {
        Some(readings) => Some(readings@),
        None => None,
    }
}

/// Model of restorations which may be absent.
pub open spec fn given_restorations(readings: Option<Restorations>) -> Option<RestorationsView> {
    match readings {
        Some(readings) => Some(readings@),
        None => None,
    }
}

/// Effective contract state.
#[derive(Debug)]
pub struct EffectiveState {
    pub raw: RawState,
    pub main: ProcessedState,
    pub aux: SortedMap<String, ProcessedState>,
}

/// Mathematical model of [`EffectiveState`].
#[verifier::ext_equal]
pub struct EffectiveView {
    pub raw: RawView,
    pub main: ProcessedView,
    pub aux: Map<Seq<char>, ProcessedView>,
}

/// Models of the states of the custom APIs.
pub open spec fn aux_view(aux: SortedMap<String, ProcessedState>) -> Map<Seq<char>, ProcessedView> {
    aux.content().map_values(|state: ProcessedState| state@)
}

impl View for EffectiveState {
    type V = EffectiveView;

    open spec fn view(&self) -> EffectiveView {
        EffectiveView { raw: self.raw@, main: self.main@, aux: aux_view(self.aux) }
    }
}

/// The state of a custom API; nothing is known where it is not there.
pub open spec fn aux_state(aux: Map<Seq<char>, ProcessedView>, name: Seq<char>) -> ProcessedView {
    if aux.contains_key(name) {
        aux[name]
    } else {
        ProcessedView::empty()
    }
}

/// The states of the custom APIs after an operation.
pub open spec fn aux_applied(
    aux: Map<Seq<char>, ProcessedView>,
    custom: Seq<(Seq<char>, ReadingView)>,
    opid: Opid,
    op: OperationView,
) -> Map<Seq<char>, ProcessedView>
    decreases custom.len(),
{
    if custom.len() == 0 {
        aux
    } else {
        let earlier = aux_applied(aux, custom.drop_last(), opid, op);
        let (name, reading) = custom.last();
        earlier.insert(name, aux_state(earlier, name).applied(opid, op, reading))
    }
}

/// The states of the custom APIs after a transition was taken back.
pub open spec fn aux_rolled_back(
    aux: Map<Seq<char>, ProcessedView>,
    custom: Seq<(Seq<char>, Seq<ConversionView<StrictVal>>)>,
    opid: Opid,
    destroyed: Seq<(CellAddr, StateCell)>,
) -> Map<Seq<char>, ProcessedView>
    decreases custom.len(),
{
    if custom.len() == 0 {
        aux
    } else {
        let earlier = aux_rolled_back(aux, custom.drop_last(), opid, destroyed);
        let (name, readings) = custom.last();
        earlier.insert(name, aux_state(earlier, name).rolled_back(opid, destroyed, readings))
    }
}

impl EffectiveView {
    /// The state after an operation. Where the conversions are not given, the processed states
    /// stay behind.
    pub open spec fn applied(
        self,
        opid: Opid,
        op: OperationView,
        readings: Option<ReadingsView>,
    ) -> EffectiveView {
        match readings {
            None => EffectiveView { raw: self.raw.applied(opid, op), ..self },
            Some(readings) => EffectiveView {
                raw: self.raw.applied(opid, op),
                main: self.main.applied(opid, op, readings.main),
                aux: aux_applied(self.aux, readings.custom, opid, op),
            },
        }
    }

    /// The state after a transition was taken back.
    pub open spec fn rolled_back(
        self,
        transition: TransitionView,
        destroyed: Seq<(CellAddr, StateCell)>,
        readings: Option<RestorationsView>,
    ) -> EffectiveView {
        match readings {
            None => EffectiveView { raw: self.raw.rolled_back(transition), ..self },
            Some(readings) => EffectiveView {
                raw: self.raw.rolled_back(transition),
                main: self.main.rolled_back(transition.opid, destroyed, readings.main),
                aux: aux_rolled_back(self.aux, readings.custom, transition.opid, destroyed),
            },
        }
    }
}

/// The values of the environment variable which defer the processing of the state.
pub open spec fn defers(value: Seq<char>) -> bool {
    value == "1"@ || value == "true"@ || value == "TRUE"@ || value == "yes"@ || value == "YES"@
        || value == "on"@ || value == "ON"@
}

/// Tests whether the value of the environment variable defers the processing of the state.
pub fn defer_processed_state_apply(value: Option<String>) -> (r: bool)
    ensures
        r == (value matches Some(value) && defers(value@)),
{
    match value {
        Some(value) => {
            value == "1".to_owned() || value == "true".to_owned() || value == "TRUE".to_owned() || value
                == "yes".to_owned() || value == "YES".to_owned() || value == "on".to_owned() || value
                == "ON".to_owned()
        },
        None => false,
    }
}

impl EffectiveState {
    /// The parts of the state are in order.
    pub open spec fn well_formed(self) -> bool {
        &&& self.raw@.well_formed()
        &&& self.main.well_formed()
        &&& aux_well_formed(self.aux)
    }

    /// A state without cells.
    pub fn new() -> (r: EffectiveState)
        ensures
            r.well_formed(),
            r@ == (EffectiveView {
                raw: RawView::empty(),
                main: ProcessedView::empty(),
                aux: Map::empty(),
            }),
    {
        let r = EffectiveState {
            raw: RawState::new(),
            main: ProcessedState::new(),
            aux: SortedMap::new(),
        };
        assert(r@.aux =~= Map::<Seq<char>, ProcessedView>::empty());
        r
    }

    /// The address of the cell which a token of authority controls.
    pub fn addr(&self, auth: AuthToken) -> (r: CellAddr)
        requires
            self@.raw.auth.contains_key(auth),
        ensures
            r == self@.raw.auth[auth],
    {
        self.raw.addr(auth)
    }

    /// The computed state under a name.
    pub fn read(&self, name: &String) -> (r: &StrictVal)
        requires
            self.well_formed(),
            self@.main.aggregated.contains_key(name@),
        ensures
            *r == self@.main.aggregated[name@],
    {
        self.main.aggregated.get(name).unwrap()
    }

    /// Applies an operation. Without conversions the processed states are left for a later
    /// [`Self::recompute`].
    pub fn apply(&mut self, op: &VerifiedOperation, readings: Option<Readings>) -> (r: Transition)
        requires
            old(self).well_formed(),
            op.well_formed(),
            op.operation@.distinct_inputs(),
            old(self)@.raw.has_inputs(op.operation@),
            old(self)@.raw.has_room(op.opid, op.operation@),
            readings matches Some(readings) ==> readings@.reads_outputs(op.operation@),
        ensures
            final(self).well_formed(),
            final(self)@ == old(self)@.applied(
                op.opid,
                op.operation@,
                given_readings(readings),
            ),
            r@ == old(self)@.raw.transition(op.opid, op.operation@),
            r@.well_formed(),
    {
        if let Some(readings) = readings {
            proof {
                assert forall|k: int| 0 <= k < readings.custom@.len() implies reads_outputs(
                    (#[trigger] readings.custom@[k]).1@,
                    op.operation@,
                ) by {
                    assert(readings@.custom[k].1 == readings.custom@[k].1@);
                }
            }
            self.main.apply(op.opid, &op.operation, readings.main);
            apply_custom(&mut self.aux, op, readings.custom);
        }
        self.raw.apply(op)
    }

    /// Takes a transition back. Without conversions the processed states are left for a later
    /// [`Self::recompute`]: they were never applied, and rolling them back would corrupt them.
    pub fn rollback(&mut self, transition: Transition, readings: Option<Restorations>)
        requires
            old(self).well_formed(),
            transition@.well_formed(),
            old(self)@.raw.has_room_back(transition@),
            readings matches Some(readings) ==> {
                &&& readings@.reads(transition@.destroyed.len())
                &&& forall|k: int|
                    0 <= k < readings@.custom.len() ==> old(self)@.aux.contains_key(
                        (#[trigger] readings@.custom[k]).0,
                    )
            },
        ensures
            final(self).well_formed(),
            exists|destroyed: Seq<(CellAddr, StateCell)>|
                lists(destroyed, transition@.destroyed) && final(self)@
                    == #[trigger] old(self)@.rolled_back(
                    transition@,
                    destroyed,
                    given_restorations(readings),
                ),
    {
        let ghost before = self@;
        let ghost model = transition@;
        let ghost given = given_restorations(readings);
        let destroyed = transition.destroyed_cells();
        proof {
            crate::raw::lemma_listed(destroyed@, transition@.destroyed);
        }
        if let Some(readings) = readings {
            proof {
                assert forall|k: int| 0 <= k < readings.custom@.len() implies (
                #[trigger] readings.custom@[k]).1@.len() == destroyed@.len() && aux_view(
                    self.aux,
                ).contains_key(readings.custom@[k].0@) by {
                    assert(readings@.custom[k].1.len() == readings.custom@[k].1@.len());
                    assert(readings@.custom[k].0 == readings.custom@[k].0@);
                }
            }
            self.main.rollback(transition.opid, &destroyed, readings.main);
            rollback_custom(&mut self.aux, transition.opid, &destroyed, readings.custom);
        }
        self.raw.rollback(transition);
        assert(self@ =~= before.rolled_back(model, destroyed@, given));
    }
}

/// The states of the custom APIs are in order.
pub open spec fn aux_well_formed(aux: SortedMap<String, ProcessedState>) -> bool {
    &&& aux.well_formed()
    &&& forall|i: int| 0 <= i < aux.items().len() ==> (#[trigger] aux.items()[i]).1.well_formed()
}

/// The position of the state of a custom API, which is added where it is not there.
fn aux_entry(aux: &mut SortedMap<String, ProcessedState>, name: &String) -> (r: usize)
    requires
        aux_well_formed(*old(aux)),
    ensures
        aux_well_formed(*final(aux)),
        r < final(aux).items().len(),
        final(aux).items()[r as int].0@ == name@,
        final(aux).items()[r as int].1@ == aux_state(aux_view(*old(aux)), name@),
        aux_view(*final(aux)) == aux_view(*old(aux)).insert(
            name@,
            aux_state(aux_view(*old(aux)), name@),
        ),
        final(aux).content().remove(name@) == old(aux).content().remove(name@),
{
    let ghost before = *aux;
    match aux.position(name) {
        Some(i) => {
            proof {
                before.lemma_entry(i as int);
                assert(aux_view(before).insert(name@, aux_state(aux_view(before), name@))
                    =~= aux_view(before));
            }
            i
        },
        None => {
            let state = ProcessedState::new();
            aux.insert(name.clone(), state);
            proof {
                lemma_aux_inserted(before, *aux, name@, state);
                assert(aux_view(*aux) =~= aux_view(before).insert(name@, state@));
                assert(aux.content().contains_key(name@));
            }
            let i = aux.position(name).unwrap();
            i
        },
    }
}

/// The states stay in order when one more state in order comes in.
proof fn lemma_aux_inserted(
    before: SortedMap<String, ProcessedState>,
    after: SortedMap<String, ProcessedState>,
    name: Seq<char>,
    state: ProcessedState,
)
    requires
        aux_well_formed(before),
        after.well_formed(),
        state.well_formed(),
        after.content() == before.content().insert(name, state),
    ensures
        aux_well_formed(after),
{
    assert forall|i: int| 0 <= i < after.items().len() implies (
    #[trigger] after.items()[i]).1.well_formed() by {
        after.lemma_entry(i);
        let key = after.items()[i].0@;
        if key != name {
            assert(before.content().contains_key(key));
            let k = choose|k: int| #[trigger] before.has_at(key, k);
            before.lemma_entry(k);
            assert(before.items()[k].1.well_formed());
        }
    }
}

/// Applies an operation to the states of the custom APIs.
fn apply_custom(
    aux: &mut SortedMap<String, ProcessedState>,
    op: &VerifiedOperation,
    custom: Vec<(String, ApiReading)>,
)
    requires
        aux_well_formed(*old(aux)),
        op.operation@.well_formed(),
        forall|k: int|
            0 <= k < custom@.len() ==> reads_outputs((#[trigger] custom@[k]).1@, op.operation@),
    ensures
        aux_well_formed(*final(aux)),
        aux_view(*final(aux)) == aux_applied(
            aux_view(*old(aux)),
            custom_views(custom@),
            op.opid,
            op.operation@,
        ),
{
    let ghost before = aux_view(*aux);
    let ghost all = custom_views(custom@);
    let ghost mut k: int = 0;
    assert(all.take(0) =~= Seq::empty());
    for entry in it: custom
        invariant
            it.seq() == custom@,
            k == it.index(),
            all == custom_views(custom@),
            op.operation@.well_formed(),
            forall|k: int|
                0 <= k < custom@.len() ==> reads_outputs((#[trigger] custom@[k]).1@, op.operation@),
            aux_well_formed(*aux),
            aux_view(*aux) == aux_applied(before, all.take(k), op.opid, op.operation@),
    {
        let ghost earlier = aux_view(*aux);
        let (name, reading) = entry;
        proof {
            assert(custom@[k] == entry);
            assert(all.take(k + 1).drop_last() =~= all.take(k));
            assert(all.take(k + 1).last() == (name@, reading@));
        }
        let i = aux_entry(aux, &name);
        let ghost prior = *aux;
        let slot = aux.value_mut(i);
        slot.apply(op.opid, &op.operation, reading);
        proof {
            let changed = aux.items()[i as int].1;
            SortedMap::lemma_value_changed(prior, *aux, i as int, changed);
            lemma_aux_inserted(prior, *aux, name@, changed);
            assert(aux_view(*aux) =~= aux_view(prior).insert(name@, changed@));
            assert(aux_view(*aux) =~= earlier.insert(name@, changed@));
            k = k + 1;
        }
    }
    assert(all.take(all.len() as int) =~= all);
}

/// Takes a transition back in the states of the custom APIs.
fn rollback_custom(
    aux: &mut SortedMap<String, ProcessedState>,
    opid: Opid,
    destroyed: &Vec<(CellAddr, StateCell)>,
    custom: Vec<(String, Vec<Conversion<StrictVal>>)>,
)
    requires
        aux_well_formed(*old(aux)),
        forall|k: int|
            0 <= k < custom@.len() ==> (#[trigger] custom@[k]).1@.len() == destroyed@.len(),
        forall|k: int|
            0 <= k < custom@.len() ==> aux_view(*old(aux)).contains_key((#[trigger] custom@[k]).0@),
    ensures
        aux_well_formed(*final(aux)),
        aux_view(*final(aux)) == aux_rolled_back(
            aux_view(*old(aux)),
            restored_views(custom@),
            opid,
            destroyed@,
        ),
{
    let ghost before = aux_view(*aux);
    let ghost all = restored_views(custom@);
    let ghost mut k: int = 0;
    assert(all.take(0) =~= Seq::empty());
    for entry in it: custom
        invariant
            it.seq() == custom@,
            k == it.index(),
            all == restored_views(custom@),
            forall|k: int|
                0 <= k < custom@.len() ==> (#[trigger] custom@[k]).1@.len() == destroyed@.len(),
            forall|k: int|
                0 <= k < custom@.len() ==> aux_view(*aux).contains_key((#[trigger] custom@[k]).0@),
            aux_well_formed(*aux),
            aux_view(*aux) == aux_rolled_back(before, all.take(k), opid, destroyed@),
    {
        let ghost earlier = aux_view(*aux);
        let (name, readings) = entry;
        proof {
            assert(custom@[k] == entry);
            assert(all.take(k + 1).drop_last() =~= all.take(k));
            assert(all.take(k + 1).last() == (name@, conversions(readings@)));
        }
        let i = aux.position(&name).unwrap();
        let ghost prior = *aux;
        proof {
            prior.lemma_entry(i as int);
            assert(prior.items()[i as int].1.well_formed());
        }
        let slot = aux.value_mut(i);
        slot.rollback(opid, destroyed, readings);
        proof {
            let changed = aux.items()[i as int].1;
            SortedMap::lemma_value_changed(prior, *aux, i as int, changed);
            lemma_aux_inserted(prior, *aux, name@, changed);
            assert(aux_view(*aux) =~= earlier.insert(name@, changed@));
            k = k + 1;
        }
    }
    assert(all.take(all.len() as int) =~= all);
}

/// The state differs at most in its computed part.
pub open spec fn only_computed_differs(before: ProcessedView, after: ProcessedView) -> bool {
    after == ProcessedView { aggregated: after.aggregated, ..before }
}

/// The state holds the cells of the raw one, the way they were read, and nothing computed.
pub open spec fn rebuilt(raw: RawView, reading: ReadingView, state: ProcessedView) -> bool {
    exists|globals: Seq<(CellAddr, StateData)>, owned: Seq<(CellAddr, StateCell)>|
        lists(globals, raw.global) && lists(owned, raw.owned) && state
            == #[trigger] ProcessedView::empty().with_globals(globals, reading.global).with_owneds(
            owned,
            reading.owned,
        )
}

/// The states of the custom APIs are those read of the raw state.
pub open spec fn aux_rebuilt(
    raw: RawView,
    custom: Seq<(Seq<char>, ReadingView)>,
    aux: Map<Seq<char>, ProcessedView>,
) -> bool {
    &&& forall|name: Seq<char>| #[trigger]
        aux.contains_key(name) <==> exists|k: int|
            0 <= k < custom.len() && (#[trigger] custom[k]).0 == name
    &&& forall|k: int|
        0 <= k < custom.len() ==> rebuilt(raw, (#[trigger] custom[k]).1, aux[custom[k].0])
}

/// The readings are those of the APIs of the contract, in their order.
pub open spec fn reads_apis(readings: ReadingsView, semantics: Semantics) -> bool {
    &&& readings.custom.len() == semantics.custom@.len()
    &&& forall|k: int|
        0 <= k < semantics.custom@.len() ==> (#[trigger] readings.custom[k]).0
            == semantics.custom@[k].0@
}

/// The name is that of one of the first custom APIs.
pub open spec fn is_custom(semantics: Semantics, n: int, name: Seq<char>) -> bool {
    exists|k: int| 0 <= k < n && (#[trigger] semantics.custom@[k]).0@ == name
}

/// The computed parts of the states of the first custom APIs are up to date, and nothing else
/// differs.
pub open spec fn aux_computed<
    F: Fn(usize, usize, &NamedCells<StateAtom>, &SortedMap<String, StrictVal>) -> Option<StrictVal>,
>(
    semantics: Semantics,
    evaluate: F,
    n: int,
    before: Map<Seq<char>, ProcessedView>,
    after: SortedMap<String, ProcessedState>,
) -> bool {
    &&& forall|name: Seq<char>| #[trigger]
        aux_view(after).contains_key(name) <==> before.contains_key(name) || is_custom(
            semantics,
            n,
            name,
        )
    &&& forall|name: Seq<char>|
        before.contains_key(name) && !is_custom(semantics, n, name) ==> #[trigger] aux_view(after)[name]
            == before[name]
    &&& forall|k: int|
        0 <= k < n ==> api_computed(
            #[trigger] semantics.custom@[k].1,
            evaluate,
            (k + 1) as usize,
            aux_state(before, semantics.custom@[k].0@),
            after.content()[semantics.custom@[k].0@],
        )
}

/// The computed part of the state of an API is up to date, and nothing else differs.
pub open spec fn api_computed<
    F: Fn(usize, usize, &NamedCells<StateAtom>, &SortedMap<String, StrictVal>) -> Option<StrictVal>,
>(api: Api, evaluate: F, index: usize, before: ProcessedView, after: ProcessedState) -> bool {
    &&& only_computed_differs(before, after@)
    &&& aggregation(api.aggregators@, after.global, evaluate, index, after@.aggregated)
}

/// Every aggregator can be evaluated.
pub open spec fn evaluable<
    F: Fn(usize, usize, &NamedCells<StateAtom>, &SortedMap<String, StrictVal>) -> Option<StrictVal>,
>(evaluate: F) -> bool {
    forall|
        api: usize,
        i: usize,
        global: NamedCells<StateAtom>,
        computed: SortedMap<String, StrictVal>,
    | #[trigger]
        call_requires(evaluate, (api, i, &global, &computed))
}

impl EffectiveState {
    /// Makes the effective state of a raw one.
    pub fn with_raw_state<
        F: Fn(usize, usize, &NamedCells<StateAtom>, &SortedMap<String, StrictVal>) -> Option<StrictVal>,
    >(raw: RawState, semantics: &Semantics, readings: Readings, evaluate: &F) -> (r: EffectiveState)
        requires
            raw@.well_formed(),
            semantics.well_formed(),
            reads_apis(readings@, *semantics),
            readings@.reads_state(raw@),
            evaluable(*evaluate),
        ensures
            r.well_formed(),
            r.raw@ == raw@,
            exists|main: ProcessedView, aux: Map<Seq<char>, ProcessedView>|
                rebuilt(raw@, readings@.main, main) && #[trigger] aux_rebuilt(
                    raw@,
                    readings@.custom,
                    aux,
                ) && #[trigger] api_computed(semantics.default, *evaluate, 0, main, r.main)
                    && aux_computed(
                    *semantics,
                    *evaluate,
                    semantics.custom@.len() as int,
                    aux,
                    r.aux,
                ),
    {
        let mut me = EffectiveState { raw, main: ProcessedState::new(), aux: SortedMap::new() };
        me.rebuild(Ghost(*semantics), readings);
        me.recompute_aggregates(semantics, evaluate);
        me
    }

    /// Re-evaluates computable part of the state.
    ///
    /// Where the processing of the operations was deferred, the conversions of all the cells are
    /// given, and the processed states are rebuilt from the raw one first.
    pub fn recompute<
        F: Fn(usize, usize, &NamedCells<StateAtom>, &SortedMap<String, StrictVal>) -> Option<StrictVal>,
    >(&mut self, semantics: &Semantics, deferred: Option<Readings>, evaluate: &F)
        requires
            old(self).well_formed(),
            semantics.well_formed(),
            deferred matches Some(readings) ==> reads_apis(readings@, *semantics)
                && readings@.reads_state(old(self)@.raw),
            evaluable(*evaluate),
        ensures
            final(self).well_formed(),
            final(self)@.raw == old(self)@.raw,
            match given_readings(deferred) {
                None => {
                    &&& api_computed(
                        semantics.default,
                        *evaluate,
                        0,
                        old(self)@.main,
                        final(self).main,
                    )
                    &&& aux_computed(
                        *semantics,
                        *evaluate,
                        semantics.custom@.len() as int,
                        old(self)@.aux,
                        final(self).aux,
                    )
                },
                Some(readings) => exists|
                    main: ProcessedView,
                    aux: Map<Seq<char>, ProcessedView>,
                |
                    rebuilt(old(self)@.raw, readings.main, main) && #[trigger] aux_rebuilt(
                        old(self)@.raw,
                        readings.custom,
                        aux,
                    ) && #[trigger] api_computed(
                        semantics.default,
                        *evaluate,
                        0,
                        main,
                        final(self).main,
                    ) && aux_computed(
                        *semantics,
                        *evaluate,
                        semantics.custom@.len() as int,
                        aux,
                        final(self).aux,
                    ),
            },
    {
        let ghost raw = self@.raw;
        let ghost given = given_readings(deferred);
        if let Some(readings) = deferred {
            self.rebuild(Ghost(*semantics), readings);
        }
        let ghost base = self@;
        self.recompute_aggregates(semantics, evaluate);
        proof {
            if let Some(readings) = given {
                assert(aux_rebuilt(raw, readings.custom, base.aux));
                assert(api_computed(semantics.default, *evaluate, 0, base.main, self.main));
            }
        }
    }

    /// Processes all the cells of the raw state anew.
    fn rebuild(&mut self, Ghost(semantics): Ghost<Semantics>, readings: Readings)
        requires
            old(self).raw@.well_formed(),
            semantics.well_formed(),
            reads_apis(readings@, semantics),
            readings@.reads_state(old(self).raw@),
        ensures
            final(self).well_formed(),
            final(self).raw == old(self).raw,
            rebuilt(old(self).raw@, readings@.main, final(self)@.main),
            aux_rebuilt(old(self).raw@, readings@.custom, final(self)@.aux),
    {
        let ghost raw = self.raw@;
        self.main = ProcessedState::with(&self.raw, readings.main);
        self.aux = SortedMap::new();
        let ghost custom = readings.custom@;
        let ghost all = custom_views(custom);
        let ghost mut k: int = 0;
        proof {
            assert forall|i: int| 0 <= i < all.len() implies (#[trigger] all[i]).0
                == semantics.custom@[i].0@ by {
                assert(readings@.custom[i] == all[i]);
            }
            assert forall|i: int| 0 <= i < all.len() implies reads_cells((#[trigger] all[i]).1, raw) by {
                assert(readings@.custom[i] == all[i]);
            }
        }
        for entry in it: readings.custom
            invariant
                it.seq() == custom,
                k == it.index(),
                all == custom_views(custom),
                self.raw == old(self).raw,
                self.raw@ == raw,
                raw.well_formed(),
                semantics.well_formed(),
                all.len() == semantics.custom@.len(),
                forall|i: int|
                    0 <= i < all.len() ==> (#[trigger] all[i]).0 == semantics.custom@[i].0@,
                forall|i: int| 0 <= i < all.len() ==> reads_cells((#[trigger] all[i]).1, raw),
                self.main.well_formed(),
                rebuilt(raw, readings@.main, self.main@),
                aux_well_formed(self.aux),
                aux_rebuilt(raw, all.take(k), aux_view(self.aux)),
        {
            let ghost prior = self.aux;
            let (name, reading) = entry;
            proof {
                assert(custom[k] == entry);
                assert(all[k] == (name@, reading@));
            }
            let state = ProcessedState::with(&self.raw, reading);
            self.aux.insert(name, state);
            proof {
                lemma_aux_inserted(prior, self.aux, name@, state);
                let before = aux_view(prior);
                let after = aux_view(self.aux);
                assert(after =~= before.insert(name@, state@));
                let less = all.take(k);
                let more = all.take(k + 1);
                assert forall|n: Seq<char>| #[trigger] after.contains_key(n) <==> exists|m: int|
                    0 <= m < more.len() && (#[trigger] more[m]).0 == n by {
                    if after.contains_key(n) {
                        if n == name@ {
                            assert(more[k].0 == n);
                        } else {
                            assert(before.contains_key(n));
                            let m = choose|m: int| 0 <= m < less.len() && (#[trigger] less[m]).0 == n;
                            assert(more[m].0 == n);
                        }
                    }
                    if exists|m: int| 0 <= m < more.len() && (#[trigger] more[m]).0 == n {
                        let m = choose|m: int| 0 <= m < more.len() && (#[trigger] more[m]).0 == n;
                        if m < k {
                            assert(less[m].0 == n);
                            assert(before.contains_key(n));
                        }
                    }
                }
                assert forall|m: int| 0 <= m < more.len() implies rebuilt(
                    raw,
                    (#[trigger] more[m]).1,
                    after[more[m].0],
                ) by {
                    if m < k {
                        assert(less[m] == more[m]);
                        assert(semantics.custom@[m].0@ != semantics.custom@[k].0@);
                    }
                }
                k = k + 1;
            }
        }
        assert(all.take(all.len() as int) =~= all);
    }

    /// Re-evaluates only the aggregated (computed) part of the state, assuming `main`/`aux` global
    /// and owned maps are already current.
    fn recompute_aggregates<
        F: Fn(usize, usize, &NamedCells<StateAtom>, &SortedMap<String, StrictVal>) -> Option<StrictVal>,
    >(&mut self, semantics: &Semantics, evaluate: &F)
        requires
            old(self).well_formed(),
            semantics.well_formed(),
            evaluable(*evaluate),
        ensures
            final(self).well_formed(),
            final(self).raw == old(self).raw,
            api_computed(semantics.default, *evaluate, 0, old(self)@.main, final(self).main),
            aux_computed(
                *semantics,
                *evaluate,
                semantics.custom@.len() as int,
                old(self)@.aux,
                final(self).aux,
            ),
    {
        let ghost before = self@.aux;
        self.main.aggregate(&semantics.default.aggregators, evaluate, 0);
        let mut k: usize = 0;
        while k < semantics.custom.len()
            invariant
                k <= semantics.custom@.len(),
                semantics.well_formed(),
                evaluable(*evaluate),
                self.well_formed(),
                self.raw == old(self).raw,
                api_computed(semantics.default, *evaluate, 0, old(self)@.main, self.main),
                aux_computed(*semantics, *evaluate, k as int, before, self.aux),
            decreases semantics.custom@.len() - k,
        {
            let ghost prior = self.aux;
            let i = aux_entry(&mut self.aux, &semantics.custom[k].0);
            let ghost entered = self.aux;
            proof {
                entered.lemma_entry(i as int);
            }
            let slot = self.aux.value_mut(i);
            slot.aggregate(&semantics.custom[k].1.aggregators, evaluate, k + 1);
            proof {
                let changed = self.aux.items()[i as int].1;
                let name = semantics.custom@[k as int].0@;
                SortedMap::lemma_value_changed(entered, self.aux, i as int, changed);
                lemma_aux_inserted(entered, self.aux, name, changed);
                lemma_aux_computed_step(
                    *semantics,
                    *evaluate,
                    k as int,
                    before,
                    prior,
                    entered,
                    self.aux,
                    changed,
                );
            }
            k = k + 1;
        }
    }
}

/// One more custom API is up to date.
proof fn lemma_aux_computed_step<
    F: Fn(usize, usize, &NamedCells<StateAtom>, &SortedMap<String, StrictVal>) -> Option<StrictVal>,
>(
    semantics: Semantics,
    evaluate: F,
    k: int,
    before: Map<Seq<char>, ProcessedView>,
    prior: SortedMap<String, ProcessedState>,
    entered: SortedMap<String, ProcessedState>,
    after: SortedMap<String, ProcessedState>,
    changed: ProcessedState,
)
    requires
        semantics.well_formed(),
        0 <= k < semantics.custom@.len(),
        aux_computed(semantics, evaluate, k, before, prior),
        aux_view(entered) == aux_view(prior).insert(
            semantics.custom@[k].0@,
            aux_state(aux_view(prior), semantics.custom@[k].0@),
        ),
        entered.content().remove(semantics.custom@[k].0@) == prior.content().remove(
            semantics.custom@[k].0@,
        ),
        after.content() == entered.content().insert(semantics.custom@[k].0@, changed),
        api_computed(
            semantics.custom@[k].1,
            evaluate,
            (k + 1) as usize,
            aux_state(aux_view(prior), semantics.custom@[k].0@),
            changed,
        ),
    ensures
        aux_computed(semantics, evaluate, k + 1, before, after),
{
    let name = semantics.custom@[k].0@;
    assert(!is_custom(semantics, k, name)) by {
        if is_custom(semantics, k, name) {
            let m = choose|m: int| 0 <= m < k && (#[trigger] semantics.custom@[m]).0@ == name;
            assert(semantics.custom@[m].0@ != semantics.custom@[k].0@);
        }
    }
    assert(aux_state(aux_view(prior), name) == aux_state(before, name)) by {
        assert(aux_view(prior).contains_key(name) <==> before.contains_key(name));
    }
    assert(aux_view(after) =~= aux_view(entered).insert(name, changed@));
    assert forall|n: Seq<char>| is_custom(semantics, k + 1, n) == (is_custom(semantics, k, n) || n
        == name) by {
        if is_custom(semantics, k + 1, n) {
            let m = choose|m: int| 0 <= m < k + 1 && (#[trigger] semantics.custom@[m]).0@ == n;
            if m < k {
                assert(semantics.custom@[m].0@ == n);
            }
        }
        if is_custom(semantics, k, n) {
            let m = choose|m: int| 0 <= m < k && (#[trigger] semantics.custom@[m]).0@ == n;
            assert(semantics.custom@[m].0@ == n);
        }
        assert(semantics.custom@[k].0@ == name);
    }
    assert forall|n: Seq<char>|
        before.contains_key(n) && !is_custom(semantics, k + 1, n) implies #[trigger] aux_view(after)[n]
        == before[n] by {
        assert(aux_view(prior)[n] == before[n]);
        assert(aux_view(prior).contains_key(n));
    }
    assert forall|m: int| 0 <= m < k + 1 implies api_computed(
        #[trigger] semantics.custom@[m].1,
        evaluate,
        (m + 1) as usize,
        aux_state(before, semantics.custom@[m].0@),
        after.content()[semantics.custom@[m].0@],
    ) by {
        let other = semantics.custom@[m].0@;
        if m < k {
            assert(semantics.custom@[m].0@ != semantics.custom@[k].0@);
            assert(is_custom(semantics, k, other));
            assert(aux_view(prior).contains_key(other));
            assert(prior.content().remove(name).contains_key(other));
            assert(entered.content().remove(name)[other] == prior.content().remove(name)[other]);
            assert(after.content()[other] == prior.content()[other]);
        }
    }
}

} // verus!
