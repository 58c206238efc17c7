use sonic::aggregate::Aggregator;
use sonic::deed::{CallParams, DeedStep, NewGlobal, NewOwned, Satisfaction};
use sonic::dump::{source_kind, OpValidity, SourceKind};
use sonic::opid_set::OpidSet;
use sonic::processed::{Conversion, ProcessedState, StateAtom};
use sonic::raw::{RawState, Transition, VerifiedOperation};
use sonic::reader::ApiReader;
use sonic::sorted::{NamedCells, SortedMap};
use sonic::state::{defer_processed_state_apply, Api, EffectiveState, Semantics};
use sonic::types::{AuthToken, CellAddr, ContractId, Input, Operation, Opid, StateCell};
use strict_types::StrictVal;
use ultrasonic::{fe256, StateData, StateValue};

fn low(value: fe256) -> u64 {
    u64::from_le_bytes(value.to_u256().to_le_bytes()[..8].try_into().unwrap())
}

fn amount(value: u64) -> StateValue {
    StateValue::Single { first: fe256::from(value) }
}

fn atom(value: u64) -> StateAtom {
    StateAtom { verified: StrictVal::num(value), unverified: None }
}

/// The default API reads amounts; the custom one takes single values for strings, and refuses pairs.
fn read_owned(api: usize, value: StateValue) -> Conversion<StrictVal> {
    match (api, value) {
        (0, StateValue::Single { first }) => {
            Conversion::Atom("amount".to_owned(), StrictVal::num(low(first)))
        }
        (1, StateValue::Single { .. }) => {
            Conversion::Atom("text".to_owned(), StrictVal::str("any"))
        }
        (1, StateValue::Double { .. }) => Conversion::Invalid,
        _ => Conversion::Unrelated,
    }
}

fn read_global(api: usize, data: &StateData) -> Conversion<StateAtom> {
    match (api, data.value) {
        (0, StateValue::Single { first }) => Conversion::Atom("note".to_owned(), atom(low(first))),
        (0, StateValue::Double { .. }) => Conversion::Invalid,
        _ => Conversion::Unrelated,
    }
}

type Global = fn(usize, &StateData) -> Conversion<StateAtom>;
type Owned = fn(usize, StateValue) -> Conversion<StrictVal>;

fn reader(defer: bool) -> ApiReader<Global, Owned> {
    ApiReader { global: read_global, owned: read_owned, defer }
}

fn aggregator(name: &str, depends_on: &[&str]) -> Aggregator {
    Aggregator {
        name: name.to_owned(),
        depends_on: depends_on.iter().map(|name| (*name).to_owned()).collect(),
    }
}

fn semantics() -> Semantics {
    Semantics {
        default: Api {
            published: vec![],
            aggregators: vec![
                aggregator("twice", &["sum"]),
                aggregator("sum", &["note"]),
                aggregator("loop", &["knot"]),
                aggregator("knot", &["loop"]),
                aggregator("none", &["note"]),
                aggregator("after", &["none"]),
            ],
        },
        custom: vec![("Texts".to_owned(), Api { published: vec![], aggregators: vec![] })],
    }
}

fn number(value: &StrictVal) -> u64 {
    for n in 0..1000u64 {
        if *value == StrictVal::num(n) {
            return n;
        }
    }
    panic!("not a small number")
}

fn evaluate(
    api: usize,
    index: usize,
    global: &NamedCells<StateAtom>,
    computed: &SortedMap<String, StrictVal>,
) -> Option<StrictVal> {
    assert_eq!(api, 0);
    match index {
        0 => Some(StrictVal::num(2 * number(computed.get(&"sum".to_owned()).unwrap()))),
        1 => {
            let notes = global.get(&"note".to_owned()).unwrap();
            Some(StrictVal::num((0..notes.len()).map(|i| number(&notes.at(i).1.verified)).sum::<u64>()))
        }
        4 => None,
        _ => panic!("aggregators of a cycle never run"),
    }
}

fn cell(token: u128, data: StateValue) -> StateCell {
    StateCell { data, auth: AuthToken { hi: 0, lo: token }, lock: None }
}

fn operation(nonce: u64, inputs: &[CellAddr], outputs: Vec<StateCell>, notes: &[u64]) -> VerifiedOperation {
    let operation = Operation {
        contract_id: ContractId { hi: 0, lo: 1 },
        call_id: 0,
        nonce: fe256::from(nonce),
        witness: StateValue::None,
        destructible_in: inputs
            .iter()
            .map(|addr| Input { addr: *addr, witness: StateValue::None })
            .collect(),
        immutable_in: vec![],
        destructible_out: outputs,
        immutable_out: notes
            .iter()
            .map(|note| StateData { value: amount(*note), raw: None })
            .collect(),
    };
    VerifiedOperation { opid: operation.opid(), operation }
}

fn apply(state: &mut EffectiveState, op: &VerifiedOperation, defer: bool) -> Transition {
    state.apply(op, reader(defer).read_operation(&semantics(), &op.operation))
}

#[test]
fn operation_goes_to_every_api() {
    let mut state = EffectiveState::new();
    let pair = StateValue::Double { first: fe256::from(1u64), second: fe256::from(2u64) };
    let op = operation(1, &[], vec![cell(1, amount(5)), cell(2, pair)], &[3]);
    let transition = apply(&mut state, &op, false);
    assert_eq!(transition.opid, op.opid);
    assert!(transition.destroyed_cells().is_empty());
    assert_eq!(state.addr(AuthToken { hi: 0, lo: 2 }), CellAddr::new(op.opid, 1));

    let owned = state.main.owned(&"amount".to_owned()).unwrap();
    assert_eq!(owned.len(), 1);
    assert_eq!(*owned.at(0), (CellAddr::new(op.opid, 0), StrictVal::num(5u64)));
    assert!(state.main.invalid_owned.get(&CellAddr::new(op.opid, 1)).is_none());
    let aux = state.aux.get(&"Texts".to_owned()).unwrap();
    assert_eq!(aux.owned(&"text".to_owned()).unwrap().at(0).1, StrictVal::str("any"));
    assert_eq!(aux.invalid_owned.get(&CellAddr::new(op.opid, 1)), Some(&pair));
    assert!(aux.global(&"note".to_owned()).is_none());
    assert_eq!(*state.main.global(&"note".to_owned()).unwrap().at(0), (CellAddr::new(op.opid, 0), atom(3)));
}

#[test]
fn rollback_returns_destroyed_cells() {
    let mut state = EffectiveState::new();
    let first = operation(1, &[], vec![cell(1, amount(5))], &[]);
    apply(&mut state, &first, false);
    let addr = CellAddr::new(first.opid, 0);
    let second = operation(2, &[addr], vec![cell(2, amount(4))], &[8]);
    let transition = apply(&mut state, &second, false);
    assert_eq!(transition.destroyed_cells(), vec![(addr, cell(1, amount(5)))]);
    let owned = state.main.owned(&"amount".to_owned()).unwrap();
    assert_eq!(owned.len(), 1);
    assert_eq!(owned.at(0).1, StrictVal::num(4u64));

    let cells = transition.destroyed_cells();
    let readings = reader(false).read_destroyed(&semantics(), &cells);
    state.rollback(transition, readings);
    let owned = state.main.owned(&"amount".to_owned()).unwrap();
    assert_eq!(*owned.at(0), (addr, StrictVal::num(5u64)));
    assert_eq!(owned.len(), 1);
    assert_eq!(state.main.global(&"note".to_owned()).unwrap().len(), 0);
    assert_eq!(state.raw.owned_cells().len(), 1);
    assert_eq!(state.raw.global_cells().len(), 0);
}

#[test]
fn invalid_global_cells_are_kept_apart() {
    let mut state = ProcessedState::new();
    let addr = CellAddr::new(Opid { hi: 1, lo: 1 }, 0);
    let data = StateData { value: amount(1), raw: None };
    state.process_global(addr, &data, Conversion::Invalid);
    assert_eq!(state.invalid_global.get(&addr), Some(&data));
    state.process_global(addr, &data, Conversion::Unrelated);
    assert!(state.global.names().is_empty());
    state.process_owned(addr, &cell(1, amount(2)), Conversion::Atom("x".to_owned(), StrictVal::num(2u64)));
    assert_eq!(state.owned(&"x".to_owned()).unwrap().get(&addr), Some(&StrictVal::num(2u64)));
}

#[test]
fn aggregates_depend_on_the_global_state_alone() {
    let semantics = semantics();
    let mut state = EffectiveState::new();
    apply(&mut state, &operation(1, &[], vec![], &[3, 4]), false);
    state.main.aggregate(&semantics.default.aggregators, &evaluate, 0);
    let sum = number(state.main.aggregated.get(&"sum".to_owned()).unwrap());
    assert_eq!(sum, 7);
    assert_eq!(number(state.main.aggregated.get(&"twice".to_owned()).unwrap()), 14);
    assert!(state.main.aggregated.get(&"after".to_owned()).is_none());

    state.main.aggregate(&semantics.default.aggregators, &evaluate, 0);
    assert_eq!(number(state.main.aggregated.get(&"sum".to_owned()).unwrap()), 7);
    let owned = operation(2, &[], vec![cell(1, amount(5))], &[]);
    apply(&mut state, &owned, false);
    state.main.aggregate(&semantics.default.aggregators, &evaluate, 0);
    assert_eq!(number(state.main.aggregated.get(&"twice".to_owned()).unwrap()), 14);
}

#[test]
fn aggregates_follow_dependencies() {
    let mut state = EffectiveState::new();
    apply(&mut state, &operation(1, &[], vec![], &[3]), false);
    apply(&mut state, &operation(2, &[], vec![], &[4]), false);
    state.recompute(&semantics(), None, &evaluate);
    assert_eq!(*state.read(&"sum".to_owned()), StrictVal::num(7u64));
    assert_eq!(*state.read(&"twice".to_owned()), StrictVal::num(14u64));
    // Neither the members of a cycle nor what has no value are there
    assert_eq!(state.main.aggregated.len(), 2);
}

#[test]
fn aggregates_need_their_states() {
    let mut state = EffectiveState::new();
    apply(&mut state, &operation(1, &[], vec![cell(1, amount(1))], &[]), false);
    state.recompute(&semantics(), None, &evaluate);
    assert_eq!(state.main.aggregated.len(), 0);
    assert_eq!(state.main.owned(&"amount".to_owned()).unwrap().len(), 1);
}

#[test]
fn deferred_state_is_rebuilt() {
    let mut at_once = EffectiveState::new();
    let mut deferred = EffectiveState::new();
    let first = operation(1, &[], vec![cell(1, amount(5)), cell(2, amount(6))], &[3]);
    let second = operation(2, &[CellAddr::new(first.opid, 0)], vec![cell(3, amount(7))], &[]);
    for op in [&first, &second] {
        apply(&mut at_once, op, false);
        apply(&mut deferred, op, true);
    }
    assert!(deferred.main.owned.names().is_empty());
    assert_eq!(deferred.raw.owned_cells().len(), 2);
    at_once.recompute(&semantics(), None, &evaluate);

    let readings = reader(false).read_state(&semantics(), &deferred.raw);
    deferred.recompute(&semantics(), Some(readings), &evaluate);
    assert_eq!(deferred.main, at_once.main);
    assert_eq!(deferred.aux, at_once.aux);

    let raw = std::mem::replace(&mut deferred.raw, RawState::new());
    let readings = reader(false).read_state(&semantics(), &raw);
    let again = EffectiveState::with_raw_state(raw, &semantics(), readings, &evaluate);
    assert_eq!(again.main, at_once.main);
}

#[test]
fn raw_state_is_made_of_its_entries() {
    let mut state = EffectiveState::new();
    let op = operation(1, &[], vec![cell(9, amount(5)), cell(2, amount(6))], &[3, 4]);
    apply(&mut state, &op, false);
    let tokens = state.raw.tokens();
    assert_eq!(
        tokens,
        vec![
            (AuthToken { hi: 0, lo: 2 }, CellAddr::new(op.opid, 1)),
            (AuthToken { hi: 0, lo: 9 }, CellAddr::new(op.opid, 0)),
        ]
    );
    let global = state.raw.global_cells();
    assert_eq!(global[1].0, CellAddr::new(op.opid, 1));
    let owned = state.raw.owned_cells();
    let copy = RawState::with(&tokens, &global, &owned);
    assert_eq!(copy.tokens(), tokens);
    assert_eq!(copy.global_cells(), global);
    assert_eq!(copy.owned_cells(), owned);
    assert_eq!(copy.addr(AuthToken { hi: 0, lo: 9 }), CellAddr::new(op.opid, 0));
}

#[test]
fn deferral_is_switched_by_words() {
    for word in ["1", "true", "TRUE", "yes", "YES", "on", "ON"] {
        assert!(defer_processed_state_apply(Some(word.to_owned())));
    }
    for word in ["0", "false", "True", "Yes", "On", ""] {
        assert!(!defer_processed_state_apply(Some(word.to_owned())));
    }
    assert!(!defer_processed_state_apply(None));
}

#[test]
fn sorted_map_keeps_order() {
    let mut map = SortedMap::<String, u8>::new();
    for (name, value) in [("b", 1), ("a", 2), ("ab", 3), ("b", 4)] {
        map.insert(name.to_owned(), value);
    }
    let entries = (0..map.len()).map(|i| map.at(i).clone()).collect::<Vec<_>>();
    assert_eq!(
        entries,
        vec![("a".to_owned(), 2), ("ab".to_owned(), 3), ("b".to_owned(), 4)]
    );
    map.remove(&"ab".to_owned());
    map.remove(&"zz".to_owned());
    assert_eq!(map.len(), 2);
    assert_eq!(map.get(&"b".to_owned()), Some(&4));
    assert_eq!(map.position(&"ab".to_owned()), None);
}

#[test]
fn named_cells_are_removed_by_operation() {
    let one = Opid { hi: 0, lo: 1 };
    let two = Opid { hi: 0, lo: 2 };
    let mut cells = NamedCells::<u8>::new();
    cells.insert("x".to_owned(), CellAddr::new(two, 0), 20);
    cells.insert("x".to_owned(), CellAddr::new(one, 1), 11);
    cells.insert("y".to_owned(), CellAddr::new(one, 0), 10);
    cells.remove_outputs(one);
    assert_eq!(cells.get(&"x".to_owned()).unwrap().len(), 1);
    assert_eq!(cells.get(&"y".to_owned()).unwrap().len(), 0);
    cells.remove(CellAddr::new(two, 0));
    assert_eq!(cells.get(&"x".to_owned()).unwrap().len(), 0);
    assert_eq!(cells.names(), vec!["x".to_owned(), "y".to_owned()]);
}

#[test]
fn opid_set_is_sorted() {
    let mut set = OpidSet::new();
    for (hi, lo) in [(1, 0), (0, 9), (1, 0), (0, 2)] {
        set.insert(Opid { hi, lo });
    }
    let list = (0..set.len()).map(|i| set.get(i)).collect::<Vec<_>>();
    assert_eq!(list, vec![Opid { hi: 0, lo: 2 }, Opid { hi: 0, lo: 9 }, Opid { hi: 1, lo: 0 }]);
    set.remove(Opid { hi: 0, lo: 9 });
    assert_eq!(set.len(), 2);
}

#[test]
fn call_becomes_steps() {
    let addr = |pos: u16| CellAddr::new(Opid { hi: 7, lo: 7 }, pos);
    let params = CallParams {
        method: "transfer".to_owned(),
        global: vec![NewGlobal {
            name: "note".to_owned(),
            verified: StrictVal::num(1u64),
            unverified: None,
        }],
        owned: vec![NewOwned {
            name: "amount".to_owned(),
            auth: AuthToken { hi: 0, lo: 3 },
            data: StrictVal::num(2u64),
            lock: None,
        }],
        reading: vec![addr(0)],
        using: vec![
            (addr(1), None),
            (addr(2), Some(Satisfaction { name: "key".to_owned(), witness: StrictVal::num(3u64) })),
        ],
    };
    let (method, steps) = params.into_steps();
    assert_eq!(method, "transfer");
    assert_eq!(steps.len(), 5);
    assert!(matches!(&steps[0], DeedStep::Append(state) if state.name == "note"));
    assert!(matches!(&steps[1], DeedStep::Assign(state) if state.auth.lo == 3));
    assert!(matches!(steps[2], DeedStep::Reading(read) if read == addr(0)));
    assert!(matches!(steps[3], DeedStep::Using(used) if used == addr(1)));
    assert!(
        matches!(&steps[4], DeedStep::Satisfying(used, with) if *used == addr(2) && with.name == "key")
    );
}

#[test]
fn validity_is_one_byte() {
    assert_eq!(OpValidity::Valid.to_byte(), 1);
    assert_eq!(OpValidity::Invalid.to_byte(), 0);
    assert_eq!(OpValidity::from_byte(1), OpValidity::Valid);
    assert_eq!(OpValidity::from_byte(0), OpValidity::Invalid);
    assert_eq!(OpValidity::from_byte(7), OpValidity::Invalid);
    assert!(OpValidity::Valid.is_valid());
    assert!(!OpValidity::Invalid.is_valid());
}

#[test]
fn extension_tells_the_source() {
    assert_eq!(source_kind(Some("contract")), SourceKind::Contract);
    assert_eq!(source_kind(Some("deeds")), SourceKind::UnknownExtension);
    assert_eq!(source_kind(None), SourceKind::Unrecognized);
}

#[test]
fn unread_cells_are_the_same_when_rebuilt() {
    let mut state = EffectiveState::new();
    let mut first = operation(1, &[], vec![cell(1, amount(5))], &[3]);
    let pair = StateValue::Double { first: fe256::from(1u64), second: fe256::from(2u64) };
    first.operation.immutable_out.push(StateData { value: pair, raw: None });
    first.opid = first.operation.opid();
    let second = operation(2, &[CellAddr::new(first.opid, 0)], vec![cell(2, amount(6))], &[4]);
    for op in [&first, &second] {
        apply(&mut state, op, false);
    }
    let unread = CellAddr::new(first.opid, 1);
    assert_eq!(state.main.invalid_global.len(), 1);
    assert!(state.main.invalid_global.get(&unread).is_some());

    let raw = std::mem::replace(&mut state.raw, RawState::new());
    let readings = reader(false).read_state(&semantics(), &raw);
    let rebuilt = ProcessedState::with(&raw, readings.main);
    assert_eq!(rebuilt, state.main);
}
