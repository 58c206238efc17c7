use std::collections::{BTreeMap, BTreeSet};

use aluvm::isa::CtrlInstr;
use aluvm::{CoreConfig, Lib, LibId, LibSite, Site};
use amplify::confinement::{TinyOrdMap, TinyString};
use amplify::num::u256;
use rand::rng;
use rand::seq::SliceRandom;
use baid64::DisplayBaid64;
use sonic::accept::{read_operations, UpgradeError};
use sonic::apply::{AcceptError, SemanticError};
use sonic::articles::Articles;
use sonic::deed::{CallParams, DeedStep, NewOwned};
use sonic::dump::{dump_articles, ArticlesItem, LedgerItem};
use sonic::ledger::{Ledger, MultiError};
use sonic::processed::{Conversion, ProcessedState, StateAtom};
use sonic::raw::{RawState, Transition, VerifiedOperation};
use sonic::reader::ApiReader;
use sonic::state::{Api, EffectiveState, Readings, Restorations, Semantics};
use sonic::stock::{IssueError, Stock, StockSession};
use sonic::stream::{read_header, read_operation, write_header, NextOperation, StreamError};
use sonic::types::{AuthToken, CellAddr, ContractId, Input, Operation, Opid, StateCell};
use strict_types::StrictVal;
use ultrasonic::aluvm::gfa::{ConstVal, FieldInstr};
use ultrasonic::aluvm::{RegE, FIELD_ORDER_SECP};
use ultrasonic::{fe256, CallError, CellLock, Codex, Identity, Instr, StateData, StateValue, UsonicInstr};

type Key = (u128, u128);

fn key(opid: Opid) -> Key {
    (opid.hi, opid.lo)
}

fn addr_key(addr: CellAddr) -> (Key, u16) {
    (key(addr.opid), addr.pos)
}

/// Contract data in memory.
struct MemSession {
    stash: Vec<(Opid, Operation)>,
    trace: Vec<(Opid, Vec<(CellAddr, StateCell)>)>,
    valid: BTreeSet<Key>,
    spent: BTreeMap<(Key, u16), Opid>,
    read: BTreeMap<(Key, u16), Vec<Opid>>,
    articles: Articles,
    state: EffectiveState,
    commits: usize,
    preloaded: usize,
    fail_state: bool,
}

impl StockSession for MemSession {
    type Error = String;

    fn is_valid(&mut self, opid: Opid) -> bool {
        self.valid.contains(&key(opid))
    }

    fn has_operation(&mut self, opid: Opid) -> bool {
        self.stash.iter().any(|(id, _)| *id == opid)
    }

    fn operation_count(&mut self) -> u64 {
        self.stash.len() as u64
    }

    fn operation(&mut self, opid: Opid) -> Operation {
        self.stash.iter().find(|(id, _)| *id == opid).unwrap().1.duplicate()
    }

    fn operations(&mut self) -> Vec<(Opid, Operation)> {
        self.stash.iter().map(|(opid, op)| (*opid, op.duplicate())).collect()
    }

    fn operation_output_counts(&mut self) -> Vec<(Opid, u16)> {
        self.stash.iter().map(|(opid, op)| (*opid, op.destructible_out.len() as u16)).collect()
    }

    fn transition(&mut self, opid: Opid) -> Transition {
        let (_, cells) = self.trace.iter().find(|(id, _)| *id == opid).unwrap();
        Transition::with(opid, cells)
    }

    fn trace(&mut self) -> Vec<(Opid, Transition)> {
        self.trace.iter().map(|(opid, cells)| (*opid, Transition::with(*opid, cells))).collect()
    }

    fn read_by(&mut self, addr: CellAddr) -> Vec<Opid> {
        self.read.get(&addr_key(addr)).cloned().unwrap_or_default()
    }

    fn spent_by(&mut self, addr: CellAddr) -> Option<Opid> {
        self.spent.get(&addr_key(addr)).copied()
    }

    fn mark_valid(&mut self, opid: Opid) {
        self.valid.insert(key(opid));
    }

    fn mark_invalid(&mut self, opid: Opid) {
        self.valid.remove(&key(opid));
    }

    fn update_articles(&mut self, articles: Articles) -> Result<(), String> {
        self.articles = articles;
        Ok(())
    }

    fn apply_state(
        &mut self,
        op: &VerifiedOperation,
        readings: Option<Readings>,
    ) -> Result<Transition, String> {
        if self.fail_state {
            return Err("no space left".to_owned());
        }
        Ok(self.state.apply(op, readings))
    }

    fn roll_back_state(
        &mut self,
        transition: Transition,
        readings: Option<Restorations>,
    ) -> Result<(), String> {
        if self.fail_state {
            return Err("no space left".to_owned());
        }
        self.state.rollback(transition, readings);
        Ok(())
    }

    fn add_operation(&mut self, opid: Opid, operation: &Operation) {
        match self.stash.iter_mut().find(|(id, _)| *id == opid) {
            Some((_, known)) => *known = operation.duplicate(),
            None => self.stash.push((opid, operation.duplicate())),
        }
    }

    fn add_transition(&mut self, opid: Opid, transition: &Transition) {
        let cells = transition.destroyed_cells();
        match self.trace.iter_mut().find(|(id, _)| *id == opid) {
            Some((_, known)) => *known = cells,
            None => self.trace.push((opid, cells)),
        }
    }

    fn add_reading(&mut self, addr: CellAddr, reader: Opid) {
        let list = self.read.entry(addr_key(addr)).or_default();
        if !list.contains(&reader) {
            list.push(reader);
        }
    }

    fn add_spending(&mut self, spent: CellAddr, spender: Opid) {
        self.spent.insert(addr_key(spent), spender);
    }

    fn preload_apply_insert_lookups(&mut self, operations: &Vec<Operation>) {
        self.preloaded += operations.len();
    }

    fn commit_transaction(&mut self) -> Result<(), String> {
        self.commits += 1;
        Ok(())
    }
}

struct MemStock {
    name: String,
    session: MemSession,
}

impl Stock for MemStock {
    type Conf = String;
    type Error = String;
    type Session = MemSession;

    fn new(articles: Articles, state: EffectiveState, conf: String) -> Result<Self, String> {
        if conf == "readonly" {
            return Err("can't write".to_owned());
        }
        Ok(MemStock {
            name: conf,
            session: MemSession {
                stash: vec![],
                trace: vec![],
                valid: BTreeSet::new(),
                spent: BTreeMap::new(),
                read: BTreeMap::new(),
                articles,
                state,
                commits: 0,
                preloaded: 0,
                fail_state: false,
            },
        })
    }

    fn load(conf: String) -> Result<Self, String> {
        if conf == "none" {
            return Err("no such contract".to_owned());
        }
        let articles = articles(&[]);
        let state = EffectiveState::with_articles(
            &articles,
            reader().read_operation(&articles.semantics, &articles.genesis),
        )
        .unwrap();
        Self::new(articles, state, conf)
    }

    fn describe(error: &String) -> String {
        format!("storage: {error}")
    }

    fn config(&self) -> String {
        self.name.clone()
    }

    fn articles(&self) -> &Articles {
        &self.session.articles
    }

    fn state(&self) -> &EffectiveState {
        &self.session.state
    }

    fn session(&mut self) -> &mut MemSession {
        &mut self.session
    }
}

fn success() -> Lib {
    Lib::assemble::<Instr<LibId>>(&[Instr::Ctrl(CtrlInstr::Stop)]).unwrap()
}

fn failure() -> Lib {
    Lib::assemble::<Instr<LibId>>(&[
        Instr::Ctrl(CtrlInstr::FailCk),
        Instr::Ctrl(CtrlInstr::Stop),
    ])
    .unwrap()
}

fn codex() -> Codex {
    let lib_id = success().lib_id();
    Codex {
        name: TinyString::try_from("FungibleToken".to_owned()).unwrap(),
        developer: Identity::default(),
        version: Default::default(),
        timestamp: 1732529307,
        features: Default::default(),
        field_order: FIELD_ORDER_SECP,
        input_config: CoreConfig::default(),
        verification_config: CoreConfig::default(),
        verifiers: TinyOrdMap::try_from_iter([
            (0, LibSite::new(lib_id, 0)),
            (1, LibSite::new(lib_id, 0)),
            (2, LibSite::new(failure().lib_id(), 0)),
        ])
        .unwrap(),
    }
}

fn contract_id() -> ContractId {
    ContractId { hi: 0xC0, lo: 0xDE }
}

fn amount(value: u64) -> StateValue {
    StateValue::Single { first: fe256::from(value) }
}

fn cell(auth: AuthToken, value: u64) -> StateCell {
    StateCell { data: amount(value), auth, lock: None }
}

fn articles(outputs: &[StateCell]) -> Articles {
    Articles {
        contract_id: contract_id(),
        name: "FungibleTest".to_owned(),
        genesis: Operation {
            contract_id: contract_id(),
            call_id: 0,
            nonce: fe256::from(0u64),
            witness: StateValue::None,
            destructible_in: vec![],
            immutable_in: vec![],
            destructible_out: outputs.to_vec(),
            immutable_out: vec![],
        },
        codex: codex(),
        codex_libs: vec![success(), failure()],
        semantics: Semantics {
            default: Api { published: vec!["note".to_owned()], aggregators: vec![] },
            custom: vec![],
        },
    }
}

fn read_global(_api: usize, data: &StateData) -> Conversion<StateAtom> {
    match data.value {
        StateValue::Single { first } => Conversion::Atom(
            "note".to_owned(),
            StateAtom { verified: StrictVal::num(low(first)), unverified: None },
        ),
        _ => Conversion::Unrelated,
    }
}

fn low(value: fe256) -> u64 {
    u64::from_le_bytes(value.to_u256().to_le_bytes()[..8].try_into().unwrap())
}

fn read_owned(_api: usize, value: StateValue) -> Conversion<StrictVal> {
    match value {
        StateValue::Single { first } => {
            Conversion::Atom("amount".to_owned(), StrictVal::num(low(first)))
        }
        StateValue::None => Conversion::Unrelated,
        _ => Conversion::Invalid,
    }
}

type Global = fn(usize, &StateData) -> Conversion<StateAtom>;
type Owned = fn(usize, StateValue) -> Conversion<StrictVal>;

fn reader() -> ApiReader<Global, Owned> {
    ApiReader { global: read_global, owned: read_owned, defer: false }
}

struct Tokens(u128);

impl Tokens {
    fn next(&mut self) -> AuthToken {
        self.0 += 1;
        AuthToken { hi: 0xCA, lo: self.0 }
    }
}

fn transfer(nonce: u64, inputs: &[CellAddr], outputs: Vec<StateCell>) -> Operation {
    Operation {
        contract_id: contract_id(),
        call_id: 1,
        nonce: fe256::from(nonce),
        witness: StateValue::None,
        destructible_in: inputs
            .iter()
            .map(|addr| Input { addr: *addr, witness: StateValue::None })
            .collect(),
        immutable_in: vec![],
        destructible_out: outputs,
        immutable_out: vec![],
    }
}

fn issue(outputs: &[StateCell], name: &str) -> Ledger<MemStock> {
    let articles = articles(outputs);
    let readings = reader().read_operation(&articles.semantics, &articles.genesis);
    match Ledger::<MemStock>::new(articles, name.to_owned(), readings) {
        Ok(ledger) => ledger,
        Err(_) => panic!("can't issue a contract"),
    }
}

fn commit(ledger: &mut Ledger<MemStock>, operation: Operation) -> Opid {
    let opid = operation.opid();
    assert!(matches!(ledger.apply_verify(operation, true, &reader()), Ok(false)));
    ledger.commit_transaction().unwrap();
    opid
}

fn owned(ledger: &Ledger<MemStock>) -> Vec<(CellAddr, StrictVal)> {
    let cells = ledger.state().main.owned(&"amount".to_owned()).unwrap();
    (0..cells.len()).map(|i| cells.at(i)).cloned().collect()
}

fn copy_of(state: &ProcessedState) -> ProcessedState {
    let mut copy = ProcessedState::new();
    for name in state.global.names() {
        let cells = state.global(&name).unwrap();
        for i in 0..cells.len() {
            let (addr, atom) = cells.at(i);
            let atom = StateAtom {
                verified: atom.verified.clone(),
                unverified: atom.unverified.clone(),
            };
            copy.global.insert(name.clone(), *addr, atom);
        }
    }
    for name in state.owned.names() {
        let cells = state.owned(&name).unwrap();
        for i in 0..cells.len() {
            let (addr, value) = cells.at(i);
            copy.owned.insert(name.clone(), *addr, value.clone());
        }
    }
    for i in 0..state.aggregated.len() {
        let (name, value) = state.aggregated.at(i);
        copy.aggregated.insert(name.clone(), value.clone());
    }
    for i in 0..state.invalid_global.len() {
        let (addr, data) = state.invalid_global.at(i);
        copy.invalid_global.insert(*addr, data.clone());
    }
    for i in 0..state.invalid_owned.len() {
        let (addr, value) = state.invalid_owned.at(i);
        copy.invalid_owned.insert(*addr, *value);
    }
    copy
}

fn setup(name: &str) -> Ledger<MemStock> {
    let mut tokens = Tokens(0);
    let outputs = (0..20).map(|_| cell(tokens.next(), 100)).collect::<Vec<_>>();
    let mut ledger = issue(&outputs, name);
    let opid = ledger.articles().genesis_opid();

    assert_eq!(ledger.state().main.owned.names(), vec!["amount".to_owned()]);
    assert_eq!(owned(&ledger).len(), 20);
    let mut prev = vec![];
    for (addr, val) in owned(&ledger) {
        assert_eq!(val, StrictVal::num(100u64));
        assert_eq!(addr.opid, opid);
        prev.push(addr);
    }
    assert_eq!(prev.len(), 20);

    let mut nonce = 0;
    for round in 0u16..10 {
        // shuffle outputs to create twisted DAG
        prev.shuffle(&mut rng());
        let mut iter = prev.into_iter();
        let mut new_prev = vec![];
        while let Some((first, second)) = iter.next().zip(iter.next()) {
            nonce += 1;
            let outputs = vec![
                cell(tokens.next(), 100u64 - round as u64),
                cell(tokens.next(), 100u64 - round as u64),
            ];
            let opid = commit(&mut ledger, transfer(nonce, &[first, second], outputs));
            new_prev.push(CellAddr::new(opid, 0));
            new_prev.push(CellAddr::new(opid, 1));
        }
        prev = new_prev;
    }

    assert_eq!(ledger.state().main.owned.names().len(), 1);
    assert_eq!(prev.len(), 20);
    let state = owned(&ledger);
    assert_eq!(state.len(), 20);
    for (_, val) in &state {
        assert_eq!(val, &StrictVal::num(91u64));
    }
    assert_eq!(
        state.iter().map(|(addr, _)| addr_key(*addr)).collect::<BTreeSet<_>>(),
        prev.iter().map(|addr| addr_key(*addr)).collect::<BTreeSet<_>>()
    );

    ledger
}

fn check_dump(ledger: &mut Ledger<MemStock>) {
    let dump = ledger.dump();
    assert_eq!(dump.operations.len(), 100);
    assert_eq!(dump.trace.len(), 100);
    assert_eq!(dump.files.len(), 302);
    assert!(dump.files[0].0.starts_with("0001-op-"));
    assert!(matches!(dump.files[0].1, LedgerItem::Operation(0)));
    assert!(dump.files[199].0.starts_with("0100-links-"));
    assert!(dump.files[200].0.starts_with("0001-trace-"));
    assert_eq!(dump.files[300].0, "state-default.yaml");
    assert_eq!(dump.files[301].0, "state-raw.yaml");
}

#[test]
fn no_reorgs() {
    let mut ledger = setup("NoReorgs");
    check_dump(&mut ledger);
}

fn check_rollback(mut ledger: Ledger<MemStock>, mut removed: Vec<Opid>) -> Vec<Opid> {
    let opids = removed.clone();

    let mut index = 0usize;
    while let Some(opid) = removed.get(index).copied() {
        let op = ledger.operation(opid);
        let mut new = vec![];
        for no in 0..op.immutable_out.len() as u16 {
            new.extend(ledger.read_by(CellAddr::new(opid, no)));
        }
        for no in 0..op.destructible_out.len() as u16 {
            let Some(child) = ledger.spent_by(CellAddr::new(opid, no)) else {
                continue;
            };
            new.push(child);
        }
        for child in new {
            if !removed.contains(&child) {
                removed.push(child);
            }
        }
        index += 1;
    }

    let removed_opids = removed.iter().map(|opid| key(*opid)).collect::<BTreeSet<_>>();
    let descendants =
        ledger.descendants(opids).into_iter().map(key).collect::<BTreeSet<_>>();
    assert_eq!(removed_opids, descendants);

    for (opid, _) in ledger.operations() {
        if removed_opids.contains(&key(opid)) {
            assert!(!ledger.is_valid(opid));
        } else {
            assert!(ledger.is_valid(opid));
        }
    }

    // Now we check that no outputs of the rolled-back ops participate in the valid state
    for (addr, _) in owned(&ledger) {
        assert!(!removed_opids.contains(&key(addr.opid)));
    }

    removed
}

fn nth(ledger: &mut Ledger<MemStock>, index: usize) -> Opid {
    ledger.operations()[index].0
}

#[test]
fn single_rollback() {
    let mut ledger = setup("SingleRollback");
    let mid_opid = nth(&mut ledger, 50);
    ledger.rollback(vec![mid_opid], &reader()).unwrap();
    check_dump(&mut ledger);
    check_rollback(ledger, vec![mid_opid]);
}

#[test]
fn double_rollback() {
    let mut ledger = setup("DoubleRollback");
    let mid_opid1 = nth(&mut ledger, 50);
    let mid_opid2 = nth(&mut ledger, 30);
    ledger.rollback(vec![mid_opid1, mid_opid2], &reader()).unwrap();
    check_dump(&mut ledger);
    check_rollback(ledger, vec![mid_opid1, mid_opid2]);
}

#[test]
fn two_rollbacks() {
    let mut ledger = setup("TwoRollbacks");
    let mid_opid1 = nth(&mut ledger, 50);
    let mid_opid2 = nth(&mut ledger, 30);
    ledger.rollback(vec![mid_opid1], &reader()).unwrap();
    ledger.rollback(vec![mid_opid2], &reader()).unwrap();
    check_dump(&mut ledger);
    check_rollback(ledger, vec![mid_opid1, mid_opid2]);
}

#[test]
fn rollback_forward() {
    let mut ledger = setup("RollbackForward");
    let init_state = copy_of(&ledger.state().main);
    let mid_opid = nth(&mut ledger, 50);
    ledger.rollback(vec![mid_opid], &reader()).unwrap();
    assert!(ledger.state().main != init_state);
    assert!(matches!(ledger.forward(vec![mid_opid], &reader()), Ok(())));
    check_dump(&mut ledger);
    assert_eq!(ledger.state().main, init_state);
}

#[test]
fn partial_forward() {
    let mut ledger = setup("PartialForward");
    let mid_opid1 = nth(&mut ledger, 50);
    let mid_opid2 = nth(&mut ledger, 30);
    ledger.rollback(vec![mid_opid2], &reader()).unwrap();
    let mid_state = copy_of(&ledger.state().main);
    ledger.rollback(vec![mid_opid1], &reader()).unwrap();
    assert!(matches!(ledger.forward(vec![mid_opid1], &reader()), Ok(())));
    check_dump(&mut ledger);
    assert_eq!(ledger.state().main, mid_state);
}

fn genesis_cell(ledger: &Ledger<MemStock>, pos: u16) -> CellAddr {
    CellAddr::new(ledger.articles().genesis_opid(), pos)
}

fn two_cells(name: &str) -> Ledger<MemStock> {
    issue(&[cell(AuthToken { hi: 1, lo: 1 }, 10), cell(AuthToken { hi: 1, lo: 2 }, 20)], name)
}

fn out(token: u128, value: u64) -> StateCell {
    cell(AuthToken { hi: 2, lo: token }, value)
}

#[test]
fn issued_contract_holds_its_genesis() {
    let mut ledger = two_cells("issued");
    assert_eq!(ledger.contract_id(), contract_id());
    assert_eq!(ledger.config(), "issued");
    assert_eq!(ledger.stock().name, "issued");
    assert_eq!(ledger.articles().name, "FungibleTest");
    assert_eq!(ledger.operation_count(), 0);
    assert!(ledger.is_valid(ledger.articles().genesis_opid()));
    assert_eq!(
        owned(&ledger),
        vec![
            (genesis_cell(&ledger, 0), StrictVal::num(10u64)),
            (genesis_cell(&ledger, 1), StrictVal::num(20u64)),
        ]
    );
    assert_eq!(ledger.state().addr(AuthToken { hi: 1, lo: 2 }), genesis_cell(&ledger, 1));
}

#[test]
fn issue_fails_on_refused_genesis() {
    let mut articles = articles(&[]);
    articles.genesis.call_id = 2;
    let readings = reader().read_operation(&articles.semantics, &articles.genesis);
    match Ledger::<MemStock>::new(articles, "x".to_owned(), readings) {
        Err(MultiError::A(IssueError::Genesis(name, _))) => assert_eq!(name, "FungibleTest"),
        _ => panic!("genesis must be refused"),
    }
}

#[test]
fn issue_reports_storage_faults() {
    let articles = articles(&[]);
    let readings = reader().read_operation(&articles.semantics, &articles.genesis);
    match Ledger::<MemStock>::new(articles, "readonly".to_owned(), readings) {
        Err(MultiError::B(e)) => assert_eq!(e, "can't write"),
        _ => panic!("the storage must fail"),
    }
}

#[test]
fn load_opens_contract() {
    let mut ledger = match Ledger::<MemStock>::load("loaded".to_owned()) {
        Ok(ledger) => ledger,
        Err(_) => panic!("can't load"),
    };
    assert_eq!(ledger.contract_id(), contract_id());
    assert_eq!(ledger.config(), "loaded");
    assert!(ledger.operations().is_empty());
    assert!(matches!(Ledger::<MemStock>::load("none".to_owned()), Err(e) if e == "no such contract"));
}

#[test]
fn applied_operation_is_recorded() {
    let mut ledger = two_cells("recorded");
    let note = StateData { value: amount(7), raw: None };
    let mut op = transfer(1, &[genesis_cell(&ledger, 0)], vec![out(1, 4), out(2, 6)]);
    op.immutable_out = vec![note];
    let first = commit(&mut ledger, op);
    let mut op = transfer(2, &[CellAddr::new(first, 1)], vec![out(3, 6)]);
    op.immutable_in = vec![CellAddr::new(first, 0)];
    let second = commit(&mut ledger, op);

    assert_eq!(ledger.operation_count(), 2);
    assert!(ledger.has_operation(first));
    assert!(!ledger.has_operation(ledger.articles().genesis_opid()));
    assert_eq!(ledger.valid_opids(), vec![first, second]);
    assert_eq!(ledger.operation(second).nonce, fe256::from(2u64));
    assert_eq!(ledger.operation_arc(first).destructible_out.len(), 2);
    assert_eq!(ledger.spent_by(CellAddr::new(first, 1)), Some(second));
    assert_eq!(ledger.spent_by(CellAddr::new(first, 0)), None);
    assert_eq!(ledger.read_by(CellAddr::new(first, 0)), vec![second]);
    assert!(ledger.read_by(CellAddr::new(second, 0)).is_empty());
    assert_eq!(ledger.operation_output_counts(), vec![(first, 2), (second, 1)]);
    let parents = ledger.operation_parent_ops();
    assert_eq!(parents[0], (first, vec![ledger.articles().genesis_opid()]));
    assert_eq!(parents[1], (second, vec![first, first]));
    assert_eq!(
        ledger.transition(second).destroyed_cells(),
        vec![(CellAddr::new(first, 1), out(2, 6))]
    );
    let trace = ledger.trace_iter();
    assert_eq!(trace.len(), 2);
    assert_eq!(trace[0].0, first);
    assert_eq!(trace[0].1.destroyed_cells()[0].0, genesis_cell(&ledger, 0));

    // The token of the destroyed cell is gone, and the new ones lead to the new cells
    assert_eq!(ledger.state().addr(AuthToken { hi: 2, lo: 3 }), CellAddr::new(second, 0));
    assert_eq!(
        owned(&ledger).into_iter().map(|(addr, _)| addr_key(addr)).collect::<BTreeSet<_>>(),
        BTreeSet::from([
            addr_key(genesis_cell(&ledger, 1)),
            addr_key(CellAddr::new(first, 0)),
            addr_key(CellAddr::new(second, 0)),
        ])
    );
    let notes = ledger.state().main.global(&"note".to_owned()).unwrap();
    assert_eq!(notes.len(), 1);
    assert_eq!(notes.at(0).0, CellAddr::new(first, 0));
    assert_eq!(notes.at(0).1.verified, StrictVal::num(7u64));
}

#[test]
fn operation_is_applied_once() {
    let mut ledger = two_cells("once");
    let op = transfer(1, &[genesis_cell(&ledger, 0)], vec![out(1, 10)]);
    let copy = op.duplicate();
    commit(&mut ledger, op);
    assert!(matches!(ledger.apply_verify(copy, false, &reader()), Ok(true)));
    assert_eq!(ledger.operation_count(), 1);
}

#[test]
fn wrong_operations_are_refused() {
    let mut ledger = two_cells("refused");
    let before = copy_of(&ledger.state().main);

    let mut foreign = transfer(1, &[genesis_cell(&ledger, 0)], vec![]);
    foreign.contract_id = ContractId { hi: 0, lo: 1 };
    assert!(matches!(
        ledger.apply_verify(foreign, false, &reader()),
        Err(MultiError::A(AcceptError::Articles(SemanticError::ContractMismatch)))
    ));

    let absent = CellAddr::new(Opid { hi: 5, lo: 5 }, 0);
    assert!(matches!(
        ledger.apply_verify(transfer(1, &[absent], vec![]), false, &reader()),
        Err(MultiError::A(AcceptError::Verify(CallError::NoReadOnceInput(_))))
    ));

    let mut blind = transfer(1, &[], vec![]);
    blind.immutable_in = vec![absent];
    assert!(matches!(
        ledger.apply_verify(blind, false, &reader()),
        Err(MultiError::A(AcceptError::Verify(CallError::NoImmutableInput(_))))
    ));

    let mut unknown = transfer(1, &[genesis_cell(&ledger, 0)], vec![]);
    unknown.call_id = 9;
    assert!(matches!(
        ledger.apply_verify(unknown, true, &reader()),
        Err(MultiError::A(AcceptError::Verify(CallError::NotFound(9))))
    ));

    let mut failing = transfer(1, &[genesis_cell(&ledger, 0)], vec![]);
    failing.call_id = 2;
    assert!(matches!(
        ledger.apply_verify(failing, false, &reader()),
        Err(MultiError::A(AcceptError::Verify(CallError::ScriptUnspecified)))
    ));

    assert_eq!(ledger.operation_count(), 0);
    assert_eq!(ledger.state().main, before);
}

#[test]
fn storage_faults_are_reported() {
    let mut ledger = two_cells("fault");
    let op = transfer(1, &[genesis_cell(&ledger, 0)], vec![out(1, 10)]);
    let first = commit(&mut ledger, op);
    let failed: Result<(), String> = ledger.with_session(|session| {
        session.fail_state = true;
        Ok(())
    });
    failed.unwrap();
    let op = transfer(2, &[genesis_cell(&ledger, 1)], vec![]);
    assert!(matches!(
        ledger.apply_verify(op, false, &reader()),
        Err(MultiError::B(e)) if e == "no space left"
    ));
    assert!(matches!(ledger.rollback(vec![first], &reader()), Err(e) if e == "no space left"));
    assert_eq!(MemStock::describe(&"full".to_owned()), "storage: full");
}

#[test]
fn verified_operation_gives_its_transition() {
    let mut ledger = two_cells("transition");
    let op = transfer(1, &[genesis_cell(&ledger, 1)], vec![]);
    let verified = match ledger.articles().verify(op, &ledger.state().raw) {
        Ok(verified) => verified,
        Err(_) => panic!("the operation is correct"),
    };
    let opid = verified.opid;
    let transition = ledger.apply(verified, &reader()).unwrap();
    assert_eq!(transition.opid, opid);
    assert_eq!(
        transition.destroyed_cells(),
        vec![(genesis_cell(&ledger, 1), cell(AuthToken { hi: 1, lo: 2 }, 20))]
    );
    assert!(ledger.is_valid(opid));
}

#[test]
fn lookups_are_preloaded() {
    let mut ledger = two_cells("preload");
    let ops = vec![transfer(1, &[], vec![]), transfer(2, &[], vec![])];
    ledger.preload_apply_insert_lookups(&ops);
    assert_eq!(ledger.stock().session.preloaded, 2);
    assert_eq!(ledger.stock().session.commits, 1);
    ledger.commit_transaction().unwrap();
    assert_eq!(ledger.stock().session.commits, 2);
}

fn build(articles: &Articles, method: String, steps: Vec<DeedStep>) -> Operation {
    let call_id = if method == "transfer" { 1 } else { 9 };
    let mut op = transfer(77, &[], vec![]);
    op.contract_id = articles.contract_id;
    op.call_id = call_id;
    for step in steps {
        match step {
            DeedStep::Append(state) => {
                assert_eq!(state.name, "note");
                op.immutable_out.push(StateData { value: amount(7), raw: None });
            }
            DeedStep::Assign(state) => op.destructible_out.push(cell(state.auth, 30)),
            DeedStep::Reading(addr) => op.immutable_in.push(addr),
            DeedStep::Using(addr) | DeedStep::Satisfying(addr, _) => {
                op.destructible_in.push(Input { addr, witness: StateValue::None });
            }
        }
    }
    op
}

fn call_params(ledger: &Ledger<MemStock>, method: &str) -> CallParams {
    CallParams {
        method: method.to_owned(),
        global: vec![],
        owned: vec![NewOwned {
            name: "amount".to_owned(),
            auth: AuthToken { hi: 3, lo: 3 },
            data: StrictVal::num(30u64),
            lock: None,
        }],
        reading: vec![],
        using: vec![(genesis_cell(ledger, 0), None), (genesis_cell(ledger, 1), None)],
    }
}

#[test]
fn call_is_committed() {
    let mut ledger = two_cells("call");
    let params = call_params(&ledger, "transfer");
    let opid = match ledger.call(params, &build, &reader()) {
        Ok(opid) => opid,
        Err(_) => panic!("the call is correct"),
    };
    assert!(ledger.is_valid(opid));
    assert_eq!(ledger.stock().session.commits, 2);
    assert_eq!(owned(&ledger), vec![(CellAddr::new(opid, 0), StrictVal::num(30u64))]);

    // The cells are gone by now
    let params = CallParams {
        using: vec![(genesis_cell(&ledger, 1), None)],
        ..call_params(&ledger, "transfer")
    };
    assert!(matches!(
        ledger.call(params, &build, &reader()),
        Err(MultiError::A(AcceptError::Verify(CallError::NoReadOnceInput(_))))
    ));
    let params = CallParams { using: vec![], ..call_params(&ledger, "burn") };
    assert!(matches!(
        ledger.call(params, &build, &reader()),
        Err(MultiError::A(AcceptError::Verify(CallError::NotFound(9))))
    ));
    assert_eq!(ledger.operation_count(), 1);
}

/// Operations `a`, `b` on the outputs of `a`, and `c` on an output of each of them.
fn diamond(ledger: &mut Ledger<MemStock>) -> (Opid, Opid, Opid) {
    let a = commit(ledger, transfer(1, &[genesis_cell(ledger, 0)], vec![out(1, 5), out(2, 5)]));
    let b = commit(ledger, transfer(2, &[CellAddr::new(a, 1)], vec![out(3, 5)]));
    let c = commit(ledger, transfer(3, &[CellAddr::new(b, 0), CellAddr::new(a, 0)], vec![out(4, 9)]));
    (a, b, c)
}

#[test]
fn ancestors_and_descendants_are_found() {
    let mut ledger = two_cells("kin");
    let (a, b, c) = diamond(&mut ledger);
    let genesis = ledger.articles().genesis_opid();
    assert_eq!(ledger.ancestors(vec![c]), vec![c, b, a, genesis]);
    assert_eq!(ledger.ancestors(vec![a, b]), vec![a, b, genesis]);
    assert_eq!(ledger.descendants(vec![a]), vec![a, c, b]);
    assert_eq!(ledger.descendants(vec![b]), vec![b, c]);
    assert!(ledger.descendants(vec![]).is_empty());
}

#[test]
fn rollback_takes_descendants_along() {
    let mut ledger = two_cells("back");
    let before = copy_of(&ledger.state().main);
    let (a, b, c) = diamond(&mut ledger);
    ledger.rollback(vec![b], &reader()).unwrap();
    assert_eq!(ledger.valid_opids(), vec![a]);
    assert!(ledger.has_operation(b) && ledger.has_operation(c));
    assert!(!ledger.is_valid(b) && !ledger.is_valid(c));
    ledger.rollback(vec![a], &reader()).unwrap();
    assert_eq!(ledger.state().main, before);
}

#[test]
fn forward_waits_for_ancestors() {
    let mut ledger = two_cells("forth");
    let (a, b, c) = diamond(&mut ledger);
    let full = copy_of(&ledger.state().main);
    ledger.rollback(vec![a], &reader()).unwrap();

    // The ancestors of the operation are not valid: it stays rolled back
    assert!(matches!(ledger.forward(vec![c], &reader()), Ok(())));
    assert!(ledger.valid_opids().is_empty());

    // The walk meets `c` before `b`, which is an ancestor of `c`
    assert!(matches!(ledger.forward(vec![a], &reader()), Ok(())));
    assert_eq!(ledger.valid_opids(), vec![a, b]);
    assert!(matches!(ledger.forward(vec![c], &reader()), Ok(())));
    assert_eq!(ledger.valid_opids(), vec![a, b, c]);
    assert_eq!(ledger.state().main, full);
}

const ARTICLES: &[u8] = b"articles";

fn decode(stream: &Vec<u8>, at: usize) -> Result<(Articles, usize), AcceptError> {
    if !stream[at..].starts_with(ARTICLES) {
        return Err(AcceptError::Serialize("no articles".to_owned()));
    }
    let genesis = [cell(AuthToken { hi: 1, lo: 1 }, 10), cell(AuthToken { hi: 1, lo: 2 }, 20)];
    Ok((articles(&genesis), at + ARTICLES.len()))
}

fn upgrade(_known: &Articles, other: Articles) -> Result<(Articles, bool), UpgradeError> {
    Ok((other, true))
}

fn keep_back(_known: &Articles, _other: Articles) -> Result<(Articles, bool), UpgradeError> {
    Err(UpgradeError {
        fault: SemanticError::Invalid("older version".to_owned()),
        text: "the articles are of an older version".to_owned(),
    })
}

#[test]
fn exported_contract_is_accepted() {
    let mut ledger = two_cells("source");
    let (a, b, c) = diamond(&mut ledger);
    let stream = ledger.export_all(&ARTICLES.to_vec()).unwrap();
    assert_eq!(&stream[34..42], ARTICLES);
    assert_eq!(&stream[42..46], &[3, 0, 0, 0]);

    let mut copy = two_cells("copy");
    assert!(matches!(copy.try_accept(&stream, &decode, &upgrade, &reader()), Some(Ok(()))));
    assert_eq!(copy.valid_opids(), vec![a, b, c]);
    assert_eq!(copy.state().main, ledger.state().main);
    assert_eq!(copy.export_all(&ARTICLES.to_vec()).unwrap(), stream);

    // What is known already changes nothing
    assert!(matches!(copy.try_accept(&stream, &decode, &upgrade, &reader()), Some(Ok(()))));
    assert_eq!(copy.operation_count(), 3);
    assert_eq!(copy.valid_opids(), vec![a, b, c]);
    assert_eq!(copy.state().raw.owned_cells(), ledger.state().raw.owned_cells());
    assert_eq!(copy.state().raw.global_cells(), ledger.state().raw.global_cells());
}

#[test]
fn terminals_are_exported_with_ancestors() {
    let mut ledger = two_cells("terminals");
    let (a, b, _) = diamond(&mut ledger);
    let mut op = transfer(4, &[genesis_cell(&ledger, 1)], vec![out(5, 20)]);
    op.immutable_out = vec![StateData { value: amount(7), raw: None }];
    let d = commit(&mut ledger, op);
    let token = AuthToken { hi: 2, lo: 3 };
    assert_eq!(ledger.descendants(vec![a]).len(), 3);
    // `b` was destroyed by `c`, so that its token leads nowhere; the one of `d` is live, and what
    // `d` publishes has to go out anyway
    let stream = ledger.export(&vec![], &ARTICLES.to_vec()).unwrap();
    assert_eq!(&stream[42..46], &[1, 0, 0, 0]);
    assert_eq!(stream[46..], ledger.operation(d).to_bytes()[..]);

    let stream = ledger.export(&vec![AuthToken { hi: 2, lo: 4 }], &ARTICLES.to_vec()).unwrap();
    assert_eq!(&stream[42..46], &[4, 0, 0, 0]);

    ledger.rollback(vec![ledger.state().addr(AuthToken { hi: 2, lo: 4 }).opid], &reader()).unwrap();
    let op = transfer(5, &[CellAddr::new(b, 0)], vec![cell(token, 5)]);
    let e = commit(&mut ledger, op);
    let stream = ledger.export(&vec![token], &ARTICLES.to_vec()).unwrap();
    let mut expected = vec![4, 0, 0, 0];
    for opid in [a, b, d, e] {
        expected.extend(ledger.operation(opid).to_bytes());
    }
    assert_eq!(stream[42..], expected[..]);
}

#[test]
fn auxiliary_data_follow_operations() {
    let mut ledger = two_cells("aux");
    let op = transfer(1, &[genesis_cell(&ledger, 0)], vec![out(1, 10)]);
    let a = commit(&mut ledger, op);
    let genesis = ledger.articles().genesis_opid();
    let aux = |opid: Opid, op: &Operation| -> Vec<u8> {
        if opid == genesis {
            vec![0xAA]
        } else {
            vec![0xBB, op.call_id as u8]
        }
    };
    let stream = ledger.export_all_aux(&ARTICLES.to_vec(), &aux).unwrap();
    let mut expected = vec![0xAA, 1, 0, 0, 0];
    expected.extend(ledger.operation(a).to_bytes());
    expected.extend([0xBB, 1]);
    assert_eq!(stream[42..], expected[..]);
    let part = ledger.export_aux(&vec![AuthToken { hi: 2, lo: 1 }], &ARTICLES.to_vec(), &aux).unwrap();
    assert_eq!(part, stream);
}

#[test]
fn broken_streams_are_refused() {
    let mut ledger = two_cells("source");
    let op = transfer(1, &[genesis_cell(&ledger, 0)], vec![out(1, 10)]);
    commit(&mut ledger, op);
    let stream = ledger.export_all(&ARTICLES.to_vec()).unwrap();
    let mut copy = two_cells("copy");

    let mut bad = stream.clone();
    bad[0] = 1;
    assert!(matches!(
        copy.try_accept(&bad, &decode, &upgrade, &reader()),
        Some(Err(MultiError::A(AcceptError::Decode(StreamError::UnsupportedVersion(1)))))
    ));
    let bad = stream[..20].to_vec();
    assert!(matches!(
        copy.try_accept(&bad, &decode, &upgrade, &reader()),
        Some(Err(MultiError::A(AcceptError::Decode(StreamError::UnexpectedEnd))))
    ));
    let mut bad = stream[..36].to_vec();
    bad[33] = 1;
    bad[34] = 200;
    bad[35] = 0;
    assert!(matches!(
        copy.try_accept(&bad, &decode, &upgrade, &reader()),
        Some(Err(MultiError::A(AcceptError::Io(StreamError::UnexpectedEnd))))
    ));
    let mut bad = stream.clone();
    bad[32] ^= 1;
    assert!(matches!(
        copy.try_accept(&bad, &decode, &upgrade, &reader()),
        Some(Err(MultiError::A(AcceptError::Articles(SemanticError::ContractMismatch))))
    ));
    let mut bad = stream.clone();
    bad[34] = b'?';
    assert!(matches!(
        copy.try_accept(&bad, &decode, &upgrade, &reader()),
        Some(Err(MultiError::A(AcceptError::Serialize(_))))
    ));
    assert!(matches!(
        copy.try_accept(&stream, &decode, &keep_back, &reader()),
        Some(Err(MultiError::A(AcceptError::Persistence(e)))) if e == "the articles are of an older version"
    ));
    let bad = stream[..44].to_vec();
    assert!(matches!(
        copy.try_accept(&bad, &decode, &upgrade, &reader()),
        Some(Err(MultiError::A(AcceptError::Decode(StreamError::UnexpectedEnd))))
    ));
    // A reserved byte must be zero
    let mut bad = stream.clone();
    bad[46] = 0xFF;
    assert!(matches!(
        copy.try_accept(&bad, &decode, &upgrade, &reader()),
        Some(Err(MultiError::A(AcceptError::Decode(StreamError::Operation(_)))))
    ));
    assert_eq!(copy.operation_count(), 0);

    // A stream which is cut in an operation ends before it
    let cut = stream[..stream.len() - 1].to_vec();
    assert!(matches!(copy.try_accept(&cut, &decode, &upgrade, &reader()), Some(Ok(()))));
    assert_eq!(copy.operation_count(), 0);
}

#[test]
fn refused_operations_stop_a_stream() {
    let mut copy = two_cells("copy");
    let good = transfer(1, &[genesis_cell(&copy, 0)], vec![out(1, 10)]);
    let spent = transfer(2, &[genesis_cell(&copy, 0)], vec![out(2, 10)]);
    let mut stream = vec![];
    write_header(&mut stream, contract_id());
    stream.extend(ARTICLES);
    stream.extend([2, 0, 0, 0]);
    stream.extend(good.to_bytes());
    let mut twice = stream.clone();
    stream.extend(spent.to_bytes());
    let doubled = transfer(3, &[genesis_cell(&copy, 1), genesis_cell(&copy, 1)], vec![]);
    twice.extend(doubled.to_bytes());

    // The operations before the one which has no place are applied, but not persisted
    let commits = copy.stock().session.commits;
    assert!(copy.try_accept(&twice, &decode, &upgrade, &reader()).is_none());
    assert_eq!(copy.valid_opids(), vec![good.opid()]);
    assert_eq!(copy.stock().session.commits, commits);

    assert!(matches!(
        copy.try_accept(&stream, &decode, &upgrade, &reader()),
        Some(Err(MultiError::A(AcceptError::Verify(CallError::NoReadOnceInput(_)))))
    ));
    assert_eq!(copy.valid_opids(), vec![good.opid()]);
}

#[test]
fn refusal_comes_before_the_lack_of_place() {
    let mut copy = two_cells("copy");
    let mut doubled = transfer(3, &[genesis_cell(&copy, 1), genesis_cell(&copy, 1)], vec![]);
    assert!(!copy.has_place_for(&doubled));
    assert!(copy.try_apply_verify(doubled.duplicate(), false, &reader()).is_none());
    doubled.call_id = 9;
    assert!(copy.has_place_for(&doubled));
    let mut stream = vec![];
    write_header(&mut stream, contract_id());
    stream.extend(ARTICLES);
    stream.extend([1, 0, 0, 0]);
    stream.extend(doubled.to_bytes());
    assert!(matches!(
        copy.try_accept(&stream, &decode, &upgrade, &reader()),
        Some(Err(MultiError::A(AcceptError::Verify(CallError::NotFound(9)))))
    ));
    assert!(matches!(
        copy.try_apply_verify(doubled, false, &reader()),
        Some(Err(MultiError::A(AcceptError::Verify(CallError::NotFound(9)))))
    ));
    assert_eq!(copy.operation_count(), 0);
}

#[test]
fn values_outside_of_the_field_are_not_verified() {
    let mut articles = articles(&[]);
    articles.codex.field_order = u256::from(1000u64);
    let token = AuthToken { hi: 0, lo: 5 };
    let raw = RawState::new();
    let op = transfer(1, &[], vec![cell(token, 999)]);
    assert!(matches!(articles.try_verify(op.duplicate(), &raw), Some(Ok(_))));
    let op = transfer(1, &[], vec![cell(token, 1000)]);
    assert!(articles.try_verify(op, &raw).is_none());
    // The token of an output is not loaded by the verification
    let op = transfer(1, &[], vec![cell(AuthToken { hi: 1, lo: 0 }, 1)]);
    assert!(matches!(articles.try_verify(op, &raw), Some(Ok(_))));
    let mut op = transfer(1, &[], vec![]);
    op.witness = StateValue::Double { first: fe256::from(1u64), second: fe256::from(1000u64) };
    assert!(articles.try_verify(op, &raw).is_none());
    let mut op = transfer(1, &[], vec![]);
    op.immutable_out = vec![StateData { value: amount(1001), raw: None }];
    assert!(articles.try_verify(op, &raw).is_none());
    let absent = CellAddr::new(Opid { hi: 0, lo: 0 }, 0);
    let mut op = transfer(1, &[absent], vec![]);
    assert!(matches!(articles.try_verify(op.duplicate(), &raw), Some(Err(CallError::NoReadOnceInput(_)))));
    op.destructible_in[0].witness = amount(1000);
    assert!(matches!(articles.try_verify(op, &raw), Some(Err(CallError::NoReadOnceInput(_)))));
    let mut op = transfer(1, &[], vec![]);
    op.witness = amount(1000);
    op.call_id = 9;
    assert!(matches!(articles.try_verify(op.duplicate(), &raw), Some(Err(CallError::NotFound(9)))));
    op.contract_id = ContractId { hi: 0, lo: 0 };
    assert!(matches!(articles.try_verify(op, &raw), Some(Err(CallError::WrongContract { .. }))));
}

#[test]
fn cells_outside_of_the_field_are_not_verified() {
    let mut ledger = two_cells("field");
    let mut locked = out(1, 10);
    locked.lock = Some(CellLock { aux: amount(1000), script: None });
    let mut op = transfer(1, &[genesis_cell(&ledger, 0)], vec![locked]);
    op.immutable_out = vec![StateData { value: amount(1000), raw: None }];
    let first = commit(&mut ledger, op);

    let mut small = articles(&[]);
    small.codex.field_order = u256::from(1000u64);
    let raw = &ledger.state().raw;
    let spending = transfer(2, &[CellAddr::new(first, 0)], vec![]);
    assert!(small.try_verify(spending.duplicate(), raw).is_none());
    let mut reading = transfer(2, &[], vec![]);
    reading.immutable_in = vec![CellAddr::new(first, 0)];
    assert!(small.try_verify(reading.duplicate(), raw).is_none());
    small.codex.field_order = u256::from(1001u64);
    assert!(small.try_verify(reading.duplicate(), raw).is_some());
    let mut witnessed = spending.duplicate();
    witnessed.destructible_in[0].witness = StateValue::Single { first: fe256::from([0xFFu8; 32]) };
    assert!(ledger.articles().try_verify(witnessed, raw).is_none());
    assert!(ledger.articles().try_verify(spending, raw).is_some());
    assert!(ledger.articles().try_verify(reading, raw).is_some());
}

#[test]
fn calls_without_a_place_do_nothing() {
    let mut ledger = two_cells("doubled");
    let cell = genesis_cell(&ledger, 0);
    let params = CallParams {
        using: vec![(cell, None), (cell, None)],
        ..call_params(&ledger, "transfer")
    };
    assert!(ledger.try_call(params, &build, &reader()).is_none());
    assert_eq!(ledger.operation_count(), 0);
    let params = call_params(&ledger, "transfer");
    assert!(matches!(ledger.try_call(params, &build, &reader()), Some(Ok(_))));
    assert_eq!(ledger.operation_count(), 1);
    let params = CallParams { using: vec![], ..call_params(&ledger, "burn") };
    assert!(matches!(
        ledger.try_call(params, &build, &reader()),
        Some(Err(MultiError::A(AcceptError::Verify(CallError::NotFound(9)))))
    ));
}

#[test]
fn operations_with_a_place_are_brought_back() {
    let mut ledger = two_cells("return");
    let (a, b, c) = diamond(&mut ledger);
    ledger.rollback(vec![b], &reader()).unwrap();
    assert!(ledger.has_place_to_forward(&vec![b]));
    assert!(matches!(ledger.try_forward(vec![b], &reader()), Some(Ok(()))));
    assert_eq!(ledger.valid_opids(), vec![a, b, c]);
    // A valid operation has destroyed its inputs
    assert!(matches!(
        ledger.try_forward(vec![b], &reader()),
        Some(Err(MultiError::A(AcceptError::Verify(CallError::NoReadOnceInput(_)))))
    ));
    assert_eq!(ledger.valid_opids(), vec![a, b, c]);

    // With a smaller field the operations have no place
    ledger.rollback(vec![b], &reader()).unwrap();
    let small: Result<(), String> = ledger.with_session(|session| {
        session.articles.codex.field_order = u256::from(2u64);
        Ok(())
    });
    small.unwrap();
    assert!(!ledger.has_place_to_forward(&vec![b]));
    assert!(ledger.try_forward(vec![b], &reader()).is_none());
    assert_eq!(ledger.valid_opids(), vec![a]);
}

#[test]
fn rollback_in_steps_and_at_once() {
    let mut stepwise = two_cells("steps");
    let (_, b, _) = diamond(&mut stepwise);
    let op = transfer(9, &[genesis_cell(&stepwise, 1)], vec![out(9, 20)]);
    let other = commit(&mut stepwise, op.duplicate());
    let mut at_once = two_cells("once-and-for-all");
    diamond(&mut at_once);
    commit(&mut at_once, op);
    stepwise.rollback(vec![b], &reader()).unwrap();
    stepwise.rollback(vec![other], &reader()).unwrap();
    at_once.rollback(vec![b, other], &reader()).unwrap();
    assert_eq!(stepwise.valid_opids(), at_once.valid_opids());
    assert_eq!(stepwise.state().raw.owned_cells(), at_once.state().raw.owned_cells());
    assert_eq!(stepwise.state().main, at_once.state().main);
}

#[test]
fn descendants_are_the_converse_of_ancestors() {
    let mut ledger = two_cells("converse");
    let (a, b, c) = diamond(&mut ledger);
    for one in [a, b, c] {
        for other in [a, b, c] {
            assert_eq!(
                ledger.ancestors(vec![one]).contains(&other),
                ledger.descendants(vec![other]).contains(&one)
            );
        }
    }
}

#[test]
fn tokens_lead_to_their_cells() {
    let mut ledger = two_cells("tokens");
    diamond(&mut ledger);
    let raw = &ledger.state().raw;
    assert_eq!(raw.tokens().len(), raw.owned_cells().len());
    for (addr, cell) in raw.owned_cells() {
        assert_eq!(ledger.state().addr(cell.auth), addr);
    }
}

#[test]
fn extensions_of_a_header_are_skipped() {
    let mut stream = vec![];
    write_header(&mut stream, contract_id());
    assert_eq!(stream.len(), 34);
    assert!(matches!(read_header(&stream), Ok((id, 34)) if id == contract_id()));
    stream[33] = 2;
    stream.extend([3, 0, 9, 9, 9, 0, 0]);
    assert!(matches!(read_header(&stream), Ok((id, 41)) if id == contract_id()));
}

#[test]
fn operations_are_read_back() {
    let ops = vec![
        transfer(1, &[CellAddr::new(Opid { hi: 1, lo: 2 }, 3)], vec![out(1, 5)]),
        transfer(2, &[], vec![]),
    ];
    let mut stream = vec![0xFF];
    for op in &ops {
        stream.extend(op.to_bytes());
    }
    let (read, faulty) = read_operations(&stream, 1, 3);
    assert!(!faulty);
    assert_eq!(read.len(), 2);
    assert_eq!(read[0].opid(), ops[0].opid());
    assert_eq!(read[0].destructible_in[0].addr, ops[0].destructible_in[0].addr);
    assert_eq!(read[0].destructible_out, ops[0].destructible_out);
    assert_eq!(read[1].nonce, fe256::from(2u64));
    assert!(matches!(read_operation(&stream, stream.len()), NextOperation::End));
    assert!(matches!(read_operation(&stream, 0), NextOperation::Fault(_)));
}

#[test]
fn apis_are_upgraded() {
    let mut ledger = two_cells("upgrade");
    let mut newer = articles(&[]);
    newer.semantics.default.published = vec![];
    assert!(matches!(ledger.upgrade_apis(newer, &upgrade), Ok(true)));
    assert!(ledger.articles().semantics.default.published.is_empty());
    match ledger.upgrade_apis(articles(&[]), &keep_back) {
        Err(MultiError::A(e)) => {
            assert_eq!(e.text, "the articles are of an older version");
            assert!(matches!(e.fault, SemanticError::Invalid(_)));
        }
        _ => panic!("the upgrade must fail"),
    }
    assert!(ledger.articles().semantics.default.published.is_empty());
}

fn opid_text(opid: Opid) -> String {
    let mut id = [0u8; 32];
    id[..16].copy_from_slice(&opid.hi.to_be_bytes());
    id[16..].copy_from_slice(&opid.lo.to_be_bytes());
    ultrasonic::Opid::from(id).to_string()
}

#[test]
fn dump_shows_links() {
    let mut ledger = two_cells("links");
    let mut op = transfer(1, &[genesis_cell(&ledger, 0)], vec![out(1, 5), out(2, 5)]);
    op.immutable_out = vec![StateData { value: amount(7), raw: None }];
    let a = commit(&mut ledger, op);
    let mut op = transfer(2, &[CellAddr::new(a, 1)], vec![]);
    op.immutable_in = vec![CellAddr::new(a, 0)];
    let b = commit(&mut ledger, op);
    let op = ledger.operation(a);
    let links = ledger.links(a, &op);
    assert_eq!(links.readers, vec![(0, b)]);
    assert_eq!(links.spenders, vec![(1, b)]);

    let dump = ledger.dump();
    let names = dump.files.iter().map(|(name, _)| name.clone()).collect::<Vec<_>>();
    assert_eq!(
        names,
        vec![
            format!("0001-op-{}.yaml", opid_text(a)),
            format!("0001-links-{}.yaml", opid_text(a)),
            format!("0002-op-{}.yaml", opid_text(b)),
            format!("0002-links-{}.yaml", opid_text(b)),
            format!("0001-trace-{}.yaml", opid_text(a)),
            format!("0002-trace-{}.yaml", opid_text(b)),
            "state-default.yaml".to_owned(),
            "state-raw.yaml".to_owned(),
        ]
    );
    assert!(matches!(&dump.files[1].1, LedgerItem::Links(links) if links.spenders == vec![(1, b)]));
    assert!(matches!(dump.files[5].1, LedgerItem::Transition(1)));
    assert!(matches!(dump.files[6].1, LedgerItem::DefaultState));
    assert!(matches!(dump.files[7].1, LedgerItem::RawState));
}

#[test]
fn dump_of_articles_names_files() {
    let mut articles = articles(&[]);
    articles.semantics.custom =
        vec![("Sums".to_owned(), Api { published: vec![], aggregators: vec![] })];
    let files = dump_articles(&articles);
    let lib = success().lib_id().to_baid64_mnemonic();
    let names = files.iter().map(|(name, _)| name.as_str()).collect::<Vec<_>>();
    assert_eq!(names[0], format!("0000-genesis-{}.yaml", opid_text(articles.genesis_opid())));
    assert_eq!(names[1], "meta.yaml");
    assert_eq!(names[2], format!("codex-{:#}.yaml", codex().codex_id()));
    assert_eq!(names[3], "api-default.yaml");
    assert_eq!(names[4], "api-Sums.yaml");
    assert_eq!(names[5], format!("{lib}.alu"));
    assert_eq!(names[6], format!("{lib}.aluasm"));
    assert_eq!(names[9..], ["types.sts", "types.sty"]);
    assert!(matches!(files[4].1, ArticlesItem::CustomApi(0)));
    assert!(matches!(files[7].1, ArticlesItem::Library(1)));
}

fn coded(code: &[Instr<LibId>], limit: Option<u64>) -> Articles {
    let lib = Lib::assemble::<Instr<LibId>>(code).unwrap();
    let mut coded = articles(&[]);
    coded.codex.field_order = u256::from(1000u64);
    coded.codex.verification_config = CoreConfig { halt: true, complexity_lim: limit };
    coded.codex.verifiers =
        TinyOrdMap::try_from_iter([(1, LibSite::new(lib.lib_id(), 0))]).unwrap();
    coded.codex_libs = vec![success(), lib];
    coded
}

fn verified_by(articles: &Articles) -> Option<bool> {
    let op = transfer(1, &[], vec![]);
    articles.try_verify(op, &RawState::new()).map(|verdict| verdict.is_ok())
}

const STOP: Instr<LibId> = Instr::Ctrl(CtrlInstr::Stop);
const NOP: Instr<LibId> = Instr::Ctrl(CtrlInstr::Nop);

#[test]
fn constants_outside_of_the_field_are_not_loaded() {
    let put = |value: u64| {
        Instr::Gfa(FieldInstr::PutD { dst: RegE::E1, data: fe256::from(value) })
    };
    assert_eq!(verified_by(&coded(&[put(999), STOP], None)), Some(true));
    assert_eq!(verified_by(&coded(&[put(1000), STOP], None)), None);
    let put = |val: ConstVal| Instr::Gfa(FieldInstr::PutV { dst: RegE::E1, val });
    assert_eq!(verified_by(&coded(&[put(ConstVal::Val1), STOP], None)), Some(true));
    assert_eq!(verified_by(&coded(&[put(ConstVal::ValFeMAX), STOP], None)), Some(true));
    assert_eq!(verified_by(&coded(&[put(ConstVal::ValU64Max), STOP], None)), None);
    let mut wide = coded(&[put(ConstVal::ValU128Max), STOP], None);
    assert_eq!(verified_by(&wide), None);
    wide.codex.field_order = FIELD_ORDER_SECP;
    assert_eq!(verified_by(&wide), Some(true));
}

#[test]
fn negation_is_not_run() {
    let zero = Instr::Gfa(FieldInstr::PutZ { dst: RegE::E1 });
    let neg = Instr::Gfa(FieldInstr::Neg { dst: RegE::E2, src: RegE::E1 });
    assert_eq!(verified_by(&coded(&[zero, STOP], None)), Some(true));
    assert_eq!(verified_by(&coded(&[zero, neg, STOP], None)), None);
}

#[test]
fn endless_code_is_not_run() {
    let jump = |pos: u16| Instr::Ctrl(CtrlInstr::Jmp { pos });
    let shift = |shift: i8| Instr::Ctrl(CtrlInstr::Sh { shift });
    let limit = Some(1_000_000);
    // Onward
    assert_eq!(verified_by(&coded(&[jump(4), NOP, STOP], None)), Some(true));
    assert_eq!(verified_by(&coded(&[shift(3), NOP, STOP], None)), Some(true));
    // To the end of the code
    assert_eq!(verified_by(&coded(&[jump(5), NOP, STOP], limit)), Some(false));
    // Backward, and to itself
    assert_eq!(verified_by(&coded(&[NOP, jump(0)], None)), None);
    assert_eq!(verified_by(&coded(&[NOP, jump(0)], limit)), Some(false));
    assert_eq!(verified_by(&coded(&[NOP, shift(-1)], None)), None);
    assert_eq!(verified_by(&coded(&[NOP, shift(-1)], limit)), Some(false));
    assert_eq!(verified_by(&coded(&[shift(0)], None)), None);
    // Before the start of the code
    assert_eq!(verified_by(&coded(&[shift(-1), STOP], None)), Some(false));
    // Into the middle of an instruction
    assert_eq!(verified_by(&coded(&[jump(1), NOP, STOP], limit)), None);
    assert_eq!(verified_by(&coded(&[shift(1), NOP, STOP], limit)), None);
}

#[test]
fn code_goes_from_library_to_library() {
    let call = |lib_id: LibId, offset: u16| {
        Instr::Ctrl(CtrlInstr::Exec { site: Site::new(lib_id, offset) })
    };
    assert_eq!(verified_by(&coded(&[call(success().lib_id(), 0)], None)), Some(true));
    // A library which is not there
    assert_eq!(verified_by(&coded(&[call(failure().lib_id(), 0)], None)), Some(false));
    // The middle of an instruction of another library
    let put = Instr::Gfa(FieldInstr::PutD { dst: RegE::E1, data: fe256::from(1u64) });
    let other = Lib::assemble::<Instr<LibId>>(&[put, STOP]).unwrap();
    let mut coded_twice = coded(&[call(other.lib_id(), 4)], None);
    coded_twice.codex_libs.insert(0, other.clone());
    assert_eq!(verified_by(&coded_twice), Some(true));
    let mut coded_twice = coded(&[call(other.lib_id(), 1)], None);
    coded_twice.codex_libs.push(other);
    assert_eq!(verified_by(&coded_twice), None);
    // The verification is entered in the middle of an instruction
    let mut entered = coded(&[put, STOP], None);
    let lib_id = entered.codex_libs[1].lib_id();
    entered.codex.verifiers = TinyOrdMap::try_from_iter([(1, LibSite::new(lib_id, 1))]).unwrap();
    assert_eq!(verified_by(&entered), None);
    entered.codex.verifiers = TinyOrdMap::try_from_iter([(1, LibSite::new(lib_id, 4))]).unwrap();
    assert_eq!(verified_by(&entered), Some(true));
}

#[test]
fn second_script_runs_over_another_field() {
    let load = Lib::assemble::<Instr<LibId>>(&[Instr::Usonic(UsonicInstr::LdW), STOP]).unwrap();
    let site = LibSite::new(load.lib_id(), 0);
    let mut ledger = two_cells("locks");
    let mut locked = vec![out(1, 1), out(2, 2)];
    for cell in &mut locked {
        cell.lock = Some(CellLock { aux: StateValue::None, script: Some(site) });
    }
    let op = transfer(1, &[genesis_cell(&ledger, 0)], locked);
    let opid = commit(&mut ledger, op);
    let mut articles = articles(&[]);
    articles.codex_libs.push(load);
    let raw = &ledger.state().raw;
    let one = [CellAddr::new(opid, 0)];
    let two = [CellAddr::new(opid, 0), CellAddr::new(opid, 1)];
    let verdict = |inputs: &[CellAddr], witness: StateValue| {
        let mut op = transfer(2, inputs, vec![]);
        op.witness = witness;
        articles.try_verify(op, raw).map(|verdict| verdict.is_ok())
    };
    let large = StateValue::Single { first: fe256::from([0xF0u8; 32]) };
    assert_eq!(verdict(&one, amount(1)), Some(true));
    assert_eq!(verdict(&two, amount(1)), Some(true));
    assert_eq!(verdict(&one, large), Some(true));
    assert_eq!(verdict(&two, large), None);

    // The script of a lock is entered in the middle of an instruction
    let put = Instr::Gfa(FieldInstr::PutD { dst: RegE::E1, data: fe256::from(1u64) });
    let put = Lib::assemble::<Instr<LibId>>(&[put, STOP]).unwrap();
    let mut cell = out(3, 3);
    let site = LibSite::new(put.lib_id(), 1);
    cell.lock = Some(CellLock { aux: StateValue::None, script: Some(site) });
    let op = transfer(3, &[genesis_cell(&ledger, 1)], vec![cell]);
    let opid = commit(&mut ledger, op);
    let op = transfer(4, &[CellAddr::new(opid, 0)], vec![]);
    assert!(articles.try_verify(op.duplicate(), &ledger.state().raw).is_some());
    articles.codex_libs.push(put);
    assert!(articles.try_verify(op, &ledger.state().raw).is_none());
}

#[test]
fn unknown_operations_are_not_followed() {
    let mut ledger = two_cells("unknown");
    let genesis = ledger.articles().genesis_opid();
    let (a, b, c) = diamond(&mut ledger);
    let unknown = Opid { hi: 1, lo: 2 };
    assert_eq!(ledger.try_descendants(vec![b]), Some(vec![b, c]));
    assert!(ledger.try_descendants(vec![b, unknown]).is_none());
    assert_eq!(ledger.try_ancestors(vec![b]), Some(vec![b, a, genesis]));
    assert!(ledger.try_ancestors(vec![unknown]).is_none());
    assert!(ledger.try_rollback(vec![b, unknown], &reader()).is_none());
    assert!(ledger.try_forward(vec![b, unknown], &reader()).is_none());
    assert_eq!(ledger.valid_opids(), vec![a, b, c]);
    assert!(matches!(ledger.try_rollback(vec![b], &reader()), Some(Ok(()))));
    assert_eq!(ledger.valid_opids(), vec![a]);
    assert!(matches!(ledger.try_forward(vec![b], &reader()), Some(Ok(()))));
    assert_eq!(ledger.valid_opids(), vec![a, b, c]);
}

#[test]
fn endless_scripts_of_locks_are_not_run() {
    let back = Instr::Ctrl(CtrlInstr::Jmp { pos: 0 });
    let lib = Lib::assemble::<Instr<LibId>>(&[NOP, back]).unwrap();
    let mut ledger = two_cells("endless");
    let mut locked = out(1, 1);
    let site = LibSite::new(lib.lib_id(), 0);
    locked.lock = Some(CellLock { aux: StateValue::None, script: Some(site) });
    let op = transfer(1, &[genesis_cell(&ledger, 0)], vec![locked, out(2, 2)]);
    let opid = commit(&mut ledger, op);
    let mut articles = articles(&[]);
    articles.codex_libs.push(lib);
    let limited = CoreConfig { halt: true, complexity_lim: Some(1_000_000) };
    let unlimited = CoreConfig { halt: true, complexity_lim: None };
    let raw = &ledger.state().raw;
    let mut verdict = |pos: u16, main: CoreConfig, input: CoreConfig| {
        articles.codex.verification_config = main;
        articles.codex.input_config = input;
        let op = transfer(2, &[CellAddr::new(opid, pos)], vec![]);
        articles.try_verify(op, raw).map(|verdict| verdict.is_ok())
    };
    assert_eq!(verdict(0, limited, limited), Some(false));
    assert_eq!(verdict(0, limited, unlimited), None);
    assert_eq!(verdict(0, unlimited, limited), None);
    // No script guards the other cell
    assert_eq!(verdict(1, limited, unlimited), Some(true));
    assert_eq!(verdict(1, unlimited, limited), None);
}
