use sonic::export::{ExportError, ExportPlan};
use sonic::types::{CellAddr, ContractId, Input, Operation, Opid};
use ultrasonic::{fe256, StateValue};

fn half(byte: u8) -> u128 {
    u128::from_be_bytes([byte; 16])
}

fn contract_id() -> ContractId {
    ContractId { hi: half(0xC0), lo: half(0xC0) }
}

fn make_op(nonce: u64, destructible: &[CellAddr], immutable: &[CellAddr]) -> (Opid, Operation) {
    let operation = Operation {
        contract_id: contract_id(),
        call_id: 0,
        nonce: fe256::from(nonce),
        witness: StateValue::None,
        destructible_in: destructible
            .iter()
            .map(|addr| Input { addr: *addr, witness: StateValue::None })
            .collect(),
        immutable_in: immutable.to_vec(),
        destructible_out: vec![],
        immutable_out: vec![],
    };
    (operation.opid(), operation)
}

fn genesis() -> Opid {
    make_op(u64::MAX, &[], &[]).0
}

fn opids(plan: ExportPlan) -> Vec<Opid> {
    plan.operations.into_iter().map(|(opid, _)| opid).collect()
}

#[test]
fn consumer_first_stash_is_dependency_ordered_for_both_input_kinds() {
    let genesis = genesis();
    let (producer_id, producer) = make_op(1, &[CellAddr::new(genesis, 0)], &[]);
    let (middle_id, middle) = make_op(2, &[CellAddr::new(producer_id, 0)], &[]);
    let (consumer_id, consumer) =
        make_op(3, &[CellAddr::new(middle_id, 0)], &[CellAddr::new(producer_id, 1)]);

    let plan = ExportPlan::build(
        vec![(consumer_id, consumer), (middle_id, middle), (producer_id, producer)],
        genesis,
        vec![consumer_id],
    )
    .unwrap();
    assert_eq!(opids(plan), vec![producer_id, middle_id, consumer_id]);
}

#[test]
fn published_seed_gets_its_complete_ancestor_closure() {
    let genesis = genesis();
    let (producer_id, producer) = make_op(1, &[CellAddr::new(genesis, 0)], &[]);
    let (published_id, published) = make_op(2, &[], &[CellAddr::new(producer_id, 0)]);

    let plan = ExportPlan::build(
        vec![(published_id, published), (producer_id, producer)],
        genesis,
        vec![published_id],
    )
    .unwrap();
    assert_eq!(opids(plan), vec![producer_id, published_id]);
}

#[test]
fn unrelated_operations_keep_stash_order() {
    let genesis = genesis();
    let (first_id, first) = make_op(1, &[CellAddr::new(genesis, 0)], &[]);
    let (second_id, second) = make_op(2, &[CellAddr::new(genesis, 1)], &[]);
    let (third_id, third) = make_op(3, &[CellAddr::new(genesis, 2)], &[]);

    let plan = ExportPlan::build(
        vec![(third_id, third), (first_id, first), (second_id, second)],
        genesis,
        vec![third_id, first_id, second_id],
    )
    .unwrap();
    assert_eq!(opids(plan), vec![third_id, first_id, second_id]);
}

#[test]
fn missing_parent_and_mismatched_stash_key_fail_closed() {
    let genesis = genesis();
    let (missing_id, _) = make_op(1, &[CellAddr::new(genesis, 0)], &[]);
    let (consumer_id, consumer) = make_op(2, &[CellAddr::new(missing_id, 0)], &[]);
    let missing =
        ExportPlan::build(vec![(consumer_id, consumer)], genesis, vec![consumer_id]).unwrap_err();
    assert_eq!(missing, ExportError::MissingParent { opid: consumer_id, parent: missing_id });

    let (actual_id, operation) = make_op(3, &[CellAddr::new(genesis, 1)], &[]);
    let wrong_id = make_op(4, &[CellAddr::new(genesis, 2)], &[]).0;
    assert_ne!(actual_id, wrong_id);
    let mismatched =
        ExportPlan::build(vec![(wrong_id, operation)], genesis, vec![wrong_id]).unwrap_err();
    assert_eq!(
        mismatched,
        ExportError::KeyMismatch { stored: wrong_id, committed: actual_id }
    );
}

#[test]
fn duplicate_keys_and_corrupt_cycles_fail_closed() {
    let genesis = genesis();
    let (opid, operation) = make_op(1, &[CellAddr::new(genesis, 0)], &[]);
    let duplicate = ExportPlan::build(
        vec![(opid, operation.duplicate()), (opid, operation)],
        genesis,
        vec![opid],
    )
    .unwrap_err();
    assert_eq!(duplicate, ExportError::DuplicateOperation { opid });

    let first_key = Opid { hi: half(0x01), lo: half(0x01) };
    let second_key = Opid { hi: half(0x02), lo: half(0x02) };
    let (_, first) = make_op(2, &[CellAddr::new(second_key, 0)], &[]);
    let (committed, second) = make_op(3, &[CellAddr::new(first_key, 0)], &[]);
    let first_committed = first.opid();
    assert_ne!(first_committed, committed);
    let cycle = ExportPlan::build(
        vec![(first_key, first), (second_key, second)],
        genesis,
        vec![first_key],
    )
    .unwrap_err();
    assert_eq!(
        cycle,
        ExportError::KeyMismatch { stored: first_key, committed: first_committed }
    );
}

#[test]
fn absent_seed_is_an_error_but_genesis_is_not() {
    let genesis = genesis();
    let (missing_id, _) = make_op(1, &[CellAddr::new(genesis, 0)], &[]);
    assert_eq!(
        ExportPlan::build(vec![], genesis, vec![genesis, missing_id]).unwrap_err(),
        ExportError::MissingOperation { opid: missing_id }
    );
    assert_eq!(opids(ExportPlan::build(vec![], genesis, vec![genesis]).unwrap()), vec![]);
}

#[test]
fn ordered_stash_is_emitted_unchanged() {
    let genesis = genesis();
    let (a_id, a) = make_op(1, &[CellAddr::new(genesis, 0)], &[]);
    let (b_id, b) = make_op(2, &[CellAddr::new(genesis, 1)], &[]);
    let (c_id, c) = make_op(3, &[CellAddr::new(a_id, 0)], &[CellAddr::new(b_id, 0)]);
    let (d_id, d) = make_op(4, &[CellAddr::new(b_id, 0)], &[]);
    let plan = ExportPlan::build(
        vec![(a_id, a), (b_id, b), (c_id, c), (d_id, d)],
        genesis,
        vec![d_id, c_id, b_id, a_id],
    )
    .unwrap();
    assert_eq!(opids(plan), vec![a_id, b_id, c_id, d_id]);
}

#[test]
fn operations_outside_of_the_closure_stay_out() {
    let genesis = genesis();
    let (a_id, a) = make_op(1, &[CellAddr::new(genesis, 0)], &[]);
    let (b_id, b) = make_op(2, &[CellAddr::new(genesis, 1)], &[]);
    let plan = ExportPlan::build(vec![(a_id, a), (b_id, b)], genesis, vec![b_id]).unwrap();
    assert_eq!(opids(plan), vec![b_id]);
}

#[test]
fn first_missing_parent_is_reported() {
    let absent = |lo: u128| CellAddr::new(Opid { hi: 1, lo }, 0);
    let (late_id, late) = make_op(1, &[absent(9)], &[]);
    let (early_id, early) = make_op(2, &[absent(8), absent(5)], &[absent(6)]);
    let (child_id, child) = make_op(3, &[CellAddr::new(late_id, 0)], &[]);
    let stash = vec![(late_id, late), (early_id, early), (child_id, child)];
    // The seeds are looked at before the parents of the first of them
    let error = ExportPlan::build(stash, genesis(), vec![child_id, early_id]).unwrap_err();
    assert_eq!(error, ExportError::MissingParent { opid: early_id, parent: Opid { hi: 1, lo: 5 } });
}
