//! Transfer of a contract: what one side has verified and exported, the other side accepts.

use crate::accept::{
    accept_outcome, accept_step, admitted, admitted_all, announced, law_exported_stream_opens,
    operations_outcome, reads_back, rejected, UpgradeError,
};
use crate::apply::{applied_by, recorded, AcceptError};
use crate::articles::{has_reads, verdict, Articles};
use crate::chain::{law_chain_holds_the_reached, link_path, reached, walk};
use crate::export::{
    ancestor_path, build_outcome, holds, included, stash_of, ExportError, ExportPlan, Stash,
};
use crate::export_laws::{
    is_plan, law_built_plan_is_ordered, law_plan_holds_only_the_closure, law_producers_come_first,
    law_seeds_are_exported,
};
use crate::forward::{accepted, eligible, redone, redone_all, refused};
use crate::history::{
    brings, cell_of, collision_free, comes_from, held_back, is_data, is_output, is_taken,
    law_accept_keeps_contract_settled, law_apply_keeps_contract_settled,
    law_forward_keeps_contract_settled, law_rollback_keeps_contract_settled,
    law_upgrade_keeps_contract_settled, law_valid_operations_determine_memory,
    lemma_fewer_eligible, lemma_redone_order, lemma_undone_frame, op_data, parents_first, rooted,
    settled, taken_cells, takes, traced, undisputed,
};
use crate::ledger::{
    all_known, ancestor_links, descendant_links, genesis_of, issued, MultiError,
};
use crate::ledger_export::{ops_of, opids_of, plain_deeds_bytes, plain_export_outcome};
use crate::processed::{Conversion, StateAtom};
use crate::reader::{readings_by, ApiReader};
use crate::rollback::undone_all;
use crate::state::{Readings, ReadingsView};
use crate::stock::{parent_list, Stock, StockView};
use crate::stream::{operations_bytes, stream_operations};
use crate::types::{CellAddr, ContractId, Operation, OperationView, Opid};
use crate::ultra::committed_opid;
use strict_types::StrictVal;
use ultrasonic::StateData;
use ultrasonic::StateValue;
use vstd::prelude::*;

verus! {

/// The cells which an operation reads, as their operations have defined them.
pub open spec fn read_cells(model: StockView, opid: Opid) -> Map<CellAddr, StateData> {
    Map::new(
        |addr: CellAddr| model.ops[opid].immutable_in.contains(addr),
        |addr: CellAddr| op_data(model, addr.opid).immutable_out[addr.pos as int],
    )
}

/// The codex of the contract accepts the operation with the cells it destroys and reads.
pub open spec fn attested(model: StockView, opid: Opid) -> bool {
    &&& model.ops[opid].contract_id == model.articles.contract_id
    &&& verdict(
        model.articles.codex,
        model.articles.contract_id,
        model.ops[opid],
        taken_cells(model, opid),
        read_cells(model, opid),
        model.articles.codex_libs@,
    ) is Ok
}

/// The codex accepts every valid operation, and the stock enumerates all its operations.
pub open spec fn verified(model: StockView) -> bool {
    &&& forall|x: Opid| #[trigger]
        model.valid.contains(x) && x != genesis_of(model) ==> attested(model, x)
    &&& forall|entry: (Opid, OperationView)| #[trigger]
        model.stash.contains(entry) <==> model.ops.contains_key(entry.0) && model.ops[entry.0]
            == entry.1
}

/// In a contract which has just been issued nothing is left unverified.
pub proof fn law_issued_contract_is_verified(articles: Articles, readings: Option<ReadingsView>)
    ensures
        verified(issued(articles, readings)),
{
}

/// The data of the operations, whose cells an operation takes, are the same in both.
spec fn same_sources(one: StockView, other: StockView, op: OperationView) -> bool {
    &&& forall|addr: CellAddr| #[trigger]
        takes(op, addr) ==> op_data(one, addr.opid) == op_data(other, addr.opid)
    &&& forall|addr: CellAddr| #[trigger]
        op.immutable_in.contains(addr) ==> op_data(one, addr.opid) == op_data(other, addr.opid)
}

/// Both contracts are ruled by the same code.
pub open spec fn same_code(one: Articles, other: Articles) -> bool {
    &&& one.contract_id == other.contract_id
    &&& one.codex == other.codex
    &&& one.codex_libs@ == other.codex_libs@
}

/// The operation is verified with the same cells, wherever its data and those of its parents are the
/// same.
proof fn lemma_attested_elsewhere(one: StockView, other: StockView, x: Opid)
    requires
        attested(one, x),
        one.ops[x] == other.ops[x],
        same_sources(one, other, one.ops[x]),
        same_code(one.articles, other.articles),
    ensures
        attested(other, x),
{
    assert(taken_cells(one, x) =~= taken_cells(other, x));
    assert(read_cells(one, x) =~= read_cells(other, x));
}

/// The parents of a valid operation are valid too.
proof fn lemma_parents_valid(model: StockView, x: Opid, p: Opid)
    requires
        settled(model),
        model.valid.contains(x),
        op_data(model, x).parents().contains(p),
    ensures
        model.valid.contains(p),
{
    let op = op_data(model, x);
    assert(rooted(model, x));
    if exists|i: int| 0 <= i < op.immutable_in.len() && (#[trigger] op.immutable_in[i]).opid == p {
        let i = choose|i: int| 0 <= i < op.immutable_in.len() && (#[trigger] op.immutable_in[i]).opid
            == p;
        assert(model.valid.contains(op.immutable_in[i].opid));
    } else {
        let i = choose|i: int|
            0 <= i < op.destructible_in.len() && (#[trigger] op.destructible_in[i]).addr.opid == p;
        assert(takes(op, op.destructible_in[i].addr));
    }
}

/// The cells which an operation takes belong to its parents.
proof fn lemma_taken_from_parents(op: OperationView)
    ensures
        forall|addr: CellAddr| #[trigger] takes(op, addr) ==> op.parents().contains(addr.opid),
        forall|addr: CellAddr| #[trigger]
            op.immutable_in.contains(addr) ==> op.parents().contains(addr.opid),
{
    assert forall|addr: CellAddr| #[trigger] takes(op, addr) implies op.parents().contains(
        addr.opid,
    ) by {
        let i = choose|i: int|
            0 <= i < op.destructible_in.len() && (#[trigger] op.destructible_in[i]).addr == addr;
        assert(op.destructible_in[i].addr.opid == addr.opid);
    }
    assert forall|addr: CellAddr| #[trigger] op.immutable_in.contains(addr) implies op.parents().contains(
        addr.opid,
    ) by {
        let i = choose|i: int| 0 <= i < op.immutable_in.len() && op.immutable_in[i] == addr;
        assert(op.immutable_in[i].opid == addr.opid);
    }
}

/// An operation which the contract accepts is verified, and leaves the earlier ones verified.
pub proof fn law_apply_keeps_operations_verified(
    before: StockView,
    after: StockView,
    opid: Opid,
    op: OperationView,
    readings: Option<Readings>,
)
    requires
        settled(before),
        verified(before),
        recorded(before, after, opid, op, false, readings),
        op.well_formed(),
        op.distinct_inputs(),
        committed_opid(op) == opid,
        !before.valid.contains(opid),
        before.ops.contains_key(opid) ==> before.ops[opid] == op,
        accepted(before, op),
        before.state.raw.has_inputs(op),
        has_reads(before.state.raw, op),
    ensures
        verified(after),
{
    law_apply_keeps_contract_settled(before, after, opid, op, readings);
    assert(genesis_of(after) == genesis_of(before));
    assert(opid != genesis_of(before));
    assert forall|x: Opid| before.valid.contains(x) implies #[trigger] op_data(after, x) == op_data(
        before,
        x,
    ) by {}
    assert forall|x: Opid| #[trigger] after.valid.contains(x) && x != genesis_of(
        after,
    ) implies attested(after, x) by {
        if x == opid {
            assert(after.ops[x] == op);
            assert forall|addr: CellAddr| #[trigger] takes(op, addr) implies before.state.raw.owned.contains_key(
                addr,
            ) by {
                let i = choose|i: int|
                    0 <= i < op.destructible_in.len() && (#[trigger] op.destructible_in[i]).addr
                        == addr;
                assert(before.state.raw.owned.contains_key(op.destructible_in[i].addr));
            }
            assert forall|addr: CellAddr| #[trigger]
                op.immutable_in.contains(addr) implies before.state.raw.global.contains_key(addr) by {
                let i = choose|i: int| 0 <= i < op.immutable_in.len() && op.immutable_in[i] == addr;
                assert(before.state.raw.global.contains_key(op.immutable_in[i]));
            }
            assert(before.state.raw.taken_by(op) =~= taken_cells(after, x));
            assert(before.state.raw.read_by(op) =~= read_cells(after, x)) by {
                assert forall|addr: CellAddr| op.immutable_in.to_set().contains(addr)
                    == op.immutable_in.contains(addr) by {}
            }
        } else {
            assert(before.valid.contains(x));
            assert(before.ops.contains_key(x));
            lemma_taken_from_parents(before.ops[x]);
            assert forall|p: Opid| before.ops[x].parents().contains(p) implies before.valid.contains(
                p,
            ) by {
                lemma_parents_valid(before, x, p);
            }
            lemma_attested_elsewhere(before, after, x);
        }
    }
    assert forall|entry: (Opid, OperationView)| #[trigger]
        after.stash.contains(entry) <==> after.ops.contains_key(entry.0) && after.ops[entry.0]
            == entry.1 by {
        assert(before.stash.contains(entry) <==> before.ops.contains_key(entry.0)
            && before.ops[entry.0] == entry.1);
    }
}

/// The rollback of operations leaves the other ones verified.
pub proof fn law_rollback_keeps_operations_verified<
    G: Fn(usize, &StateData) -> Conversion<StateAtom>,
    O: Fn(usize, StateValue) -> Conversion<StrictVal>,
>(before: StockView, after: StockView, opids: Seq<Opid>, reader: ApiReader<G, O>)
    requires
        verified(before),
        undone_all(before, after, opids, reader),
    ensures
        verified(after),
{
    lemma_undone_frame(before, after, opids, reader);
    assert forall|x: Opid| #[trigger] after.valid.contains(x) && x != genesis_of(
        after,
    ) implies attested(after, x) by {
        assert(before.valid.contains(x));
        assert(taken_cells(before, x) =~= taken_cells(after, x));
        assert(read_cells(before, x) =~= read_cells(after, x));
    }
}

/// Operations which are brought back are verified.
pub proof fn law_forward_keeps_operations_verified<
    G: Fn(usize, &StateData) -> Conversion<StateAtom>,
    O: Fn(usize, StateValue) -> Conversion<StrictVal>,
>(before: StockView, after: StockView, opids: Seq<Opid>, reader: ApiReader<G, O>)
    requires
        settled(before),
        verified(before),
        all_known(before, opids),
        opids.no_duplicates(),
        forall|i: int| 0 <= i < opids.len() ==> !before.valid.contains(#[trigger] opids[i]),
        redone_all(before, after, opids, reader),
    ensures
        verified(after),
    decreases opids.len(),
{
    if opids.len() > 0 {
        let less = opids.drop_last();
        let x = opids.last();
        let mid = choose|mid: StockView|
            redone_all(before, mid, less, reader) && #[trigger] redone(mid, after, x, reader);
        assert forall|i: int| 0 <= i < less.len() implies before.known(#[trigger] less[i]) by {
            assert(before.known(opids[i]));
        }
        assert forall|i: int| 0 <= i < less.len() implies !before.valid.contains(#[trigger] less[i]) by {
            assert(!before.valid.contains(opids[i]));
        }
        law_forward_keeps_contract_settled(before, mid, less, reader);
        law_forward_keeps_operations_verified(before, mid, less, reader);
        if eligible(mid, x) {
            let op = choose|op: Operation|
                {
                    &&& op@ == mid.ops[x]
                    &&& accepted(mid, op@)
                    &&& mid.state.raw.has_inputs(op@)
                    &&& has_reads(mid.state.raw, op@)
                    &&& #[trigger] applied_by(mid, after, x, op, false, reader)
                };
            let readings = choose|readings: Option<Readings>| #[trigger]
                readings_by(reader, mid.articles.semantics, op, readings) && recorded(
                    mid,
                    after,
                    x,
                    op@,
                    false,
                    readings,
                );
            assert(before.known(opids[opids.len() - 1]));
            assert(!before.valid.contains(opids[opids.len() - 1]));
            assert(!mid.valid.contains(x)) by {
                if less.contains(x) {
                    let k = choose|k: int| 0 <= k < less.len() && less[k] == x;
                    assert(opids[k] == opids[opids.len() - 1]);
                }
            }
            assert(mid.ops.contains_key(x));
            law_apply_keeps_operations_verified(mid, after, x, op@, readings);
        }
    }
}

/// Operations of a stream which the contract accepts are verified.
pub proof fn law_accept_keeps_operations_verified<
    G: Fn(usize, &StateData) -> Conversion<StateAtom>,
    O: Fn(usize, StateValue) -> Conversion<StrictVal>,
>(before: StockView, after: StockView, ops: Seq<OperationView>, reader: ApiReader<G, O>)
    requires
        settled(before),
        verified(before),
        forall|i: int|
            0 <= i < ops.len() ==> (#[trigger] ops[i]).well_formed() && ops[i].distinct_inputs(),
        collision_free(before, ops),
        admitted_all(before, after, ops, reader),
    ensures
        verified(after),
    decreases ops.len(),
{
    if ops.len() > 0 {
        let less = ops.drop_last();
        let op = ops.last();
        let id = committed_opid(op);
        let mid = choose|mid: StockView|
            admitted_all(before, mid, less, reader) && #[trigger] admitted(mid, after, op, reader);
        lemma_shorter_list(before, ops, (ops.len() - 1) as nat);
        assert(ops.take(ops.len() - 1) =~= less);
        law_accept_keeps_contract_settled(before, mid, less, reader);
        law_accept_keeps_operations_verified(before, mid, less, reader);
        let n = ops.len() - 1;
        assert(ops[n] == op);
        if !(op.contract_id == mid.articles.contract_id && mid.valid.contains(id)) {
            let operation = choose|operation: Operation|
                {
                    &&& operation@ == op
                    &&& accepted(mid, op)
                    &&& mid.state.raw.has_inputs(op)
                    &&& has_reads(mid.state.raw, op)
                    &&& #[trigger] applied_by(mid, after, id, operation, false, reader)
                };
            let readings = choose|readings: Option<Readings>| #[trigger]
                readings_by(reader, mid.articles.semantics, operation, readings) && recorded(
                    mid,
                    after,
                    id,
                    op,
                    false,
                    readings,
                );
            lemma_same_version(before, mid, ops, n);
            law_apply_keeps_operations_verified(mid, after, id, op, readings);
        }
    }
}

/// The first operations of a list are as good as the list.
proof fn lemma_shorter_list(model: StockView, ops: Seq<OperationView>, n: nat)
    requires
        n <= ops.len(),
        forall|i: int|
            0 <= i < ops.len() ==> (#[trigger] ops[i]).well_formed() && ops[i].distinct_inputs(),
        collision_free(model, ops),
    ensures
        forall|i: int|
            0 <= i < n ==> (#[trigger] ops.take(n as int)[i]).well_formed() && ops.take(
                n as int,
            )[i].distinct_inputs(),
        collision_free(model, ops.take(n as int)),
{
    let less = ops.take(n as int);
    assert forall|i: int| 0 <= i < n implies (#[trigger] less[i]).well_formed()
        && less[i].distinct_inputs() by {
        assert(ops[i].well_formed());
    }
    assert forall|i: int|
        0 <= i < less.len() && model.ops.contains_key(
            committed_opid(#[trigger] less[i]),
        ) implies model.ops[committed_opid(less[i])] == less[i] by {
        assert(ops[i] == less[i]);
    }
    assert forall|i: int, j: int|
        0 <= i < less.len() && 0 <= j < less.len() && committed_opid(#[trigger] less[i])
            == committed_opid(#[trigger] less[j]) implies less[i] == less[j] by {
        assert(ops[i] == less[i] && ops[j] == less[j]);
    }
}

/// An operation of a list, which is known already, is known with the same data.
proof fn lemma_same_version(before: StockView, mid: StockView, ops: Seq<OperationView>, n: int)
    requires
        0 <= n < ops.len(),
        collision_free(before, ops),
        forall|id: Opid| #[trigger]
            mid.ops.contains_key(id) ==> comes_from(before, ops.take(n), id, mid.ops[id]),
    ensures
        mid.ops.contains_key(committed_opid(ops[n])) ==> mid.ops[committed_opid(ops[n])] == ops[n],
{
    let id = committed_opid(ops[n]);
    if mid.ops.contains_key(id) {
        let known = mid.ops[id];
        assert(comes_from(before, ops.take(n), id, known));
        if !(before.ops.contains_key(id) && before.ops[id] == known) {
            let less = ops.take(n);
            let i = choose|i: int|
                0 <= i < less.len() && committed_opid(#[trigger] less[i]) == id && less[i] == known;
            assert(ops[i] == less[i]);
            assert(committed_opid(ops[i]) == committed_opid(ops[n]));
        }
    }
}

/// The contract is a younger copy of the other one: all its valid operations are valid there.
pub open spec fn follows(source: StockView, model: StockView) -> bool {
    &&& same_code(source.articles, model.articles)
    &&& source.articles.genesis@ == model.articles.genesis@
    &&& forall|x: Opid| #[trigger]
        model.valid.contains(x) ==> source.valid.contains(x) && op_data(model, x) == op_data(source, x)
}

/// An operation which is valid in a contract is accepted by any copy of the contract, where the
/// parents of the operation are valid.
pub proof fn law_verified_operation_is_accepted(source: StockView, model: StockView, x: Opid)
    requires
        settled(source),
        verified(source),
        settled(model),
        follows(source, model),
        source.valid.contains(x),
        !model.valid.contains(x),
        forall|p: Opid| #[trigger]
            source.ops[x].parents().contains(p) ==> model.valid.contains(p),
    ensures
        accepted(model, source.ops[x]),
        model.state.raw.has_inputs(source.ops[x]),
        has_reads(model.state.raw, source.ops[x]),
        forall|reason: AcceptError| !#[trigger] refused(model, source.ops[x], reason),
{
    let op = source.ops[x];
    let raw = model.state.raw;
    assert(genesis_of(model) == genesis_of(source));
    assert(x != genesis_of(source));
    assert(attested(source, x) && traced(source, x) && rooted(source, x));
    assert(op_data(source, x) == op);
    lemma_taken_from_parents(op);
    assert forall|addr: CellAddr| #[trigger] takes(op, addr) implies raw.owned.contains_key(addr)
        && raw.owned[addr] == cell_of(source, addr) by {
        assert(op.parents().contains(addr.opid));
        assert(model.valid.contains(addr.opid));
        assert(op_data(model, addr.opid) == op_data(source, addr.opid));
        assert(is_output(source, addr));
        if is_taken(model, addr) {
            let y = choose|y: Opid| #[trigger]
                model.valid.contains(y) && takes(op_data(model, y), addr);
            assert(source.valid.contains(y));
            assert(rooted(source, y));
            assert(takes(op_data(source, y), addr));
            assert(source.spent[addr] == y);
            assert(takes(op_data(source, x), addr));
            assert(source.spent[addr] == x);
        }
    }
    assert forall|addr: CellAddr| #[trigger] op.immutable_in.contains(addr) implies raw.global.contains_key(
        addr,
    ) && raw.global[addr] == read_cells(source, x)[addr] by {
        assert(op.parents().contains(addr.opid));
        assert(model.valid.contains(addr.opid));
        assert(op_data(model, addr.opid) == op_data(source, addr.opid));
        let i = choose|i: int| 0 <= i < op.immutable_in.len() && op.immutable_in[i] == addr;
        assert(is_data(source, op.immutable_in[i]));
    }
    assert forall|i: int| 0 <= i < op.destructible_in.len() implies raw.owned.contains_key(
        (#[trigger] op.destructible_in[i]).addr,
    ) by {
        assert(takes(op, op.destructible_in[i].addr));
    }
    assert forall|i: int| 0 <= i < op.immutable_in.len() implies raw.global.contains_key(
        #[trigger] op.immutable_in[i],
    ) by {
        assert(op.immutable_in.contains(op.immutable_in[i]));
    }
    assert(raw.taken_by(op) =~= taken_cells(source, x));
    assert(raw.read_by(op) =~= read_cells(source, x)) by {
        assert forall|addr: CellAddr| op.immutable_in.to_set().contains(addr)
            == op.immutable_in.contains(addr) by {}
    }
}

/// The plan of an export holds nothing but valid operations.
pub open spec fn exports_valid(source: StockView, plan: Stash) -> bool {
    forall|k: int| 0 <= k < plan.len() ==> source.valid.contains((#[trigger] plan[k]).0)
}

/// The operations of a plan are those of the stock.
proof fn lemma_plan_operations(source: StockView, seeds: Seq<Opid>, plan: Stash, k: int)
    requires
        settled(source),
        verified(source),
        is_plan(source.stash, genesis_of(source), seeds, plan),
        0 <= k < plan.len(),
    ensures
        plan[k].0 != genesis_of(source),
        source.ops.contains_key(plan[k].0),
        source.ops[plan[k].0] == plan[k].1,
        committed_opid(plan[k].1) == plan[k].0,
        plan[k].1.well_formed(),
        plan[k].1.distinct_inputs(),
{
    law_plan_holds_only_the_closure(source.stash, genesis_of(source), seeds, plan, k);
    let i = choose|i: int| #[trigger]
        included(source.stash, genesis_of(source), seeds, i) && plan[k]
            == source.stash[i];
    let path = choose|path: Seq<int>| #[trigger]
        ancestor_path(source.stash, genesis_of(source), seeds, path) && path.last()
            == i;
    assert(path[path.len() - 1] == i);
    assert(source.stash[i] == plan[k]);
    assert(source.stash.contains(plan[k]));
}

/// A copy of a contract, which has accepted the first operations of an export, still follows the
/// contract.
proof fn lemma_copy_follows<
    G: Fn(usize, &StateData) -> Conversion<StateAtom>,
    O: Fn(usize, StateValue) -> Conversion<StrictVal>,
>(
    source: StockView,
    start: StockView,
    mid: StockView,
    seeds: Seq<Opid>,
    plan: Stash,
    n: nat,
    reader: ApiReader<G, O>,
)
    requires
        settled(source),
        verified(source),
        is_plan(source.stash, genesis_of(source), seeds, plan),
        exports_valid(source, plan),
        settled(start),
        follows(source, start),
        collision_free(start, ops_of(plan)),
        n <= plan.len(),
        admitted_all(start, mid, ops_of(plan).take(n as int), reader),
    ensures
        settled(mid),
        follows(source, mid),
        mid.articles == start.articles,
        forall|id: Opid| #[trigger]
            mid.valid.contains(id) <==> start.valid.contains(id) || brings(
                ops_of(plan).take(n as int),
                id,
            ),
        forall|id: Opid| #[trigger]
            mid.ops.contains_key(id) ==> comes_from(
                start,
                ops_of(plan).take(n as int),
                id,
                mid.ops[id],
            ),
{
    let ops = ops_of(plan);
    let less = ops.take(n as int);
    assert forall|i: int| 0 <= i < ops.len() implies (#[trigger] ops[i]).well_formed()
        && ops[i].distinct_inputs() by {
        lemma_plan_operations(source, seeds, plan, i);
        assert(ops[i] == plan[i].1);
    }
    lemma_shorter_list(start, ops, n);
    law_accept_keeps_contract_settled(start, mid, less, reader);
    assert(genesis_of(mid) == genesis_of(source));
    assert forall|x: Opid| #[trigger] mid.valid.contains(x) implies source.valid.contains(x) && op_data(
        mid,
        x,
    ) == op_data(source, x) by {
        if brings(less, x) {
            let i = choose|i: int| 0 <= i < less.len() && committed_opid(#[trigger] less[i]) == x;
            assert(less[i] == ops[i]);
            lemma_plan_operations(source, seeds, plan, i);
            assert(ops[i] == plan[i].1);
            assert(source.valid.contains(plan[i].0));
            assert(mid.ops.contains_key(x));
            let known = mid.ops[x];
            assert(comes_from(start, less, x, known));
            if start.ops.contains_key(x) {
                assert(start.ops[committed_opid(ops[i])] == ops[i]);
            }
            if !(start.ops.contains_key(x) && start.ops[x] == known) {
                let j = choose|j: int|
                    0 <= j < less.len() && committed_opid(#[trigger] less[j]) == x && less[j]
                        == known;
                assert(less[j] == ops[j]);
                assert(committed_opid(ops[i]) == committed_opid(ops[j]));
            }
        } else {
            assert(start.valid.contains(x));
            if x != genesis_of(source) {
                assert(start.ops.contains_key(x));
                assert(op_data(mid, x) == op_data(start, x));
            }
        }
    }
}

/// A copy of a contract rejects no operation of an export, as long as the exported operations are
/// valid.
pub proof fn law_export_is_never_rejected<
    G: Fn(usize, &StateData) -> Conversion<StateAtom>,
    O: Fn(usize, StateValue) -> Conversion<StrictVal>,
>(
    source: StockView,
    start: StockView,
    mid: StockView,
    seeds: Seq<Opid>,
    plan: Stash,
    n: nat,
    reader: ApiReader<G, O>,
    reason: AcceptError,
)
    requires
        settled(source),
        verified(source),
        is_plan(source.stash, genesis_of(source), seeds, plan),
        exports_valid(source, plan),
        settled(start),
        follows(source, start),
        collision_free(start, ops_of(plan)),
        n < plan.len(),
        admitted_all(start, mid, ops_of(plan).take(n as int), reader),
    ensures
        !rejected(mid, plan[n as int].1, reason),
{
    let ops = ops_of(plan);
    let less = ops.take(n as int);
    let (x, op) = plan[n as int];
    lemma_copy_follows(source, start, mid, seeds, plan, n, reader);
    lemma_plan_operations(source, seeds, plan, n as int);
    assert(source.valid.contains(plan[n as int].0));
    assert(attested(source, x));
    if !mid.valid.contains(x) {
        assert forall|p: Opid| #[trigger] source.ops[x].parents().contains(p) implies mid.valid.contains(
            p,
        ) by {
            if p != genesis_of(source) {
                law_producers_come_first(
                    source.stash,
                    genesis_of(source),
                    seeds,
                    plan,
                    n as int,
                    p,
                );
                let j = choose|j: int| 0 <= j < n && (#[trigger] plan[j]).0 == p;
                lemma_plan_operations(source, seeds, plan, j);
                assert(less[j] == plan[j].1);
                assert(brings(less, p));
            } else {
                assert(mid.valid.contains(genesis_of(mid)));
            }
        }
        law_verified_operation_is_accepted(source, mid, x);
        assert(!refused(mid, source.ops[x], reason));
    }
}

/// Operations which were rolled back are never refused when they are brought back right after, wherever
/// the chain of the descendants is in the order of dependence.
pub proof fn law_forward_after_rollback_is_never_refused<
    G: Fn(usize, &StateData) -> Conversion<StateAtom>,
    O: Fn(usize, StateValue) -> Conversion<StrictVal>,
    H: Fn(usize, &StateData) -> Conversion<StateAtom>,
    P: Fn(usize, StateValue) -> Conversion<StrictVal>,
>(
    before: StockView,
    mid: StockView,
    at: StockView,
    seeds: Seq<Opid>,
    chain: Seq<Opid>,
    n: int,
    back: ApiReader<G, O>,
    forth: ApiReader<H, P>,
    reason: AcceptError,
)
    requires
        settled(before),
        verified(before),
        all_known(before, chain),
        undisputed(before, chain),
        held_back(before, chain),
        walk(seeds, descendant_links(before), chain),
        parents_first(before, chain),
        undone_all(before, mid, chain.reverse(), back),
        0 <= n < chain.len(),
        redone_all(mid, at, chain.take(n), forth),
        eligible(at, chain[n]),
    ensures
        !refused(at, at.ops[chain[n]], reason),
{
    let x = chain[n];
    law_chain_holds_the_reached(seeds, descendant_links(before), chain);
    law_rollback_keeps_contract_settled(before, mid, seeds, chain, back);
    lemma_undone_frame(before, mid, chain.reverse(), back);
    lemma_redone_order(before, mid, at, seeds, chain, forth, n);
    assert(at.valid.subset_of(before.valid));
    if !before.valid.contains(x) {
        assert(!eligible(before, chain[n]));
        lemma_fewer_eligible(before, at, x);
    }
    assert(before.known(chain[n]));
    assert(!at.valid.contains(x)) by {
        let done = chain.take(n);
        if done.contains(x) {
            let k = choose|k: int| 0 <= k < done.len() && done[k] == x;
            assert(chain[k] == chain[n]);
        }
        assert(chain.contains(x));
    }
    assert(follows(before, at));
    assert forall|p: Opid| #[trigger] before.ops[x].parents().contains(p) implies at.valid.contains(p) by {
        lemma_parent_reached(at, x, p);
        assert(traced(before, x));
        lemma_parents_valid(before, x, p);
        if p == x {
            assert(before.ops[chain[n]].parents().contains(chain[n]));
        }
    }
    law_verified_operation_is_accepted(before, at, x);
}

/// A parent is an ancestor.
proof fn lemma_parent_reached(model: StockView, x: Opid, p: Opid)
    requires
        x != genesis_of(model),
        model.ops[x].parents().contains(p),
    ensures
        reached(seq![x], ancestor_links(model), p),
{
    let op = model.ops[x];
    let list = parent_list(op);
    let path = seq![x, p];
    if exists|i: int| 0 <= i < op.immutable_in.len() && (#[trigger] op.immutable_in[i]).opid == p {
        let i = choose|i: int| 0 <= i < op.immutable_in.len() && (#[trigger] op.immutable_in[i]).opid
            == p;
        assert(list[i] == p);
    } else {
        let i = choose|i: int|
            0 <= i < op.destructible_in.len() && (#[trigger] op.destructible_in[i]).addr.opid == p;
        assert(list[op.immutable_in.len() + i] == p);
    }
    assert(seq![x][0] == x);
    assert(seq![x].contains(path[0]));
    assert(ancestor_links(model)(path[0]).contains(path[1]));
    assert(link_path(seq![x], ancestor_links(model), path));
    assert(path.last() == p);
}

/// The later contract has no operations but those of the earlier one and of the source.
pub open spec fn adds_only(source: StockView, before: StockView, after: StockView) -> bool {
    forall|x: Opid| #[trigger]
        after.ops.contains_key(x) ==> before.ops.contains_key(x) || source.ops.contains_key(x)
}

/// What was exported is accepted: a copy of a contract, which reads the operations of an export,
/// rejects none of them, makes all of them valid, and no others.
pub proof fn law_exported_operations_are_accepted<
    S: Stock,
    G: Fn(usize, &StateData) -> Conversion<StateAtom>,
    O: Fn(usize, StateValue) -> Conversion<StrictVal>,
>(
    source: StockView,
    start: StockView,
    after: StockView,
    seeds: Seq<Opid>,
    plan: Stash,
    reader: ApiReader<G, O>,
    r: Result<(), MultiError<AcceptError, S::Error>>,
)
    requires
        settled(source),
        verified(source),
        is_plan(source.stash, genesis_of(source), seeds, plan),
        exports_valid(source, plan),
        settled(start),
        follows(source, start),
        collision_free(start, ops_of(plan)),
        stream_operations(operations_bytes(ops_of(plan)), plan.len() + 1) == (ops_of(plan), false),
        operations_outcome::<S, G, O>(
            start,
            after,
            operations_bytes(ops_of(plan)),
            plan.len() + 1,
            reader,
            r,
        ),
    ensures
        r !is Err || r->Err_0 is B,
        r is Ok ==> settled(after) && follows(source, after) && after.valid == start.valid.union(
            opids_of(plan).to_set(),
        ),
        r is Ok ==> adds_only(source, start, after),
{
    let ops = ops_of(plan);
    if let Err(MultiError::A(reason)) = r {
        let i = choose|i: int|
            {
                &&& 0 <= i < ops.len()
                &&& admitted_all(start, after, #[trigger] ops.take(i), reader)
                &&& rejected(after, ops[i], reason)
            };
        law_export_is_never_rejected(source, start, after, seeds, plan, i as nat, reader, reason);
    }
    if r is Ok {
        assert(ops.take(plan.len() as int) =~= ops);
        lemma_copy_follows(source, start, after, seeds, plan, plan.len(), reader);
        assert forall|x: Opid| #[trigger] opids_of(plan).to_set().contains(x) <==> brings(ops, x) by {
            if opids_of(plan).contains(x) {
                let k = choose|k: int| 0 <= k < plan.len() && opids_of(plan)[k] == x;
                lemma_plan_operations(source, seeds, plan, k);
                assert(ops[k] == plan[k].1);
            }
            if brings(ops, x) {
                let k = choose|k: int| 0 <= k < ops.len() && committed_opid(#[trigger] ops[k]) == x;
                lemma_plan_operations(source, seeds, plan, k);
                assert(opids_of(plan)[k] == x);
            }
        }
        assert(after.valid =~= start.valid.union(opids_of(plan).to_set()));
        assert forall|x: Opid| #[trigger] after.ops.contains_key(x) implies start.ops.contains_key(x)
            || source.ops.contains_key(x) by {
            let known = after.ops[x];
            assert(comes_from(start, ops, x, known));
            if !(start.ops.contains_key(x) && start.ops[x] == known) {
                let k = choose|k: int|
                    0 <= k < ops.len() && committed_opid(#[trigger] ops[k]) == x && ops[k] == known;
                lemma_plan_operations(source, seeds, plan, k);
                assert(ops[k] == plan[k].1);
            }
        }
    }
}

/// An upgrade keeps the code of the contract and its genesis, and never fails.
pub open spec fn upgrades_gently<
    U: Fn(&Articles, Articles) -> Result<(Articles, bool), UpgradeError>,
>(upgrade: U, articles: Articles, new_articles: Articles) -> bool {
    forall|outcome: Result<(Articles, bool), UpgradeError>| #[trigger]
        call_ensures(upgrade, (&articles, new_articles), outcome) ==> (outcome matches Ok((
            upgraded,
            _,
        )) && same_code(articles, upgraded) && upgraded.genesis@ == articles.genesis@)
}

/// A stream which was exported is accepted: a younger copy of the contract, which reads the stream,
/// rejects nothing in it; unless the storage fails, all the operations of the stream become valid, and
/// no others.
pub proof fn law_exported_stream_is_accepted<
    S: Stock,
    G: Fn(usize, &StateData) -> Conversion<StateAtom>,
    O: Fn(usize, StateValue) -> Conversion<StrictVal>,
    U: Fn(&Articles, Articles) -> Result<(Articles, bool), UpgradeError>,
>(
    source: StockView,
    before: StockView,
    after: StockView,
    seeds: Seq<Opid>,
    plan: Stash,
    id: ContractId,
    written: Seq<u8>,
    articles: Articles,
    end: usize,
    upgrade: U,
    reader: ApiReader<G, O>,
    r: Result<(), MultiError<AcceptError, S::Error>>,
)
    requires
        settled(source),
        verified(source),
        is_plan(source.stash, genesis_of(source), seeds, plan),
        exports_valid(source, plan),
        plan.len() <= u32::MAX,
        settled(before),
        follows(source, before),
        collision_free(before, ops_of(plan)),
        end == 34 + written.len(),
        reads_back(plain_deeds_bytes(id, written, ops_of(plan)), end as nat),
        upgrades_gently(upgrade, before.articles, articles),
        accept_outcome::<S, G, O, U>(
            before,
            after,
            plain_deeds_bytes(id, written, ops_of(plan)),
            Ok((articles, end)),
            upgrade,
            reader,
            r,
        ),
    ensures
        r matches Err(MultiError::A(reason)) ==> reason is Persistence,
        r is Ok ==> settled(after) && follows(source, after) && after.valid == before.valid.union(
            opids_of(plan).to_set(),
        ),
        r is Ok ==> adds_only(source, before, after),
{
    let ops = ops_of(plan);
    let bytes = plain_deeds_bytes(id, written, ops);
    assert forall|k: int| 0 <= k < ops.len() implies (#[trigger] ops[k]).well_formed() by {
        lemma_plan_operations(source, seeds, plan, k);
    }
    law_exported_stream_opens(id, written, ops);
    let outcome = choose|outcome: Result<(Articles, bool), UpgradeError>|
        {
            &&& #[trigger] call_ensures(upgrade, (&before.articles, articles), outcome)
            &&& accept_step::<S, G, O>(before, after, bytes, end, outcome, reader, r)
        };
    let upgraded = outcome->Ok_0.0;
    let start = StockView { articles: upgraded, ..before };
    law_upgrade_keeps_contract_settled(before, upgraded);
    assert(follows(source, start)) by {
        assert forall|x: Opid| #[trigger] start.valid.contains(x) implies source.valid.contains(x)
            && op_data(start, x) == op_data(source, x) by {
            assert(before.valid.contains(x));
        }
    }
    assert(collision_free(start, ops));
    assert(announced(bytes, end as nat) == Some(ops.len()));
    assert(bytes.skip(end as int + 4) == operations_bytes(ops));
    if !(r matches Err(MultiError::A(AcceptError::Persistence(_)))) {
        law_exported_operations_are_accepted::<S, G, O>(
            source,
            start,
            after,
            seeds,
            plan,
            reader,
            r,
        );
    }
}

/// A younger copy of a contract, which has accepted all the operations of the contract, has the
/// memory of the contract.
pub proof fn law_accepted_export_restores_memory<
    G: Fn(usize, &StateData) -> Conversion<StateAtom>,
    O: Fn(usize, StateValue) -> Conversion<StrictVal>,
>(source: StockView, start: StockView, after: StockView, plan: Stash, reader: ApiReader<G, O>)
    requires
        settled(source),
        verified(source),
        is_plan(source.stash, genesis_of(source), opids_of(source.stash), plan),
        exports_valid(source, plan),
        settled(start),
        follows(source, start),
        collision_free(start, ops_of(plan)),
        admitted_all(start, after, ops_of(plan), reader),
    ensures
        after.valid == source.valid,
        after.state.raw.owned == source.state.raw.owned,
        after.state.raw.global == source.state.raw.global,
{
    let ops = ops_of(plan);
    let genesis = genesis_of(source);
    let seeds = opids_of(source.stash);
    assert(ops.take(plan.len() as int) =~= ops);
    lemma_copy_follows(source, start, after, seeds, plan, plan.len(), reader);
    assert forall|x: Opid| #[trigger] source.valid.contains(x) implies after.valid.contains(x) by {
        if x != genesis {
            let entry = (x, source.ops[x]);
            assert(source.stash.contains(entry));
            let i = choose|i: int| 0 <= i < source.stash.len() && source.stash[i] == entry;
            assert(seeds[i] == x);
            assert(holds(source.stash, x));
            law_seeds_are_exported(source.stash, genesis, seeds, plan, x);
            let k = choose|k: int| 0 <= k < plan.len() && (#[trigger] plan[k]).0 == x;
            lemma_plan_operations(source, seeds, plan, k);
            assert(ops[k] == plan[k].1);
            assert(brings(ops, x));
        } else {
            assert(after.valid.contains(genesis_of(after)));
        }
    }
    assert(after.valid =~= source.valid);
    law_valid_operations_determine_memory(after, source);
}

/// What one ledger exports, another one accepts: a younger copy of a contract, all the operations of
/// which are valid, rejects nothing in an exported stream. Unless the storage fails, the exported
/// operations become valid; where all of them were exported, the copy has the memory of the contract.
pub proof fn law_export_then_accept<
    S: Stock,
    G: Fn(usize, &StateData) -> Conversion<StateAtom>,
    O: Fn(usize, StateValue) -> Conversion<StrictVal>,
    U: Fn(&Articles, Articles) -> Result<(Articles, bool), UpgradeError>,
>(
    source: StockView,
    before: StockView,
    after: StockView,
    seeds: Seq<Opid>,
    id: ContractId,
    written: Seq<u8>,
    stream: Vec<u8>,
    articles: Articles,
    end: usize,
    upgrade: U,
    reader: ApiReader<G, O>,
    r: Result<(), MultiError<AcceptError, S::Error>>,
)
    requires
        settled(source),
        verified(source),
        forall|x: Opid| #[trigger] source.ops.contains_key(x) ==> source.valid.contains(x),
        plain_export_outcome(source, id, written, seeds, Ok(stream)),
        settled(before),
        follows(source, before),
        forall|x: Opid| #[trigger]
            before.ops.contains_key(x) && source.ops.contains_key(x) ==> before.ops[x]
                == source.ops[x],
        end == 34 + written.len(),
        reads_back(stream@, end as nat),
        upgrades_gently(upgrade, before.articles, articles),
        accept_outcome::<S, G, O, U>(
            before,
            after,
            stream@,
            Ok((articles, end)),
            upgrade,
            reader,
            r,
        ),
    ensures
        r matches Err(MultiError::A(reason)) ==> reason is Persistence,
        r is Ok ==> {
            &&& settled(after)
            &&& follows(source, after)
            &&& before.valid.subset_of(after.valid)
            &&& forall|x: Opid| #[trigger]
                seeds.contains(x) && holds(source.stash, x) && x != genesis_of(source)
                    ==> after.valid.contains(x)
            &&& adds_only(source, before, after)
        },
        r is Ok && seeds == opids_of(source.stash) ==> {
            &&& after.valid == source.valid
            &&& after.state.raw.owned == source.state.raw.owned
            &&& after.state.raw.global == source.state.raw.global
        },
{
    let genesis = genesis_of(source);
    let built = choose|built: Result<ExportPlan, ExportError>|
        {
            &&& #[trigger] build_outcome(source.stash, genesis, seeds, built)
            &&& match built {
                Err(e) => Ok::<Vec<u8>, ExportError>(stream) == Err::<Vec<u8>, ExportError>(e),
                Ok(plan) => if plan.operations@.len() > u32::MAX {
                    Ok::<Vec<u8>, ExportError>(stream) == Err::<Vec<u8>, ExportError>(
                        ExportError::TooManyOperations,
                    )
                } else {
                    stream@ == plain_deeds_bytes(
                        id,
                        written,
                        ops_of(stash_of(plan.operations@)),
                    )
                },
            }
        };
    let plan = stash_of(built->Ok_0.operations@);
    law_built_plan_is_ordered(source.stash, genesis, seeds, built->Ok_0);
    assert(is_plan(source.stash, genesis, seeds, plan));
    let ops = ops_of(plan);
    assert forall|k: int| 0 <= k < plan.len() implies source.valid.contains((#[trigger] plan[k]).0) by {
        lemma_plan_operations(source, seeds, plan, k);
    }
    assert(collision_free(before, ops)) by {
        assert forall|i: int|
            0 <= i < ops.len() && before.ops.contains_key(
                committed_opid(#[trigger] ops[i]),
            ) implies before.ops[committed_opid(ops[i])] == ops[i] by {
            lemma_plan_operations(source, seeds, plan, i);
            assert(ops[i] == plan[i].1);
        }
        assert forall|i: int, j: int|
            0 <= i < ops.len() && 0 <= j < ops.len() && committed_opid(#[trigger] ops[i])
                == committed_opid(#[trigger] ops[j]) implies ops[i] == ops[j] by {
            lemma_plan_operations(source, seeds, plan, i);
            lemma_plan_operations(source, seeds, plan, j);
            assert(ops[i] == plan[i].1 && ops[j] == plan[j].1);
        }
    }
    law_exported_stream_is_accepted::<S, G, O, U>(
        source,
        before,
        after,
        seeds,
        plan,
        id,
        written,
        articles,
        end,
        upgrade,
        reader,
        r,
    );
    if r is Ok {
        assert forall|x: Opid| #[trigger]
            seeds.contains(x) && holds(source.stash, x) && x != genesis implies after.valid.contains(x) by {
            law_seeds_are_exported(source.stash, genesis, seeds, plan, x);
            let k = choose|k: int| 0 <= k < plan.len() && (#[trigger] plan[k]).0 == x;
            assert(opids_of(plan)[k] == x);
            assert(opids_of(plan).to_set().contains(x));
        }
        if seeds == opids_of(source.stash) {
            assert forall|x: Opid| #[trigger] source.valid.contains(x) implies after.valid.contains(x) by {
                if x != genesis {
                    let entry = (x, source.ops[x]);
                    assert(source.stash.contains(entry));
                    let i = choose|i: int| 0 <= i < source.stash.len() && source.stash[i] == entry;
                    assert(seeds[i] == x);
                    assert(seeds.contains(x));
                    assert(holds(source.stash, x));
                } else {
                    assert(after.valid.contains(genesis_of(after)));
                }
            }
            assert(after.valid =~= source.valid);
            law_valid_operations_determine_memory(after, source);
        }
    }
}

} // verus!
