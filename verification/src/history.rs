//! History of a contract: its memory is determined by its valid operations.

use crate::accept::{admitted, admitted_all, rejected};
use crate::apply::{applied_by, recorded, AcceptError};
use crate::articles::{has_reads, Articles};
use crate::chain::{
    discovered, law_chain_holds_the_reached, lemma_chain_is_closed, link_path, reached, walk,
};
use crate::forward::{accepted, eligible, lemma_recorded_is_consistent, redone, redone_all};
use crate::ledger::{
    all_known, ancestor_links, descendant_links, genesis_of, issued, reading_children,
    spending_children,
};
use crate::processed::{Conversion, StateAtom};
use crate::raw::input_addrs;
use crate::reader::{readings_by, ApiReader};
use crate::rollback::{taken_back, undone, undone_all};
use crate::state::{Readings, ReadingsView};
use crate::stock::{parent_list, readers, StockView};
use crate::types::{CellAddr, Operation, OperationView, Opid, StateCell};
use crate::ultra::committed_opid;
use strict_types::StrictVal;
use ultrasonic::StateData;
use ultrasonic::StateValue;
use vstd::prelude::*;

verus! {

/// The data of an operation, the genesis among them.
pub open spec fn op_data(model: StockView, opid: Opid) -> OperationView {
    if opid == genesis_of(model) {
        model.articles.genesis@
    } else {
        model.ops[opid]
    }
}

/// The operation destroys the cell.
pub open spec fn takes(op: OperationView, addr: CellAddr) -> bool {
    input_addrs(op.destructible_in).contains(addr)
}

/// The cell is a destructible output of its operation.
pub open spec fn is_output(model: StockView, addr: CellAddr) -> bool {
    addr.pos < op_data(model, addr.opid).destructible_out.len()
}

/// The cell is an immutable output of its operation.
pub open spec fn is_data(model: StockView, addr: CellAddr) -> bool {
    addr.pos < op_data(model, addr.opid).immutable_out.len()
}

/// A valid operation destroys the cell.
pub open spec fn is_taken(model: StockView, addr: CellAddr) -> bool {
    exists|x: Opid| #[trigger] model.valid.contains(x) && takes(op_data(model, x), addr)
}

/// The destructible cell, as its operation has defined it.
pub open spec fn cell_of(model: StockView, addr: CellAddr) -> StateCell {
    op_data(model, addr.opid).destructible_out[addr.pos as int]
}

/// The outputs of the valid operations which no valid operation destroys.
pub open spec fn live_cells(model: StockView) -> Map<CellAddr, StateCell> {
    Map::new(
        |addr: CellAddr|
            model.valid.contains(addr.opid) && is_output(model, addr) && !is_taken(model, addr),
        |addr: CellAddr| cell_of(model, addr),
    )
}

/// The immutable outputs of the valid operations.
pub open spec fn live_data(model: StockView) -> Map<CellAddr, StateData> {
    Map::new(
        |addr: CellAddr| model.valid.contains(addr.opid) && is_data(model, addr),
        |addr: CellAddr| op_data(model, addr.opid).immutable_out[addr.pos as int],
    )
}

/// The cells which an operation destroys.
pub open spec fn taken_cells(model: StockView, opid: Opid) -> Map<CellAddr, StateCell> {
    Map::new(
        |addr: CellAddr| takes(model.ops[opid], addr),
        |addr: CellAddr| cell_of(model, addr),
    )
}

/// The inputs of a valid operation are outputs of valid ones, and the stock knows that it takes
/// them.
pub open spec fn rooted(model: StockView, opid: Opid) -> bool {
    &&& forall|addr: CellAddr| #[trigger]
        takes(op_data(model, opid), addr) ==> {
            &&& model.valid.contains(addr.opid)
            &&& model.spent.contains_key(addr)
            &&& model.spent[addr] == opid
        }
    &&& forall|i: int|
        0 <= i < op_data(model, opid).immutable_in.len() ==> {
            &&& model.valid.contains((#[trigger] op_data(model, opid).immutable_in[i]).opid)
            &&& readers(model.read, op_data(model, opid).immutable_in[i]).contains(opid)
        }
}

/// The inputs of an operation are outputs of other operations, and its transition keeps the
/// destroyed cells.
pub open spec fn traced(model: StockView, opid: Opid) -> bool {
    &&& model.trace.contains_key(opid)
    &&& model.trace[opid].destroyed == taken_cells(model, opid)
    &&& forall|addr: CellAddr| #[trigger]
        takes(model.ops[opid], addr) ==> {
            &&& addr.opid == genesis_of(model) || model.ops.contains_key(addr.opid)
            &&& addr.opid != opid
            &&& is_output(model, addr)
        }
    &&& forall|i: int|
        0 <= i < model.ops[opid].immutable_in.len() ==> {
            let addr = #[trigger] model.ops[opid].immutable_in[i];
            &&& addr.opid == genesis_of(model) || model.ops.contains_key(addr.opid)
            &&& is_data(model, addr)
        }
}

/// The memory of the contract is what its valid operations make of it.
pub open spec fn settled(model: StockView) -> bool {
    &&& model.consistent()
    &&& model.articles.genesis@.destructible_in.len() == 0
    &&& model.articles.genesis@.immutable_in.len() == 0
    &&& model.valid.contains(genesis_of(model))
    &&& !model.ops.contains_key(genesis_of(model))
    &&& model.state.raw.owned == live_cells(model)
    &&& model.state.raw.global == live_data(model)
    &&& forall|x: Opid| #[trigger]
        model.valid.contains(x) ==> (x == genesis_of(model) || model.ops.contains_key(x)) && rooted(
            model,
            x,
        )
    &&& forall|x: Opid| #[trigger] model.ops.contains_key(x) ==> traced(model, x)
}

/// The memory of a contract which has just been issued is what its genesis makes of it.
pub proof fn law_issued_contract_is_settled(articles: Articles, readings: Option<ReadingsView>)
    requires
        articles.genesis@.destructible_in.len() == 0,
        articles.genesis@.immutable_in.len() == 0,
    ensures
        settled(issued(articles, readings)),
{
    let model = issued(articles, readings);
    assert(model.state.raw.owned =~= live_cells(model));
    assert(model.state.raw.global =~= live_data(model));
}

/// The memory of two contracts with the same valid operations is the same.
pub proof fn law_valid_operations_determine_memory(one: StockView, other: StockView)
    requires
        settled(one),
        settled(other),
        one.articles.genesis@ == other.articles.genesis@,
        one.valid == other.valid,
        forall|x: Opid| #[trigger] one.valid.contains(x) ==> op_data(one, x) == op_data(other, x),
    ensures
        one.state.raw.owned == other.state.raw.owned,
        one.state.raw.global == other.state.raw.global,
{
    assert forall|addr: CellAddr| is_taken(one, addr) == is_taken(other, addr) by {
        if is_taken(one, addr) {
            let x = choose|x: Opid| #[trigger] one.valid.contains(x) && takes(op_data(one, x), addr);
            assert(other.valid.contains(x));
        }
        if is_taken(other, addr) {
            let x = choose|x: Opid| #[trigger]
                other.valid.contains(x) && takes(op_data(other, x), addr);
            assert(one.valid.contains(x));
        }
    }
    assert(live_cells(one) =~= live_cells(other));
    assert(live_data(one) =~= live_data(other));
}

/// The memory of a contract stays what its valid operations make of it, when one more operation is
/// applied.
pub proof fn law_apply_keeps_contract_settled(
    before: StockView,
    after: StockView,
    opid: Opid,
    op: OperationView,
    readings: Option<Readings>,
)
    requires
        settled(before),
        recorded(before, after, opid, op, false, readings),
        op.well_formed(),
        op.distinct_inputs(),
        committed_opid(op) == opid,
        !before.valid.contains(opid),
        before.ops.contains_key(opid) ==> before.ops[opid] == op,
        before.state.raw.has_inputs(op),
        has_reads(before.state.raw, op),
    ensures
        settled(after),
{
    lemma_recorded_is_consistent(before, after, opid, op, false, readings);
    assert(genesis_of(after) == genesis_of(before));
    assert(opid != genesis_of(before));
    assert forall|x: Opid| x != opid || before.ops.contains_key(x) implies op_data(after, x) == op_data(
        before,
        x,
    ) by {}
    assert(op_data(after, opid) == op);
    assert forall|addr: CellAddr| #[trigger] takes(op, addr) implies before.valid.contains(addr.opid)
        && is_output(before, addr) && !is_taken(before, addr) && addr.opid != opid
        && before.state.raw.owned.contains_key(addr) by {
        let i = choose|i: int|
            0 <= i < op.destructible_in.len() && (#[trigger] op.destructible_in[i]).addr == addr;
        assert(before.state.raw.owned.contains_key(op.destructible_in[i].addr));
    }
    assert forall|i: int| 0 <= i < op.immutable_in.len() implies before.valid.contains(
        (#[trigger] op.immutable_in[i]).opid,
    ) && is_data(before, op.immutable_in[i]) by {
        assert(before.state.raw.global.contains_key(op.immutable_in[i]));
    }
    assert forall|addr: CellAddr| is_taken(after, addr) == (is_taken(before, addr) || takes(op, addr)) by {
        if is_taken(after, addr) {
            let x = choose|x: Opid| #[trigger]
                after.valid.contains(x) && takes(op_data(after, x), addr);
            if x != opid {
                assert(before.valid.contains(x) && takes(op_data(before, x), addr));
            }
        }
        if is_taken(before, addr) {
            let x = choose|x: Opid| #[trigger]
                before.valid.contains(x) && takes(op_data(before, x), addr);
            assert(after.valid.contains(x) && takes(op_data(after, x), addr));
        }
        if takes(op, addr) {
            assert(after.valid.contains(opid));
        }
    }
    assert forall|addr: CellAddr| addr.opid == opid implies !is_taken(before, addr) by {
        if is_taken(before, addr) {
            let x = choose|x: Opid| #[trigger]
                before.valid.contains(x) && takes(op_data(before, x), addr);
            assert(rooted(before, x));
        }
    }
    assert(after.state.raw.owned =~= live_cells(after));
    assert(after.state.raw.global =~= live_data(after));
    assert forall|x: Opid| #[trigger] after.valid.contains(x) implies rooted(after, x) by {
        if x != opid {
            assert(before.valid.contains(x));
            assert(rooted(before, x));
            assert forall|addr: CellAddr| #[trigger] takes(op_data(after, x), addr) implies {
                &&& after.valid.contains(addr.opid)
                &&& after.spent.contains_key(addr)
                &&& after.spent[addr] == x
            } by {
                assert(takes(op_data(before, x), addr));
                assert(is_taken(before, addr));
            }
        } else {
            assert forall|i: int| 0 <= i < op.immutable_in.len() implies readers(
                after.read,
                #[trigger] op.immutable_in[i],
            ).contains(opid) by {
                assert(op.immutable_in.contains(op.immutable_in[i]));
            }
        }
    }
    assert forall|x: Opid| #[trigger] after.ops.contains_key(x) implies traced(after, x) by {
        if x != opid {
            assert(before.ops.contains_key(x));
            assert(traced(before, x));
            assert(taken_cells(after, x) =~= taken_cells(before, x)) by {
                assert forall|addr: CellAddr| #[trigger] takes(before.ops[x], addr) implies cell_of(
                    after,
                    addr,
                ) == cell_of(before, addr) by {}
            }
            assert forall|addr: CellAddr| #[trigger] takes(after.ops[x], addr) implies {
                &&& addr.opid == genesis_of(after) || after.ops.contains_key(addr.opid)
                &&& addr.opid != x
                &&& is_output(after, addr)
            } by {
                assert(takes(before.ops[x], addr));
            }
            assert forall|i: int| 0 <= i < after.ops[x].immutable_in.len() implies {
                let addr = #[trigger] after.ops[x].immutable_in[i];
                &&& addr.opid == genesis_of(after) || after.ops.contains_key(addr.opid)
                &&& is_data(after, addr)
            } by {
                let addr = before.ops[x].immutable_in[i];
                assert(addr.opid == genesis_of(before) || before.ops.contains_key(addr.opid));
            }
        } else {
            assert(after.trace[opid].destroyed =~= taken_cells(after, opid));
            assert forall|i: int| 0 <= i < after.ops[x].immutable_in.len() implies {
                let addr = #[trigger] after.ops[x].immutable_in[i];
                &&& addr.opid == genesis_of(after) || after.ops.contains_key(addr.opid)
                &&& is_data(after, addr)
            } by {
                let addr = op.immutable_in[i];
                assert(before.valid.contains(addr.opid));
            }
            assert forall|addr: CellAddr| #[trigger] takes(after.ops[x], addr) implies {
                &&& addr.opid == genesis_of(after) || after.ops.contains_key(addr.opid)
                &&& addr.opid != x
                &&& is_output(after, addr)
            } by {
                assert(takes(op, addr));
                assert(before.valid.contains(addr.opid));
            }
        }
    }
}

/// One of the operations destroys the cell.
pub open spec fn taken_by_any(model: StockView, opids: Seq<Opid>, addr: CellAddr) -> bool {
    exists|x: Opid| #[trigger] opids.contains(x) && takes(model.ops[x], addr)
}

/// The owned cells after operations were rolled back.
spec fn cells_back(model: StockView, opids: Seq<Opid>) -> Map<CellAddr, StateCell> {
    Map::new(
        |addr: CellAddr|
            !opids.contains(addr.opid) && (model.state.raw.owned.contains_key(addr) || (
            model.valid.contains(addr.opid) && taken_by_any(model, opids, addr))),
        |addr: CellAddr| cell_of(model, addr),
    )
}

/// The immutable cells after operations were rolled back.
spec fn data_back(model: StockView, opids: Seq<Opid>) -> Map<CellAddr, StateData> {
    model.state.raw.global.restrict(Set::new(|addr: CellAddr| !opids.contains(addr.opid)))
}

/// A rollback leaves only less operations valid and changes the state.
pub proof fn lemma_undone_frame<
    G: Fn(usize, &StateData) -> Conversion<StateAtom>,
    O: Fn(usize, StateValue) -> Conversion<StrictVal>,
>(before: StockView, after: StockView, opids: Seq<Opid>, reader: ApiReader<G, O>)
    requires
        undone_all(before, after, opids, reader),
    ensures
        after == (StockView {
            valid: before.valid.difference(opids.to_set()),
            state: after.state,
            ..before
        }),
    decreases opids.len(),
{
    if opids.len() == 0 {
        assert(before.valid.difference(opids.to_set()) =~= before.valid);
    } else {
        let mid = choose|mid: StockView|
            undone_all(before, mid, opids.drop_last(), reader) && #[trigger] undone(
                mid,
                after,
                opids.last(),
                reader,
            );
        lemma_undone_frame(before, mid, opids.drop_last(), reader);
        lemma_last_in(opids);
        assert(after.valid =~= before.valid.difference(opids.to_set()));
    }
}

/// An element of a sequence is its last one or stands before it.
proof fn lemma_last_in(opids: Seq<Opid>)
    requires
        opids.len() > 0,
    ensures
        forall|x: Opid| #[trigger]
            opids.contains(x) <==> opids.drop_last().contains(x) || x == opids.last(),
{
    assert forall|x: Opid| #[trigger] opids.contains(x) <==> opids.drop_last().contains(x) || x
        == opids.last() by {
        if opids.contains(x) {
            let k = choose|k: int| 0 <= k < opids.len() && opids[k] == x;
            if k < opids.len() - 1 {
                assert(opids.drop_last()[k] == x);
            }
        }
        if opids.drop_last().contains(x) {
            let k = choose|k: int| 0 <= k < opids.drop_last().len() && opids.drop_last()[k] == x;
            assert(opids[k] == x);
        }
        assert(opids[opids.len() - 1] == opids.last());
    }
}

/// The memory after operations of a settled contract were rolled back in some order.
proof fn lemma_undone_memory<
    G: Fn(usize, &StateData) -> Conversion<StateAtom>,
    O: Fn(usize, StateValue) -> Conversion<StrictVal>,
>(before: StockView, after: StockView, opids: Seq<Opid>, reader: ApiReader<G, O>)
    requires
        settled(before),
        all_known(before, opids),
        undone_all(before, after, opids, reader),
    ensures
        after.state.raw.owned == cells_back(before, opids),
        after.state.raw.global == data_back(before, opids),
    decreases opids.len(),
{
    if opids.len() == 0 {
        assert(cells_back(before, opids) =~= before.state.raw.owned);
        assert(data_back(before, opids) =~= before.state.raw.global);
    } else {
        let less = opids.drop_last();
        let x = opids.last();
        let mid = choose|mid: StockView|
            undone_all(before, mid, less, reader) && #[trigger] undone(mid, after, x, reader);
        assert forall|i: int| 0 <= i < less.len() implies before.known(#[trigger] less[i]) by {
            assert(before.known(opids[i]));
        }
        lemma_undone_memory(before, mid, less, reader);
        lemma_undone_frame(before, mid, less, reader);
        lemma_last_in(opids);
        assert(before.known(opids[opids.len() - 1]));
        assert(traced(before, x));
        let back = taken_back(mid, x);
        assert(after.state.raw == mid.state.raw.rolled_back(back));
        assert(back.opid == x);
        assert forall|addr: CellAddr| taken_by_any(before, opids, addr) == (taken_by_any(
            before,
            less,
            addr,
        ) || takes(before.ops[x], addr)) by {
            if taken_by_any(before, opids, addr) {
                let y = choose|y: Opid| #[trigger]
                    opids.contains(y) && takes(before.ops[y], addr);
                assert(less.contains(y) || y == x);
            }
            if taken_by_any(before, less, addr) {
                let y = choose|y: Opid| #[trigger] less.contains(y) && takes(before.ops[y], addr);
                assert(opids.contains(y));
            }
            assert(opids.contains(x));
        }
        assert(after.state.raw.owned =~= cells_back(before, opids));
        assert(after.state.raw.global =~= data_back(before, opids));
    }
}

/// A cell in the memory after operations were rolled back is as its operation has defined it.
pub proof fn lemma_undone_cells<
    G: Fn(usize, &StateData) -> Conversion<StateAtom>,
    O: Fn(usize, StateValue) -> Conversion<StrictVal>,
>(before: StockView, after: StockView, opids: Seq<Opid>, reader: ApiReader<G, O>)
    requires
        settled(before),
        all_known(before, opids),
        undone_all(before, after, opids, reader),
    ensures
        forall|addr: CellAddr| #[trigger]
            after.state.raw.owned.contains_key(addr) ==> after.state.raw.owned[addr] == cell_of(
                before,
                addr,
            ),
        after.trace == before.trace,
        after.articles == before.articles,
{
    lemma_undone_memory(before, after, opids, reader);
    lemma_undone_frame(before, after, opids, reader);
}

/// No cell of an operation which was rolled back is in the memory any more.
pub proof fn law_rolled_back_operations_leave_no_cells<
    G: Fn(usize, &StateData) -> Conversion<StateAtom>,
    O: Fn(usize, StateValue) -> Conversion<StrictVal>,
>(
    before: StockView,
    after: StockView,
    opids: Seq<Opid>,
    reader: ApiReader<G, O>,
    addr: CellAddr,
)
    requires
        settled(before),
        all_known(before, opids),
        undone_all(before, after, opids, reader),
        opids.contains(addr.opid),
    ensures
        !after.valid.contains(addr.opid),
        !after.state.raw.owned.contains_key(addr),
        !after.state.raw.global.contains_key(addr),
{
    lemma_undone_memory(before, after, opids, reader);
    lemma_undone_frame(before, after, opids, reader);
}

/// No operation of a list, which is not valid, has destroyed a cell that an operation outside of
/// the list lives on.
pub open spec fn undisputed(model: StockView, opids: Seq<Opid>) -> bool {
    forall|x: Opid, y: Opid, addr: CellAddr|
        #![trigger opids.contains(x), model.valid.contains(y), takes(model.ops[x], addr)]
        opids.contains(x) && !model.valid.contains(x) && takes(model.ops[x], addr)
            && model.valid.contains(addr.opid) && !opids.contains(addr.opid) && model.valid.contains(y)
            && !opids.contains(y) ==> !takes(op_data(model, y), addr)
}

/// A destroyed output leads to the operation which destroyed it.
pub(crate) proof fn lemma_spender_linked(model: StockView, addr: CellAddr, n: nat)
    requires
        model.spent.contains_key(addr),
        addr.pos < n <= 65535,
    ensures
        spending_children(model, addr.opid, n).contains(model.spent[addr]),
    decreases n,
{
    let x = model.spent[addr];
    let whole = spending_children(model, addr.opid, n);
    let earlier = spending_children(model, addr.opid, (n - 1) as nat);
    let last = CellAddr { opid: addr.opid, pos: (n - 1) as u16 };
    if addr.pos < n - 1 {
        lemma_spender_linked(model, addr, (n - 1) as nat);
        let k = choose|k: int| 0 <= k < earlier.len() && earlier[k] == x;
        assert(whole[k] == x);
    } else {
        assert(last == addr);
        assert(whole[earlier.len() as int] == x);
    }
}

/// A read output leads to the operations which read it.
pub(crate) proof fn lemma_reader_linked(model: StockView, addr: CellAddr, n: nat, x: Opid)
    requires
        readers(model.read, addr).contains(x),
        addr.pos < n <= 65535,
    ensures
        reading_children(model, addr.opid, n).contains(x),
    decreases n,
{
    let whole = reading_children(model, addr.opid, n);
    let earlier = reading_children(model, addr.opid, (n - 1) as nat);
    let last = readers(model.read, CellAddr { opid: addr.opid, pos: (n - 1) as u16 });
    assert(whole == earlier + last);
    if addr.pos < n - 1 {
        lemma_reader_linked(model, addr, (n - 1) as nat, x);
        let k = choose|k: int| 0 <= k < earlier.len() && earlier[k] == x;
        assert(whole[k] == x);
    } else {
        let k = choose|k: int| 0 <= k < last.len() && last[k] == x;
        assert(whole[earlier.len() + k] == x);
    }
}

/// A valid operation which takes a cell of an operation of the chain is in the chain.
proof fn lemma_takers_follow(model: StockView, seeds: Seq<Opid>, chain: Seq<Opid>, x: Opid)
    requires
        settled(model),
        all_known(model, chain),
        walk(seeds, descendant_links(model), chain),
        model.valid.contains(x),
    ensures
        forall|addr: CellAddr| #[trigger]
            takes(op_data(model, x), addr) && chain.contains(addr.opid) ==> chain.contains(x),
        forall|i: int|
            0 <= i < op_data(model, x).immutable_in.len() && chain.contains(
                (#[trigger] op_data(model, x).immutable_in[i]).opid,
            ) ==> chain.contains(x),
{
    let links = descendant_links(model);
    let cuts = choose|cuts: Seq<int>| #[trigger]
        discovered(seeds, links, chain, cuts, chain.len() as int);
    assert(rooted(model, x));
    assert forall|addr: CellAddr| #[trigger]
        takes(op_data(model, x), addr) && chain.contains(addr.opid) implies chain.contains(x) by {
        let i = choose|i: int| 0 <= i < chain.len() && chain[i] == addr.opid;
        assert(model.known(chain[i]));
        let op = model.ops[addr.opid];
        if x != genesis_of(model) {
            assert(traced(model, x));
        }
        assert(is_output(model, addr));
        lemma_spender_linked(model, addr, op.destructible_out.len());
        let reads = reading_children(model, addr.opid, op.immutable_out.len());
        let spends = spending_children(model, addr.opid, op.destructible_out.len());
        let k = choose|k: int| 0 <= k < spends.len() && spends[k] == x;
        assert((reads + spends)[reads.len() + k] == x);
        lemma_chain_is_closed(seeds, links, chain, cuts, i, x);
    }
    assert forall|j: int|
        0 <= j < op_data(model, x).immutable_in.len() && chain.contains(
            (#[trigger] op_data(model, x).immutable_in[j]).opid,
        ) implies chain.contains(x) by {
        let addr = op_data(model, x).immutable_in[j];
        let i = choose|i: int| 0 <= i < chain.len() && chain[i] == addr.opid;
        assert(model.known(chain[i]));
        let op = model.ops[addr.opid];
        if x != genesis_of(model) {
            assert(traced(model, x));
            assert(model.ops[x].immutable_in[j] == addr);
        }
        assert(is_data(model, addr));
        lemma_reader_linked(model, addr, op.immutable_out.len(), x);
        let reads = reading_children(model, addr.opid, op.immutable_out.len());
        let spends = spending_children(model, addr.opid, op.destructible_out.len());
        let k = choose|k: int| 0 <= k < reads.len() && reads[k] == x;
        assert((reads + spends)[k] == x);
        lemma_chain_is_closed(seeds, links, chain, cuts, i, x);
    }
}

/// The memory of a contract stays what its valid operations make of it, when operations are rolled
/// back with all their descendants.
pub proof fn law_rollback_keeps_contract_settled<
    G: Fn(usize, &StateData) -> Conversion<StateAtom>,
    O: Fn(usize, StateValue) -> Conversion<StrictVal>,
>(
    before: StockView,
    after: StockView,
    seeds: Seq<Opid>,
    chain: Seq<Opid>,
    reader: ApiReader<G, O>,
)
    requires
        settled(before),
        all_known(before, chain),
        walk(seeds, descendant_links(before), chain),
        undone_all(before, after, chain.reverse(), reader),
        undisputed(before, chain),
    ensures
        settled(after),
        after.valid == before.valid.difference(chain.to_set()),
        forall|x: Opid| #[trigger] op_data(after, x) == op_data(before, x),
{
    let order = chain.reverse();
    assert forall|x: Opid| order.contains(x) == chain.contains(x) by {
        if order.contains(x) {
            let k = choose|k: int| 0 <= k < order.len() && order[k] == x;
            assert(chain[chain.len() - 1 - k] == x);
        }
        if chain.contains(x) {
            let k = choose|k: int| 0 <= k < chain.len() && chain[k] == x;
            assert(order[chain.len() - 1 - k] == x);
        }
    }
    assert(order.to_set() =~= chain.to_set());
    assert forall|i: int| 0 <= i < order.len() implies before.known(#[trigger] order[i]) by {
        assert(before.known(chain[chain.len() - 1 - i]));
    }
    lemma_undone_frame(before, after, order, reader);
    lemma_undone_memory(before, after, order, reader);
    let genesis = genesis_of(before);
    assert(!chain.contains(genesis)) by {
        if chain.contains(genesis) {
            let k = choose|k: int| 0 <= k < chain.len() && chain[k] == genesis;
            assert(before.known(chain[k]));
        }
    }
    assert forall|addr: CellAddr| after.state.raw.owned.contains_key(addr) == live_cells(
        after,
    ).contains_key(addr) by {
        lemma_cell_back(before, after, seeds, chain, order, addr);
    }
    assert(after.state.raw.owned =~= live_cells(after));
    assert(after.state.raw.global =~= live_data(after));
    assert forall|x: Opid| #[trigger] after.valid.contains(x) implies rooted(after, x) by {
        assert(before.valid.contains(x));
        assert(rooted(before, x));
        lemma_takers_follow(before, seeds, chain, x);
        assert forall|addr: CellAddr| #[trigger] takes(op_data(after, x), addr) implies {
            &&& after.valid.contains(addr.opid)
            &&& after.spent.contains_key(addr)
            &&& after.spent[addr] == x
        } by {
            assert(takes(op_data(before, x), addr));
        }
        assert forall|i: int| 0 <= i < op_data(after, x).immutable_in.len() implies {
            &&& after.valid.contains((#[trigger] op_data(after, x).immutable_in[i]).opid)
            &&& readers(after.read, op_data(after, x).immutable_in[i]).contains(x)
        } by {
            assert(before.valid.contains(op_data(before, x).immutable_in[i].opid));
        }
    }
    assert forall|x: Opid| #[trigger] after.ops.contains_key(x) implies traced(after, x) by {
        assert(traced(before, x));
        assert(taken_cells(after, x) =~= taken_cells(before, x));
    }
}

/// A cell is back in the memory where its producer is valid and no valid operation destroys it.
proof fn lemma_cell_back(
    before: StockView,
    after: StockView,
    seeds: Seq<Opid>,
    chain: Seq<Opid>,
    order: Seq<Opid>,
    addr: CellAddr,
)
    requires
        settled(before),
        all_known(before, chain),
        walk(seeds, descendant_links(before), chain),
        undisputed(before, chain),
        forall|x: Opid| #[trigger] order.contains(x) == chain.contains(x),
        after == (StockView {
            valid: before.valid.difference(chain.to_set()),
            state: after.state,
            ..before
        }),
        after.state.raw.owned == cells_back(before, order),
    ensures
        after.state.raw.owned.contains_key(addr) == live_cells(after).contains_key(addr),
{
    let was = before.state.raw.owned.contains_key(addr);
    if live_cells(after).contains_key(addr) {
        assert(!order.contains(addr.opid));
        if !was {
            assert(is_taken(before, addr));
            let x = choose|x: Opid| #[trigger]
                before.valid.contains(x) && takes(op_data(before, x), addr);
            assert(!after.valid.contains(x)) by {
                if after.valid.contains(x) {
                    assert(takes(op_data(after, x), addr));
                }
            }
            assert(chain.contains(x));
            let k = choose|k: int| 0 <= k < chain.len() && chain[k] == x;
            assert(before.known(chain[k]));
            assert(order.contains(x) && takes(before.ops[x], addr));
        }
    }
    if after.state.raw.owned.contains_key(addr) {
        assert(!chain.contains(addr.opid));
        if is_taken(after, addr) {
            let y = choose|y: Opid| #[trigger]
                after.valid.contains(y) && takes(op_data(after, y), addr);
            assert(before.valid.contains(y) && takes(op_data(before, y), addr));
            assert(rooted(before, y));
            assert(is_taken(before, addr));
            let x = choose|x: Opid| #[trigger] order.contains(x) && takes(before.ops[x], addr);
            assert(chain.contains(x));
            let k = choose|k: int| 0 <= k < chain.len() && chain[k] == x;
            assert(before.known(chain[k]));
            if before.valid.contains(x) {
                assert(rooted(before, x));
                assert(op_data(before, x) == before.ops[x]);
                assert(before.spent[addr] == x && before.spent[addr] == y);
            }
            assert(false);
        }
        if !was {
            let x = choose|x: Opid| #[trigger] order.contains(x) && takes(before.ops[x], addr);
            assert(chain.contains(x));
            let k = choose|k: int| 0 <= k < chain.len() && chain[k] == x;
            assert(before.known(chain[k]));
            assert(traced(before, x));
        }
        assert(is_output(after, addr));
    }
}

/// One operation which is brought back.
proof fn lemma_redone_step<
    G: Fn(usize, &StateData) -> Conversion<StateAtom>,
    O: Fn(usize, StateValue) -> Conversion<StrictVal>,
>(before: StockView, after: StockView, opid: Opid, reader: ApiReader<G, O>)
    requires
        settled(before),
        before.known(opid),
        !before.valid.contains(opid),
        redone(before, after, opid, reader),
    ensures
        settled(after),
        after.ops == before.ops,
        after.articles == before.articles,
        after.valid == (if eligible(before, opid) {
            before.valid.insert(opid)
        } else {
            before.valid
        }),
{
    if eligible(before, opid) {
        let op = choose|op: Operation|
            {
                &&& op@ == before.ops[opid]
                &&& accepted(before, op@)
                &&& before.state.raw.has_inputs(op@)
                &&& has_reads(before.state.raw, op@)
                &&& #[trigger] applied_by(before, after, opid, op, false, reader)
            };
        let readings = choose|readings: Option<Readings>| #[trigger]
            readings_by(reader, before.articles.semantics, op, readings) && recorded(
                before,
                after,
                opid,
                op@,
                false,
                readings,
            );
        law_apply_keeps_contract_settled(before, after, opid, op@, readings);
        assert(after.ops =~= before.ops);
    }
}

/// The memory of a contract stays what its valid operations make of it, when operations are brought
/// back. No operation which was not in the list becomes valid, and none ceases to be valid.
pub proof fn law_forward_keeps_contract_settled<
    G: Fn(usize, &StateData) -> Conversion<StateAtom>,
    O: Fn(usize, StateValue) -> Conversion<StrictVal>,
>(before: StockView, after: StockView, opids: Seq<Opid>, reader: ApiReader<G, O>)
    requires
        settled(before),
        all_known(before, opids),
        opids.no_duplicates(),
        forall|i: int| 0 <= i < opids.len() ==> !before.valid.contains(#[trigger] opids[i]),
        redone_all(before, after, opids, reader),
    ensures
        settled(after),
        after.ops == before.ops,
        after.articles == before.articles,
        before.valid.subset_of(after.valid),
        after.valid.subset_of(before.valid.union(opids.to_set())),
    decreases opids.len(),
{
    if opids.len() > 0 {
        let less = opids.drop_last();
        let x = opids.last();
        let mid = choose|mid: StockView|
            redone_all(before, mid, less, reader) && #[trigger] redone(mid, after, x, reader);
        assert forall|i: int| 0 <= i < less.len() implies before.known(#[trigger] less[i]) by {
            assert(before.known(opids[i]));
        }
        assert forall|i: int| 0 <= i < less.len() implies !before.valid.contains(#[trigger] less[i]) by {
            assert(!before.valid.contains(opids[i]));
        }
        law_forward_keeps_contract_settled(before, mid, less, reader);
        lemma_last_in(opids);
        assert(before.known(opids[opids.len() - 1]));
        assert(!before.valid.contains(opids[opids.len() - 1]));
        assert(!less.contains(x)) by {
            if less.contains(x) {
                let k = choose|k: int| 0 <= k < less.len() && less[k] == x;
                assert(opids[k] == opids[opids.len() - 1]);
            }
        }
        assert(!mid.valid.contains(x));
        assert(traced(mid, x));
        assert(mid.known(x));
        lemma_redone_step(mid, after, x, reader);
        assert(after.valid.subset_of(before.valid.union(opids.to_set())));
    }
}

/// The parents of each valid operation of the list, as far as they are in it, stand before it.
pub open spec fn parents_first(model: StockView, opids: Seq<Opid>) -> bool {
    forall|i: int, j: int|
        #![trigger opids[i], opids[j]]
        0 <= i < opids.len() && 0 <= j < opids.len() && model.valid.contains(opids[i])
            && model.ops[opids[i]].parents().contains(opids[j]) ==> j < i
}

/// Each operation of the list, which is not valid, has an ancestor which is not valid either.
pub open spec fn held_back(model: StockView, opids: Seq<Opid>) -> bool {
    forall|i: int|
        0 <= i < opids.len() && !model.valid.contains(#[trigger] opids[i]) ==> !eligible(
            model,
            opids[i],
        )
}

/// The operations of a list which are valid.
pub open spec fn valid_among(model: StockView, opids: Seq<Opid>) -> Set<Opid> {
    model.valid.intersect(opids.to_set())
}

/// Every ancestor of a valid operation of the chain stands before it in the chain or is valid outside
/// of it.
proof fn lemma_ancestor(
    model: StockView,
    seeds: Seq<Opid>,
    chain: Seq<Opid>,
    n: int,
    path: Seq<Opid>,
)
    requires
        settled(model),
        all_known(model, chain),
        walk(seeds, descendant_links(model), chain),
        parents_first(model, chain),
        chain.no_duplicates(),
        0 <= n < chain.len(),
        model.valid.contains(chain[n]),
        link_path(seq![chain[n]], ancestor_links(model), path),
    ensures
        model.valid.contains(path.last()),
        chain.contains(path.last()) ==> chain.take(n + 1).contains(path.last()),
    decreases path.len(),
{
    let links = ancestor_links(model);
    let last = path.last();
    if path.len() == 1 {
        assert(seq![chain[n]].contains(path[0]));
        assert(last == chain[n]);
        assert(chain.take(n + 1)[n] == last);
    } else {
        let shorter = path.drop_last();
        assert(link_path(seq![chain[n]], links, shorter));
        lemma_ancestor(model, seeds, chain, n, shorter);
        let from = shorter.last();
        let k = path.len() - 1;
        assert(links(path[k - 1]).contains(path[k]));
        assert(links(from).contains(last));
        assert(from != genesis_of(model));
        let op = model.ops[from];
        let list = parent_list(op);
        assert(op_data(model, from) == op);
        assert(rooted(model, from));
        lemma_takers_follow(model, seeds, chain, from);
        let m = choose|m: int| 0 <= m < list.len() && list[m] == last;
        if m < op.immutable_in.len() {
            assert(op.immutable_in[m].opid == last);
            assert(model.valid.contains(op_data(model, from).immutable_in[m].opid));
        } else {
            let at = m - op.immutable_in.len();
            let addr = op.destructible_in[at].addr;
            assert(addr.opid == last);
            assert(takes(op_data(model, from), addr));
        }
        assert(op.parents().contains(last)) by {
            if m < op.immutable_in.len() {
                assert(op.immutable_in[m].opid == last);
            } else {
                assert(op.destructible_in[m - op.immutable_in.len()].addr.opid == last);
            }
        }
        if chain.contains(last) {
            assert(chain.contains(from));
            let part = chain.take(n + 1);
            let i = choose|i: int| 0 <= i < part.len() && part[i] == from;
            assert(chain[i] == from);
            let j = choose|j: int| 0 <= j < chain.len() && chain[j] == last;
            assert(model.ops[chain[i]].parents().contains(chain[j]));
            assert(j < i);
            assert(part[j] == last);
        }
    }
}

/// Bringing operations back restores all the memory which their rollback has changed, wherever the
/// chain of the descendants is in the order of dependence. Those of its operations which were not
/// valid before stay so, where an ancestor of each of them is not valid.
pub proof fn law_forward_undoes_rollback<
    G: Fn(usize, &StateData) -> Conversion<StateAtom>,
    O: Fn(usize, StateValue) -> Conversion<StrictVal>,
    H: Fn(usize, &StateData) -> Conversion<StateAtom>,
    P: Fn(usize, StateValue) -> Conversion<StrictVal>,
>(
    before: StockView,
    mid: StockView,
    after: StockView,
    seeds: Seq<Opid>,
    chain: Seq<Opid>,
    back: ApiReader<G, O>,
    forth: ApiReader<H, P>,
)
    requires
        settled(before),
        all_known(before, chain),
        undisputed(before, chain),
        held_back(before, chain),
        walk(seeds, descendant_links(before), chain),
        parents_first(before, chain),
        undone_all(before, mid, chain.reverse(), back),
        redone_all(mid, after, chain, forth),
    ensures
        descendant_links(mid) == descendant_links(before),
        after.valid == before.valid,
        after.state.raw.owned == before.state.raw.owned,
        after.state.raw.global == before.state.raw.global,
{
    law_chain_holds_the_reached(seeds, descendant_links(before), chain);
    law_rollback_keeps_contract_settled(before, mid, seeds, chain, back);
    lemma_undone_frame(before, mid, chain.reverse(), back);
    assert forall|x: Opid| #[trigger] descendant_links(mid)(x) == descendant_links(before)(x) by {
        lemma_same_children(mid, before, x);
    }
    assert(descendant_links(mid) =~= descendant_links(before));
    assert(chain.take(chain.len() as int) =~= chain);
    lemma_redone_order(before, mid, after, seeds, chain, forth, chain.len() as int);
    assert(after.valid =~= before.valid);
    assert forall|x: Opid| #[trigger] after.valid.contains(x) implies op_data(after, x) == op_data(
        before,
        x,
    ) by {}
    law_valid_operations_determine_memory(after, before);
}

/// The children of an operation depend on the recorded readings and spendings alone.
pub(crate) proof fn lemma_same_children(one: StockView, other: StockView, opid: Opid)
    requires
        one.ops == other.ops,
        one.read == other.read,
        one.spent == other.spent,
    ensures
        descendant_links(one)(opid) == descendant_links(other)(opid),
{
    lemma_same_readers(one, other, opid, one.ops[opid].immutable_out.len());
    lemma_same_spenders(one, other, opid, one.ops[opid].destructible_out.len());
}

/// The readers depend on the recorded readings alone.
proof fn lemma_same_readers(one: StockView, other: StockView, opid: Opid, n: nat)
    requires
        one.read == other.read,
    ensures
        reading_children(one, opid, n) == reading_children(other, opid, n),
    decreases n,
{
    if n > 0 {
        lemma_same_readers(one, other, opid, (n - 1) as nat);
    }
}

/// The spenders depend on the recorded spendings alone.
proof fn lemma_same_spenders(one: StockView, other: StockView, opid: Opid, n: nat)
    requires
        one.spent == other.spent,
    ensures
        spending_children(one, opid, n) == spending_children(other, opid, n),
    decreases n,
{
    if n > 0 {
        lemma_same_spenders(one, other, opid, (n - 1) as nat);
    }
}

/// Every ancestor of a valid operation of the chain stands before it in the chain or is valid outside
/// of it.
proof fn lemma_ancestors(model: StockView, seeds: Seq<Opid>, chain: Seq<Opid>, n: int)
    requires
        settled(model),
        all_known(model, chain),
        walk(seeds, descendant_links(model), chain),
        parents_first(model, chain),
        chain.no_duplicates(),
        0 <= n < chain.len(),
        model.valid.contains(chain[n]),
    ensures
        forall|id: Opid| #[trigger]
            reached(seq![chain[n]], ancestor_links(model), id) ==> model.valid.contains(id) && (
            chain.contains(id) ==> chain.take(n + 1).contains(id)),
{
    assert forall|id: Opid| #[trigger]
        reached(seq![chain[n]], ancestor_links(model), id) implies model.valid.contains(id) && (
    chain.contains(id) ==> chain.take(n + 1).contains(id)) by {
        let path = choose|path: Seq<Opid>| #[trigger]
            link_path(seq![chain[n]], ancestor_links(model), path) && path.last() == id;
        lemma_ancestor(model, seeds, chain, n, path);
    }
}

/// The ancestors of an operation are valid when its turn comes.
proof fn lemma_eligible_in_turn(before: StockView, prior: StockView, chain: Seq<Opid>, n: int)
    requires
        prior.ops == before.ops,
        prior.articles == before.articles,
        0 <= n < chain.len(),
        prior.valid == before.valid.difference(chain.to_set()).union(
            valid_among(before, chain.take(n)),
        ),
        forall|id: Opid| #[trigger]
            reached(seq![chain[n]], ancestor_links(before), id) ==> before.valid.contains(id) && (
            chain.contains(id) ==> chain.take(n + 1).contains(id)),
    ensures
        eligible(prior, chain[n]),
{
    let x = chain[n];
    let links = ancestor_links(prior);
    assert(links =~= ancestor_links(before));
    assert forall|id: Opid| #[trigger]
        reached(seq![x], links, id) && id != x implies prior.valid.contains(id) by {
        assert(reached(seq![chain[n]], ancestor_links(before), id));
        if chain.contains(id) {
            let part = chain.take(n + 1);
            let k = choose|k: int| 0 <= k < part.len() && part[k] == id;
            assert(k < n);
            assert(chain.take(n)[k] == id);
            assert(chain.take(n).to_set().contains(id));
        }
    }
}

/// With fewer operations valid, no more of them can be brought back.
pub(crate) proof fn lemma_fewer_eligible(before: StockView, prior: StockView, opid: Opid)
    requires
        prior.ops == before.ops,
        prior.articles == before.articles,
        prior.valid.subset_of(before.valid),
        eligible(prior, opid),
    ensures
        eligible(before, opid),
{
    assert(ancestor_links(prior) =~= ancestor_links(before));
    assert forall|id: Opid| #[trigger]
        reached(seq![opid], ancestor_links(before), id) && id != opid implies before.valid.contains(id) by {
        assert(reached(seq![opid], ancestor_links(prior), id));
    }
}

/// Each valid operation of a chain in the order of dependence is brought back in its turn, and no
/// other one is.
pub(crate) proof fn lemma_redone_order<
    G: Fn(usize, &StateData) -> Conversion<StateAtom>,
    O: Fn(usize, StateValue) -> Conversion<StrictVal>,
>(
    before: StockView,
    mid: StockView,
    after: StockView,
    seeds: Seq<Opid>,
    chain: Seq<Opid>,
    reader: ApiReader<G, O>,
    n: int,
)
    requires
        settled(before),
        all_known(before, chain),
        chain.no_duplicates(),
        held_back(before, chain),
        walk(seeds, descendant_links(before), chain),
        parents_first(before, chain),
        settled(mid),
        mid.ops == before.ops,
        mid.trace == before.trace,
        mid.articles == before.articles,
        mid.valid == before.valid.difference(chain.to_set()),
        0 <= n <= chain.len(),
        redone_all(mid, after, chain.take(n), reader),
    ensures
        settled(after),
        after.ops == before.ops,
        after.articles == before.articles,
        after.valid == mid.valid.union(valid_among(before, chain.take(n))),
    decreases n,
{
    let list = chain.take(n);
    if n == 0 {
        assert(mid.valid.union(valid_among(before, list)) =~= mid.valid);
    } else {
        let x = chain[n - 1];
        assert(list.drop_last() =~= chain.take(n - 1));
        assert(list.last() == x);
        let prior = choose|prior: StockView|
            redone_all(mid, prior, list.drop_last(), reader) && #[trigger] redone(
                prior,
                after,
                list.last(),
                reader,
            );
        lemma_redone_order(before, mid, prior, seeds, chain, reader, n - 1);
        let done = chain.take(n - 1);
        assert(before.known(chain[n - 1]));
        assert(chain.contains(x));
        assert(!done.contains(x)) by {
            if done.contains(x) {
                let k = choose|k: int| 0 <= k < done.len() && done[k] == x;
                assert(chain[k] == chain[n - 1]);
            }
        }
        assert(!prior.valid.contains(x));
        assert(traced(prior, x));
        if before.valid.contains(x) {
            lemma_ancestors(before, seeds, chain, n - 1);
            lemma_eligible_in_turn(before, prior, chain, n - 1);
        } else {
            assert(!eligible(before, chain[n - 1]));
            if eligible(prior, x) {
                lemma_fewer_eligible(before, prior, x);
            }
        }
        lemma_redone_step(prior, after, x, reader);
        lemma_last_in(list);
        assert(after.valid =~= mid.valid.union(valid_among(before, list)));
    }
}

/// Operations with the same id are the same, those in the stock among them.
pub open spec fn collision_free(model: StockView, ops: Seq<OperationView>) -> bool {
    &&& forall|i: int|
        0 <= i < ops.len() && model.ops.contains_key(committed_opid(#[trigger] ops[i]))
            ==> model.ops[committed_opid(ops[i])] == ops[i]
    &&& forall|i: int, j: int|
        0 <= i < ops.len() && 0 <= j < ops.len() && committed_opid(#[trigger] ops[i])
            == committed_opid(#[trigger] ops[j]) ==> ops[i] == ops[j]
}

/// An operation of the stock was there before or is one of the list.
pub open spec fn comes_from(
    before: StockView,
    ops: Seq<OperationView>,
    id: Opid,
    op: OperationView,
) -> bool {
    ||| before.ops.contains_key(id) && before.ops[id] == op
    ||| exists|i: int| 0 <= i < ops.len() && committed_opid(#[trigger] ops[i]) == id && ops[i] == op
}

/// The operation with the given id is one of the list.
pub open spec fn brings(ops: Seq<OperationView>, id: Opid) -> bool {
    exists|i: int| 0 <= i < ops.len() && committed_opid(#[trigger] ops[i]) == id
}

/// The memory of a contract stays what its valid operations make of it, when the operations of a
/// stream are accepted. All of them become valid, and no others.
pub proof fn law_accept_keeps_contract_settled<
    G: Fn(usize, &StateData) -> Conversion<StateAtom>,
    O: Fn(usize, StateValue) -> Conversion<StrictVal>,
>(before: StockView, after: StockView, ops: Seq<OperationView>, reader: ApiReader<G, O>)
    requires
        settled(before),
        forall|i: int|
            0 <= i < ops.len() ==> (#[trigger] ops[i]).well_formed() && ops[i].distinct_inputs(),
        collision_free(before, ops),
        admitted_all(before, after, ops, reader),
    ensures
        settled(after),
        after.articles == before.articles,
        forall|id: Opid| #[trigger]
            after.valid.contains(id) <==> before.valid.contains(id) || brings(ops, id),
        forall|id: Opid| #[trigger]
            before.ops.contains_key(id) ==> after.ops.contains_key(id) && after.ops[id]
                == before.ops[id],
        forall|id: Opid| #[trigger]
            after.ops.contains_key(id) ==> comes_from(before, ops, id, after.ops[id]),
    decreases ops.len(),
{
    if ops.len() > 0 {
        let less = ops.drop_last();
        let op = ops.last();
        let id = committed_opid(op);
        let mid = choose|mid: StockView|
            admitted_all(before, mid, less, reader) && #[trigger] admitted(mid, after, op, reader);
        assert forall|i: int| 0 <= i < less.len() implies (#[trigger] less[i]).well_formed()
            && less[i].distinct_inputs() by {
            assert(ops[i].well_formed());
        }
        assert(collision_free(before, less)) by {
            assert forall|i: int|
                0 <= i < less.len() && before.ops.contains_key(
                    committed_opid(#[trigger] less[i]),
                ) implies before.ops[committed_opid(less[i])] == less[i] by {
                assert(ops[i] == less[i]);
            }
            assert forall|i: int, j: int|
                0 <= i < less.len() && 0 <= j < less.len() && committed_opid(#[trigger] less[i])
                    == committed_opid(#[trigger] less[j]) implies less[i] == less[j] by {
                assert(ops[i] == less[i] && ops[j] == less[j]);
            }
        }
        law_accept_keeps_contract_settled(before, mid, less, reader);
        let n = ops.len() - 1;
        assert(ops[n] == op);
        assert forall|x: Opid, o: OperationView| comes_from(before, less, x, o) implies comes_from(
            before,
            ops,
            x,
            o,
        ) by {
            if !(before.ops.contains_key(x) && before.ops[x] == o) {
                let i = choose|i: int|
                    0 <= i < less.len() && committed_opid(#[trigger] less[i]) == x && less[i] == o;
                assert(ops[i] == less[i]);
            }
        }
        if op.contract_id == mid.articles.contract_id && mid.valid.contains(id) {
            assert(after == mid);
        } else {
            let operation = choose|operation: Operation|
                {
                    &&& operation@ == op
                    &&& accepted(mid, op)
                    &&& mid.state.raw.has_inputs(op)
                    &&& has_reads(mid.state.raw, op)
                    &&& #[trigger] applied_by(mid, after, id, operation, false, reader)
                };
            let readings = choose|readings: Option<Readings>| #[trigger]
                readings_by(reader, mid.articles.semantics, operation, readings) && recorded(
                    mid,
                    after,
                    id,
                    op,
                    false,
                    readings,
                );
            if mid.ops.contains_key(id) {
                let known = mid.ops[id];
                assert(comes_from(before, less, id, known));
                if !(before.ops.contains_key(id) && before.ops[id] == known) {
                    let i = choose|i: int|
                        0 <= i < less.len() && committed_opid(#[trigger] less[i]) == id && less[i]
                            == known;
                    assert(ops[i] == less[i]);
                    assert(committed_opid(ops[i]) == committed_opid(ops[n]));
                }
            }
            law_apply_keeps_contract_settled(mid, after, id, op, readings);
        }
        assert forall|x: Opid| #[trigger] after.valid.contains(x) <==> before.valid.contains(x)
            || brings(ops, x) by {
            if brings(less, x) {
                let i = choose|i: int| 0 <= i < less.len() && committed_opid(#[trigger] less[i]) == x;
                assert(ops[i] == less[i]);
            }
            if brings(ops, x) && x != id {
                let i = choose|i: int| 0 <= i < ops.len() && committed_opid(#[trigger] ops[i]) == x;
                assert(ops[i] == less[i]);
            }
        }
        assert forall|x: Opid| #[trigger] after.ops.contains_key(x) implies comes_from(
            before,
            ops,
            x,
            after.ops[x],
        ) by {
            if x == id && after != mid {
                assert(committed_opid(ops[n]) == id);
            } else {
                assert(mid.ops.contains_key(x));
                assert(comes_from(before, less, x, mid.ops[x]));
            }
        }
    }
}

/// The operations of a stream which was accepted are valid, and they are operations of the contract.
pub(crate) proof fn lemma_admitted_are_valid<
    G: Fn(usize, &StateData) -> Conversion<StateAtom>,
    O: Fn(usize, StateValue) -> Conversion<StrictVal>,
>(before: StockView, after: StockView, ops: Seq<OperationView>, reader: ApiReader<G, O>)
    requires
        admitted_all(before, after, ops, reader),
    ensures
        after.articles == before.articles,
        before.valid.subset_of(after.valid),
        forall|i: int|
            0 <= i < ops.len() ==> after.valid.contains(committed_opid(#[trigger] ops[i]))
                && ops[i].contract_id == after.articles.contract_id,
    decreases ops.len(),
{
    if ops.len() > 0 {
        let less = ops.drop_last();
        let mid = choose|mid: StockView|
            admitted_all(before, mid, less, reader) && #[trigger] admitted(
                mid,
                after,
                ops.last(),
                reader,
            );
        lemma_admitted_are_valid(before, mid, less, reader);
        assert(mid.valid.subset_of(after.valid));
        assert forall|i: int| 0 <= i < ops.len() implies after.valid.contains(
            committed_opid(#[trigger] ops[i]),
        ) && ops[i].contract_id == after.articles.contract_id by {
            if i < less.len() {
                assert(less[i] == ops[i]);
            }
        }
    }
}

/// Accepting the operations of a stream once more changes nothing, and none of them is rejected then,
/// whatever has happened to the APIs of the contract in between.
pub proof fn law_accepting_again_changes_nothing<
    G: Fn(usize, &StateData) -> Conversion<StateAtom>,
    O: Fn(usize, StateValue) -> Conversion<StrictVal>,
    H: Fn(usize, &StateData) -> Conversion<StateAtom>,
    P: Fn(usize, StateValue) -> Conversion<StrictVal>,
>(
    before: StockView,
    after: StockView,
    start: StockView,
    again: StockView,
    ops: Seq<OperationView>,
    n: int,
    reader: ApiReader<G, O>,
    other: ApiReader<H, P>,
)
    requires
        admitted_all(before, after, ops, reader),
        start.articles.contract_id == after.articles.contract_id,
        after.valid.subset_of(start.valid),
        0 <= n <= ops.len(),
        admitted_all(start, again, ops.take(n), other),
    ensures
        again == start,
        n < ops.len() ==> forall|reason: AcceptError| !#[trigger] rejected(again, ops[n], reason),
    decreases n,
{
    lemma_admitted_are_valid(before, after, ops, reader);
    let list = ops.take(n);
    if n > 0 {
        let mid = choose|mid: StockView|
            admitted_all(start, mid, list.drop_last(), other) && #[trigger] admitted(
                mid,
                again,
                list.last(),
                other,
            );
        assert(list.drop_last() =~= ops.take(n - 1));
        assert(list.last() == ops[n - 1]);
        law_accepting_again_changes_nothing(before, after, start, mid, ops, n - 1, reader, other);
        assert(after.valid.contains(committed_opid(ops[n - 1])));
    }
    if n < ops.len() {
        assert(after.valid.contains(committed_opid(ops[n])));
    }
}

/// The memory of a contract does not depend on its APIs.
pub proof fn law_upgrade_keeps_contract_settled(before: StockView, articles: Articles)
    requires
        settled(before),
        articles.genesis@ == before.articles.genesis@,
    ensures
        settled(StockView { articles, ..before }),
{
    let after = StockView { articles, ..before };
    assert(genesis_of(after) == genesis_of(before));
    assert forall|x: Opid| #[trigger] op_data(after, x) == op_data(before, x) by {}
    assert forall|addr: CellAddr| is_taken(after, addr) == is_taken(before, addr) by {
        if is_taken(before, addr) {
            let x = choose|x: Opid| #[trigger]
                before.valid.contains(x) && takes(op_data(before, x), addr);
            assert(after.valid.contains(x) && takes(op_data(after, x), addr));
        }
        if is_taken(after, addr) {
            let x = choose|x: Opid| #[trigger]
                after.valid.contains(x) && takes(op_data(after, x), addr);
            assert(before.valid.contains(x) && takes(op_data(before, x), addr));
        }
    }
    assert(live_cells(after) =~= live_cells(before));
    assert(live_data(after) =~= live_data(before));
    assert forall|x: Opid| #[trigger] after.valid.contains(x) implies rooted(after, x) by {
        assert(rooted(before, x));
    }
    assert forall|x: Opid| #[trigger] after.ops.contains_key(x) implies traced(after, x) by {
        assert(traced(before, x));
        assert(taken_cells(after, x) =~= taken_cells(before, x));
    }
}

/// The operations whose cells an operation takes are known.
pub proof fn law_settled_contract_knows_parents(model: StockView)
    requires
        settled(model),
    ensures
        model.parents_known(genesis_of(model)),
{
    assert forall|opid: Opid, parent: Opid|
        #![trigger model.ops[opid].parents().contains(parent)]
        model.ops.contains_key(opid) && opid != genesis_of(model)
            && model.ops[opid].parents().contains(parent) implies parent == genesis_of(model)
        || model.ops.contains_key(parent) by {
        assert(traced(model, opid));
        let op = model.ops[opid];
        if exists|i: int| 0 <= i < op.immutable_in.len() && (#[trigger] op.immutable_in[i]).opid == parent {
            let i = choose|i: int|
                0 <= i < op.immutable_in.len() && (#[trigger] op.immutable_in[i]).opid == parent;
            assert(model.ops[opid].immutable_in[i].opid == parent);
        } else {
            let i = choose|i: int|
                0 <= i < op.destructible_in.len() && (#[trigger] op.destructible_in[i]).addr.opid
                    == parent;
            assert(takes(model.ops[opid], op.destructible_in[i].addr));
        }
    }
}

} // verus!
