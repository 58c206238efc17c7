//! Lineage of operations: ancestors and descendants, and rollbacks of several of them.

use crate::apply::recorded;
use crate::articles::Articles;
use crate::chain::{law_chain_holds_the_reached, link_path, reached, walk};
use crate::history::{
    law_rollback_keeps_contract_settled, law_valid_operations_determine_memory, lemma_reader_linked,
    lemma_same_children, lemma_spender_linked, lemma_undone_frame, op_data, rooted, settled, takes,
    traced, undisputed,
};
use crate::ledger::{
    all_known, ancestor_links, descendant_links, genesis_of, issued, lemma_children_known,
    reading_children, spending_children,
};
use crate::processed::{Conversion, StateAtom};
use crate::reader::ApiReader;
use crate::rollback::undone_all;
use crate::state::{Readings, ReadingsView};
use crate::stock::{parent_list, readers, StockView};
use crate::types::{CellAddr, OperationView, Opid};
use strict_types::StrictVal;
use ultrasonic::StateData;
use ultrasonic::StateValue;
use vstd::prelude::*;

verus! {

/// The stock knows who has read and destroyed the cells: every operation in it, and no other, is a
/// reader of the cells it reads; every cell which an operation destroys has a spender, and a spender
/// destroys its cell.
pub open spec fn linked(model: StockView) -> bool {
    &&& forall|x: Opid, addr: CellAddr| #[trigger]
        readers(model.read, addr).contains(x) <==> model.ops.contains_key(x)
            && model.ops[x].immutable_in.contains(addr)
    &&& forall|x: Opid, addr: CellAddr|
        #![trigger model.ops.contains_key(x), takes(model.ops[x], addr)]
        model.ops.contains_key(x) && takes(model.ops[x], addr) ==> model.spent.contains_key(addr)
    &&& forall|addr: CellAddr| #[trigger]
        model.spent.contains_key(addr) ==> model.ops.contains_key(model.spent[addr]) && takes(
            model.ops[model.spent[addr]],
            addr,
        )
}

/// No cell is destroyed by two different operations of the stock.
pub open spec fn spent_once(model: StockView) -> bool {
    forall|x: Opid, y: Opid, addr: CellAddr|
        #![trigger takes(model.ops[x], addr), takes(model.ops[y], addr)]
        model.ops.contains_key(x) && model.ops.contains_key(y) && takes(model.ops[x], addr) && takes(
            model.ops[y],
            addr,
        ) ==> x == y
}

/// A stock knows the readers and the spenders of the cells right after the contract was issued.
pub proof fn law_issued_contract_is_linked(articles: Articles, readings: Option<ReadingsView>)
    ensures
        linked(issued(articles, readings)),
{
}

/// The stock knows the readers and the spenders of the cells after operations were rolled back.
pub proof fn law_rollback_keeps_links<
    G: Fn(usize, &StateData) -> Conversion<StateAtom>,
    O: Fn(usize, StateValue) -> Conversion<StrictVal>,
>(before: StockView, after: StockView, opids: Seq<Opid>, reader: ApiReader<G, O>)
    requires
        linked(before),
        undone_all(before, after, opids, reader),
    ensures
        linked(after),
{
    lemma_undone_frame(before, after, opids, reader);
}

/// The stock knows the readers and the spenders of the cells, once one more operation is recorded.
pub proof fn law_apply_keeps_links(
    before: StockView,
    after: StockView,
    opid: Opid,
    op: OperationView,
    readings: Option<Readings>,
)
    requires
        linked(before),
        recorded(before, after, opid, op, false, readings),
        before.ops.contains_key(opid) ==> before.ops[opid] == op,
    ensures
        linked(after),
{
    assert forall|x: Opid, addr: CellAddr| #[trigger]
        readers(after.read, addr).contains(x) <==> after.ops.contains_key(x)
            && after.ops[x].immutable_in.contains(addr) by {
        assert(readers(before.read, addr).contains(x) <==> before.ops.contains_key(x)
            && before.ops[x].immutable_in.contains(addr));
    }
    assert forall|x: Opid, addr: CellAddr|
        #![trigger after.ops.contains_key(x), takes(after.ops[x], addr)]
        after.ops.contains_key(x) && takes(after.ops[x], addr) implies after.spent.contains_key(addr) by {
        if x != opid {
            assert(before.ops.contains_key(x) && takes(before.ops[x], addr));
        }
    }
    assert forall|addr: CellAddr| #[trigger] after.spent.contains_key(addr) implies after.ops.contains_key(
        after.spent[addr],
    ) && takes(after.ops[after.spent[addr]], addr) by {
        if !takes(op, addr) {
            assert(before.spent.contains_key(addr));
        }
    }
}

/// An operation is a parent of another one, if and only if the other one is its child.
proof fn lemma_links_converse(model: StockView, a: Opid, b: Opid)
    requires
        settled(model),
        linked(model),
        spent_once(model),
        model.ops.contains_key(a),
        model.ops.contains_key(b),
    ensures
        ancestor_links(model)(a).contains(b) <==> descendant_links(model)(b).contains(a),
{
    let child = model.ops[a];
    let parent = model.ops[b];
    let list = parent_list(child);
    let reads = reading_children(model, b, parent.immutable_out.len());
    let spends = spending_children(model, b, parent.destructible_out.len());
    assert(parent.well_formed());
    assert(a != genesis_of(model) && b != genesis_of(model));
    assert(op_data(model, b) == parent);
    assert(traced(model, a));
    if list.contains(b) {
        let m = choose|m: int| 0 <= m < list.len() && list[m] == b;
        if m < child.immutable_in.len() {
            let addr = child.immutable_in[m];
            assert(model.ops[a].immutable_in[m] == addr);
            assert(child.immutable_in.contains(addr));
            assert(readers(model.read, addr).contains(a));
            lemma_reader_linked(model, addr, parent.immutable_out.len(), a);
            let k = choose|k: int| 0 <= k < reads.len() && reads[k] == a;
            assert((reads + spends)[k] == a);
        } else {
            let addr = child.destructible_in[m - child.immutable_in.len()].addr;
            assert(takes(model.ops[a], addr));
            assert(model.spent.contains_key(addr));
            let x = model.spent[addr];
            assert(takes(model.ops[x], addr));
            assert(x == a);
            lemma_spender_linked(model, addr, parent.destructible_out.len());
            let k = choose|k: int| 0 <= k < spends.len() && spends[k] == a;
            assert((reads + spends)[reads.len() + k] == a);
        }
    }
    if (reads + spends).contains(a) {
        let k = choose|k: int| 0 <= k < (reads + spends).len() && (reads + spends)[k] == a;
        if k < reads.len() {
            assert(reads[k] == a);
            lemma_read_from(model, b, parent.immutable_out.len(), a);
            let addr = choose|addr: CellAddr|
                addr.opid == b && #[trigger] readers(model.read, addr).contains(a);
            let m = choose|m: int| 0 <= m < child.immutable_in.len() && child.immutable_in[m] == addr;
            assert(list[m] == b);
        } else {
            assert(spends[k - reads.len()] == a);
            lemma_spent_from(model, b, parent.destructible_out.len(), a);
            let addr = choose|addr: CellAddr|
                addr.opid == b && #[trigger] model.spent.contains_key(addr) && model.spent[addr] == a;
            let m = choose|m: int|
                0 <= m < child.destructible_in.len() && (#[trigger] child.destructible_in[m]).addr
                    == addr;
            assert(list[child.immutable_in.len() + m] == b);
        }
    }
}

/// A reading child has read a cell of the operation.
proof fn lemma_read_from(model: StockView, opid: Opid, n: nat, child: Opid)
    requires
        reading_children(model, opid, n).contains(child),
    ensures
        exists|addr: CellAddr|
            addr.opid == opid && #[trigger] readers(model.read, addr).contains(child),
    decreases n,
{
    if n > 0 {
        let earlier = reading_children(model, opid, (n - 1) as nat);
        let addr = CellAddr { opid, pos: (n - 1) as u16 };
        let last = readers(model.read, addr);
        let k = choose|k: int| 0 <= k < (earlier + last).len() && (earlier + last)[k] == child;
        if k < earlier.len() {
            assert(earlier[k] == child);
            lemma_read_from(model, opid, (n - 1) as nat, child);
        } else {
            assert(last[k - earlier.len()] == child);
            assert(readers(model.read, addr).contains(child));
        }
    }
}

/// A spending child has destroyed a cell of the operation.
proof fn lemma_spent_from(model: StockView, opid: Opid, n: nat, child: Opid)
    requires
        spending_children(model, opid, n).contains(child),
    ensures
        exists|addr: CellAddr|
            addr.opid == opid && #[trigger] model.spent.contains_key(addr) && model.spent[addr]
                == child,
    decreases n,
{
    if n > 0 {
        let earlier = spending_children(model, opid, (n - 1) as nat);
        let whole = spending_children(model, opid, n);
        let addr = CellAddr { opid, pos: (n - 1) as u16 };
        let k = choose|k: int| 0 <= k < whole.len() && whole[k] == child;
        if k < earlier.len() {
            assert(earlier[k] == child);
            lemma_spent_from(model, opid, (n - 1) as nat, child);
        } else {
            assert(model.spent.contains_key(addr) && model.spent[addr] == child);
        }
    }
}

/// The operations on a path of ancestors, which does not end at the genesis, are in the stock.
proof fn lemma_ancestors_stored(model: StockView, a: Opid, path: Seq<Opid>, k: int)
    requires
        settled(model),
        model.ops.contains_key(a),
        link_path(seq![a], ancestor_links(model), path),
        path.last() != genesis_of(model),
        0 <= k < path.len(),
    ensures
        model.ops.contains_key(path[k]),
    decreases k,
{
    if k == 0 {
        assert(seq![a].contains(path[0]));
    } else {
        lemma_ancestors_stored(model, a, path, k - 1);
        let from = path[k - 1];
        assert(ancestor_links(model)(path[k - 1]).contains(path[k]));
        if path[k] == genesis_of(model) {
            if k + 1 < path.len() {
                assert(ancestor_links(model)(path[k + 1 - 1]).contains(path[k + 1]));
            }
            assert(false);
        }
        let op = model.ops[from];
        let list = parent_list(op);
        assert(traced(model, from));
        let m = choose|m: int| 0 <= m < list.len() && list[m] == path[k];
        if m < op.immutable_in.len() {
            assert(model.ops[from].immutable_in[m].opid == path[k]);
        } else {
            assert(takes(model.ops[from], op.destructible_in[m - op.immutable_in.len()].addr));
        }
    }
}

/// The operations on a path of descendants are in the stock.
proof fn lemma_descendants_stored(model: StockView, b: Opid, path: Seq<Opid>, k: int)
    requires
        settled(model),
        model.ops.contains_key(b),
        link_path(seq![b], descendant_links(model), path),
        0 <= k < path.len(),
    ensures
        model.ops.contains_key(path[k]),
    decreases k,
{
    if k == 0 {
        assert(seq![b].contains(path[0]));
    } else {
        assert(descendant_links(model)(path[k - 1]).contains(path[k]));
        lemma_children_known(model, path[k - 1], path[k]);
    }
}

/// Ancestors and descendants are converse: an operation is an ancestor of another one, if and only
/// if the other one is its descendant, wherever no cell is destroyed by two different operations.
pub proof fn law_ancestors_and_descendants_are_converse(model: StockView, a: Opid, b: Opid)
    requires
        settled(model),
        linked(model),
        spent_once(model),
        model.ops.contains_key(a),
        model.ops.contains_key(b),
    ensures
        reached(seq![a], ancestor_links(model), b) <==> reached(seq![b], descendant_links(model), a),
{
    let up = ancestor_links(model);
    let down = descendant_links(model);
    assert(b != genesis_of(model));
    if reached(seq![a], up, b) {
        let path = choose|path: Seq<Opid>| #[trigger]
            link_path(seq![a], up, path) && path.last() == b;
        let back = path.reverse();
        let n = path.len();
        assert(back[0] == b && back.last() == path[0]);
        assert(seq![a].contains(path[0]));
        assert(seq![b][0] == b);
        assert(seq![b].contains(back[0]));
        assert forall|k: int| 0 < k < back.len() implies down(back[k - 1]).contains(
            #[trigger] back[k],
        ) by {
            let j = n - k;
            assert(back[k] == path[j - 1] && back[k - 1] == path[j]);
            assert(up(path[j - 1]).contains(path[j]));
            lemma_ancestors_stored(model, a, path, j);
            lemma_ancestors_stored(model, a, path, j - 1);
            lemma_links_converse(model, path[j - 1], path[j]);
        }
        assert(link_path(seq![b], down, back));
    }
    if reached(seq![b], down, a) {
        let path = choose|path: Seq<Opid>| #[trigger]
            link_path(seq![b], down, path) && path.last() == a;
        let back = path.reverse();
        let n = path.len();
        assert(back[0] == a && back.last() == path[0]);
        assert(seq![b].contains(path[0]));
        assert(seq![a][0] == a);
        assert(seq![a].contains(back[0]));
        assert forall|k: int| 0 < k < back.len() implies up(back[k - 1]).contains(#[trigger] back[k]) by {
            let j = n - k;
            assert(back[k] == path[j - 1] && back[k - 1] == path[j]);
            assert(down(path[j - 1]).contains(path[j]));
            lemma_descendants_stored(model, b, path, j);
            lemma_descendants_stored(model, b, path, j - 1);
            lemma_links_converse(model, path[j], path[j - 1]);
        }
        assert(link_path(seq![a], up, back));
    }
}

/// Two groups of seeds together reach what either of them reaches.
proof fn lemma_reached_together(
    one: Seq<Opid>,
    other: Seq<Opid>,
    links: spec_fn(Opid) -> Seq<Opid>,
    opid: Opid,
)
    ensures
        reached(one + other, links, opid) <==> reached(one, links, opid) || reached(
            other,
            links,
            opid,
        ),
{
    let both = one + other;
    if reached(both, links, opid) {
        let path = choose|path: Seq<Opid>| #[trigger]
            link_path(both, links, path) && path.last() == opid;
        let k = choose|k: int| 0 <= k < both.len() && both[k] == path[0];
        if k < one.len() {
            assert(one[k] == path[0]);
            assert(link_path(one, links, path));
        } else {
            assert(other[k - one.len()] == path[0]);
            assert(link_path(other, links, path));
        }
    }
    if reached(one, links, opid) {
        let path = choose|path: Seq<Opid>| #[trigger]
            link_path(one, links, path) && path.last() == opid;
        let k = choose|k: int| 0 <= k < one.len() && one[k] == path[0];
        assert(both[k] == path[0]);
        assert(link_path(both, links, path));
    }
    if reached(other, links, opid) {
        let path = choose|path: Seq<Opid>| #[trigger]
            link_path(other, links, path) && path.last() == opid;
        let k = choose|k: int| 0 <= k < other.len() && other[k] == path[0];
        assert(both[one.len() + k] == path[0]);
        assert(link_path(both, links, path));
    }
}

/// Rolling operations back in two steps leaves the same operations valid and the same memory as
/// rolling all of them back at once, where no operation outside lives on the cells which operations
/// that were not valid before have destroyed.
pub proof fn law_rollback_in_two_steps<
    G: Fn(usize, &StateData) -> Conversion<StateAtom>,
    O: Fn(usize, StateValue) -> Conversion<StrictVal>,
>(
    before: StockView,
    mid: StockView,
    stepwise: StockView,
    at_once: StockView,
    one: Seq<Opid>,
    other: Seq<Opid>,
    one_chain: Seq<Opid>,
    other_chain: Seq<Opid>,
    chain: Seq<Opid>,
    reader: ApiReader<G, O>,
)
    requires
        settled(before),
        all_known(before, chain),
        undisputed(before, chain),
        undisputed(before, one_chain),
        undisputed(mid, other_chain),
        walk(one, descendant_links(before), one_chain),
        undone_all(before, mid, one_chain.reverse(), reader),
        walk(other, descendant_links(mid), other_chain),
        undone_all(mid, stepwise, other_chain.reverse(), reader),
        walk(one + other, descendant_links(before), chain),
        undone_all(before, at_once, chain.reverse(), reader),
    ensures
        stepwise.valid == at_once.valid,
        stepwise.state.raw.owned == at_once.state.raw.owned,
        stepwise.state.raw.global == at_once.state.raw.global,
{
    lemma_chains_together(before, mid, one, other, one_chain, other_chain, chain, reader);
    assert forall|i: int| 0 <= i < one_chain.len() implies before.known(#[trigger] one_chain[i]) by {
        assert(one_chain.contains(one_chain[i]));
        assert(chain.contains(one_chain[i]));
        let k = choose|k: int| 0 <= k < chain.len() && chain[k] == one_chain[i];
        assert(before.known(chain[k]));
    }
    lemma_undone_frame(before, mid, one_chain.reverse(), reader);
    assert forall|i: int| 0 <= i < other_chain.len() implies mid.known(#[trigger] other_chain[i]) by {
        assert(other_chain.contains(other_chain[i]));
        assert(chain.contains(other_chain[i]));
        let k = choose|k: int| 0 <= k < chain.len() && chain[k] == other_chain[i];
        assert(before.known(chain[k]));
    }
    law_rollback_keeps_contract_settled(before, mid, one, one_chain, reader);
    law_rollback_keeps_contract_settled(before, at_once, one + other, chain, reader);
    law_rollback_keeps_contract_settled(mid, stepwise, other, other_chain, reader);
    assert(stepwise.valid =~= at_once.valid) by {
        assert forall|x: Opid| stepwise.valid.contains(x) == at_once.valid.contains(x) by {
            assert(chain.to_set().contains(x) == chain.contains(x));
            assert(one_chain.to_set().contains(x) == one_chain.contains(x));
            assert(other_chain.to_set().contains(x) == other_chain.contains(x));
            assert(chain.contains(x) <==> one_chain.contains(x) || other_chain.contains(x));
        }
    }
    lemma_undone_frame(before, at_once, chain.reverse(), reader);
    lemma_undone_frame(mid, stepwise, other_chain.reverse(), reader);
    law_valid_operations_determine_memory(stepwise, at_once);
}

/// The descendants of the operations of two lists are those of the one or of the other.
proof fn lemma_chains_together<
    G: Fn(usize, &StateData) -> Conversion<StateAtom>,
    O: Fn(usize, StateValue) -> Conversion<StrictVal>,
>(
    before: StockView,
    mid: StockView,
    one: Seq<Opid>,
    other: Seq<Opid>,
    one_chain: Seq<Opid>,
    other_chain: Seq<Opid>,
    chain: Seq<Opid>,
    reader: ApiReader<G, O>,
)
    requires
        walk(one, descendant_links(before), one_chain),
        undone_all(before, mid, one_chain.reverse(), reader),
        walk(other, descendant_links(mid), other_chain),
        walk(one + other, descendant_links(before), chain),
    ensures
        forall|x: Opid| #[trigger]
            chain.contains(x) <==> one_chain.contains(x) || other_chain.contains(x),
{
    let links = descendant_links(before);
    lemma_undone_frame(before, mid, one_chain.reverse(), reader);
    assert forall|x: Opid| #[trigger] descendant_links(mid)(x) == links(x) by {
        lemma_same_children(mid, before, x);
    }
    assert(descendant_links(mid) =~= links);
    law_chain_holds_the_reached(one, links, one_chain);
    law_chain_holds_the_reached(other, links, other_chain);
    law_chain_holds_the_reached(one + other, links, chain);
    assert forall|x: Opid| #[trigger] chain.contains(x) <==> one_chain.contains(x)
        || other_chain.contains(x) by {
        lemma_reached_together(one, other, links, x);
    }
}

/// Where all the operations concerned are valid before, no operation outside of them lives on the
/// cells which they have destroyed, neither before nor after some of them were rolled back.
pub proof fn law_valid_operations_are_undisputed<
    G: Fn(usize, &StateData) -> Conversion<StateAtom>,
    O: Fn(usize, StateValue) -> Conversion<StrictVal>,
>(
    before: StockView,
    mid: StockView,
    one: Seq<Opid>,
    other: Seq<Opid>,
    one_chain: Seq<Opid>,
    other_chain: Seq<Opid>,
    chain: Seq<Opid>,
    reader: ApiReader<G, O>,
)
    requires
        settled(before),
        all_known(before, chain),
        forall|i: int| 0 <= i < chain.len() ==> before.valid.contains(#[trigger] chain[i]),
        walk(one, descendant_links(before), one_chain),
        undone_all(before, mid, one_chain.reverse(), reader),
        walk(other, descendant_links(mid), other_chain),
        walk(one + other, descendant_links(before), chain),
    ensures
        undisputed(before, chain),
        undisputed(before, one_chain),
        undisputed(mid, other_chain),
{
    lemma_chains_together(before, mid, one, other, one_chain, other_chain, chain, reader);
    lemma_undone_frame(before, mid, one_chain.reverse(), reader);
    assert forall|x: Opid| #[trigger] chain.contains(x) implies before.valid.contains(x)
        && before.known(x) by {
        let k = choose|k: int| 0 <= k < chain.len() && chain[k] == x;
        assert(before.valid.contains(chain[k]) && before.known(chain[k]));
    }
    assert(undisputed(before, one_chain)) by {
        assert forall|x: Opid| #[trigger] one_chain.contains(x) implies before.valid.contains(x) by {
            assert(chain.contains(x));
        }
    }
    assert(undisputed(mid, other_chain)) by {
        assert forall|x: Opid, y: Opid, addr: CellAddr|
            #![trigger other_chain.contains(x), mid.valid.contains(y), takes(mid.ops[x], addr)]
            other_chain.contains(x) && !mid.valid.contains(x) && takes(mid.ops[x], addr)
                && mid.valid.contains(addr.opid) && !other_chain.contains(addr.opid)
                && mid.valid.contains(y) && !other_chain.contains(y) implies !takes(
            op_data(mid, y),
            addr,
        ) by {
            assert(chain.contains(x));
            assert(rooted(before, x) && rooted(before, y));
            assert(op_data(before, x) == before.ops[x]);
            if takes(op_data(mid, y), addr) {
                assert(op_data(mid, y) == op_data(before, y));
                assert(before.spent[addr] == x && before.spent[addr] == y);
            }
        }
    }
}

} // verus!
