//! What every walk over the operations keeps to: children are those which take the cells of an
//! operation, parents those whose cells it takes.

use crate::accept::{
    accept_outcome, accept_step, admitted_all, announced, opened, operations_outcome, rejected,
    UpgradeError,
};
use crate::apply::{
    applied_by, apply_failure, noted, record_failure, verify_outcome, AcceptError, SemanticError,
};
use crate::articles::Articles;
use crate::chain::{law_chain_holds_the_reached, law_chain_is_closed, reached, walk};
use crate::deed::done_outcome;
use crate::export::{holds, Stash};
use crate::forward::{eligible, forward_outcome, redone, redone_all, refused};
use crate::history::{lemma_admitted_are_valid, lemma_undone_frame};
use crate::ledger::{
    all_known, ancestor_links, descendant_links, genesis_of, law_descendants_are_known,
    reading_children, spending_children, MultiError,
};
use crate::memory_laws::destroys;
use crate::processed::{Conversion, StateAtom};
use crate::raw::{input_addrs, VerifiedOperation};
use crate::reader::{readings_by, ApiReader};
use crate::rollback::{rollback_failure, rollback_outcome, undo_failure, undone_all};
use crate::state::Readings;
use crate::stock::{
    apply_answer, commit_answer, committed, parent_list, readers, valid_of, Stock, StockSession,
    StockView,
};
use crate::stream::{header, stream_operations, HeaderFault, StreamError};
use crate::types::{CellAddr, ContractId, Operation, OperationView, Opid};
use crate::ultra::committed_opid;
use crate::wire_laws::{law_cut_header_is_refused, law_little_endian_value_weighs_bytes};
use strict_types::StrictVal;
use ultrasonic::StateData;
use ultrasonic::StateValue;
use vstd::prelude::*;

verus! {

/// An operation takes an output of another one, as the stock knows: it has read an immutable output,
/// or destroyed a destructible one.
pub open spec fn takes_from(model: StockView, child: Opid, parent: Opid) -> bool {
    ||| exists|no: u16|
        {
            let addr = #[trigger] output_at(parent, no);
            no < model.ops[parent].immutable_out.len() && model.read.contains_key(addr)
                && model.read[addr].contains(child)
        }
    ||| exists|no: u16|
        {
            let addr = #[trigger] output_at(parent, no);
            no < model.ops[parent].destructible_out.len() && model.spent.contains_key(addr)
                && model.spent[addr] == child
        }
}

/// The address of an output.
pub open spec fn output_at(opid: Opid, no: u16) -> CellAddr {
    CellAddr { opid, pos: no }
}

/// The children of an operation are those which have taken its outputs: all its readers and all its
/// spenders, and nobody else.
pub proof fn law_children_are_the_takers(model: StockView, opid: Opid)
    requires
        model.ops[opid].well_formed(),
    ensures
        forall|child: Opid| #[trigger]
            descendant_links(model)(opid).contains(child) <==> takes_from(model, child, opid),
{
    let op = model.ops[opid];
    let reads = reading_children(model, opid, op.immutable_out.len());
    let spends = spending_children(model, opid, op.destructible_out.len());
    assert forall|child: Opid| #[trigger]
        descendant_links(model)(opid).contains(child) <==> takes_from(model, child, opid) by {
        lemma_concat_contains(reads, spends, child);
        lemma_readers(model, opid, op.immutable_out.len(), child);
        lemma_spenders(model, opid, op.destructible_out.len(), child);
    }
}

/// A concatenation holds what its parts do.
proof fn lemma_concat_contains<X>(one: Seq<X>, other: Seq<X>, x: X)
    ensures
        (one + other).contains(x) <==> one.contains(x) || other.contains(x),
{
    let whole = one + other;
    if whole.contains(x) {
        let k = choose|k: int| 0 <= k < whole.len() && whole[k] == x;
        if k < one.len() {
            assert(one[k] == x);
        } else {
            assert(other[k - one.len()] == x);
        }
    }
    if one.contains(x) {
        let k = choose|k: int| 0 <= k < one.len() && one[k] == x;
        assert(whole[k] == x);
    }
    if other.contains(x) {
        let k = choose|k: int| 0 <= k < other.len() && other[k] == x;
        assert(whole[k + one.len()] == x);
    }
}

/// The readers of the first immutable outputs.
proof fn lemma_readers(model: StockView, opid: Opid, n: nat, child: Opid)
    requires
        n <= u16::MAX,
    ensures
        reading_children(model, opid, n).contains(child) <==> exists|no: u16|
            {
                let addr = #[trigger] output_at(opid, no);
                no < n && model.read.contains_key(addr) && model.read[addr].contains(child)
            },
    decreases n,
{
    if n > 0 {
        let k = (n - 1) as nat;
        lemma_readers(model, opid, k, child);
        let last = output_at(opid, k as u16);
        lemma_concat_contains(reading_children(model, opid, k), readers(model.read, last), child);
        if reading_children(model, opid, n).contains(child) && !reading_children(
            model,
            opid,
            k,
        ).contains(child) {
            assert(model.read.contains_key(output_at(opid, k as u16)));
        }
    }
}

/// The spenders of the first destructible outputs.
proof fn lemma_spenders(model: StockView, opid: Opid, n: nat, child: Opid)
    requires
        n <= u16::MAX,
    ensures
        spending_children(model, opid, n).contains(child) <==> exists|no: u16|
            {
                let addr = #[trigger] output_at(opid, no);
                no < n && model.spent.contains_key(addr) && model.spent[addr] == child
            },
    decreases n,
{
    if n > 0 {
        let k = (n - 1) as nat;
        lemma_spenders(model, opid, k, child);
        let last = output_at(opid, k as u16);
        let earlier = spending_children(model, opid, k);
        if model.spent.contains_key(last) {
            assert(earlier.push(model.spent[last]) =~= earlier + seq![model.spent[last]]);
            lemma_concat_contains(earlier, seq![model.spent[last]], child);
            assert(seq![model.spent[last]][0] == model.spent[last]);
            assert(seq![model.spent[last]].contains(child) <==> child == model.spent[last]) by {
                if seq![model.spent[last]].contains(child) {
                    let i = choose|i: int|
                        0 <= i < 1 && seq![model.spent[last]][i] == child;
                }
            }
            if child == model.spent[last] {
                assert(model.spent[output_at(opid, k as u16)] == child);
            }
        }
    }
}

/// The parents of an operation are the producers of all the cells which it reads and destroys, and
/// nobody else. Their list has one entry for each of these cells: first those which are read, then
/// those which are destroyed.
pub proof fn law_parents_are_the_producers(op: OperationView)
    ensures
        parent_list(op).len() == op.immutable_in.len() + op.destructible_in.len(),
        forall|i: int|
            0 <= i < op.immutable_in.len() ==> parent_list(op)[i] == (
            #[trigger] op.immutable_in[i]).opid,
        forall|i: int|
            0 <= i < op.destructible_in.len() ==> parent_list(op)[op.immutable_in.len() + i] == (
            #[trigger] op.destructible_in[i]).addr.opid,
        forall|i: int|
            0 <= i < op.immutable_in.len() ==> op.parents().contains(
                (#[trigger] op.immutable_in[i]).opid,
            ),
        forall|i: int|
            0 <= i < op.destructible_in.len() ==> op.parents().contains(
                (#[trigger] op.destructible_in[i]).addr.opid,
            ),
        forall|parent: Opid| #[trigger]
            op.parents().contains(parent) ==> parent_list(op).contains(parent),
{
    assert forall|parent: Opid| #[trigger] op.parents().contains(parent) implies parent_list(
        op,
    ).contains(parent) by {
        if exists|i: int|
            0 <= i < op.destructible_in.len() && (#[trigger] op.destructible_in[i]).addr.opid
                == parent {
            let i = choose|i: int|
                0 <= i < op.destructible_in.len() && (#[trigger] op.destructible_in[i]).addr.opid
                    == parent;
            assert(parent_list(op)[op.immutable_in.len() + i] == parent);
        } else {
            let i = choose|i: int|
                0 <= i < op.immutable_in.len() && (#[trigger] op.immutable_in[i]).opid == parent;
            assert(parent_list(op)[i] == parent);
        }
    }
}

/// The list holds the given operations and, with each of its operations, all those which take the
/// outputs of that one. Nothing else is in it: an operation is one of the given ones, or takes an
/// output of one which stands earlier. None repeats.
pub open spec fn holds_takers(model: StockView, opids: Seq<Opid>, list: Seq<Opid>) -> bool {
    &&& list.no_duplicates()
    &&& forall|opid: Opid| #[trigger] opids.contains(opid) ==> list.contains(opid)
    &&& forall|i: int, child: Opid|
        0 <= i < list.len() && #[trigger] takes_from(model, child, list[i]) ==> list.contains(child)
    &&& forall|i: int|
        0 <= i < list.len() ==> opids.contains(#[trigger] list[i]) || exists|j: int|
            0 <= j < i && #[trigger] takes_from(model, list[i], list[j])
}

/// The descendants of operations are the operations themselves, those which take their outputs,
/// those which take the outputs of the latter, and so on.
pub proof fn law_descendants_are_the_takers(model: StockView, opids: Seq<Opid>, list: Seq<Opid>)
    requires
        walk(opids, descendant_links(model), list),
        forall|i: int| 0 <= i < list.len() ==> model.ops[#[trigger] list[i]].well_formed(),
    ensures
        holds_takers(model, opids, list),
{
    let links = descendant_links(model);
    law_chain_is_closed(opids, links, list);
    law_chain_holds_the_reached(opids, links, list);
    assert forall|i: int, child: Opid|
        0 <= i < list.len() && #[trigger] takes_from(model, child, list[i]) implies list.contains(
        child,
    ) by {
        law_children_are_the_takers(model, list[i]);
        assert(links(list[i]).contains(child));
    }
    assert forall|i: int| 0 <= i < list.len() implies opids.contains(#[trigger] list[i]) || exists|
        j: int,
    |
        0 <= j < i && #[trigger] takes_from(model, list[i], list[j]) by {
        if !opids.contains(list[i]) {
            let j = choose|j: int| 0 <= j < i && #[trigger] links(list[j]).contains(list[i]);
            law_children_are_the_takers(model, list[j]);
            assert(takes_from(model, list[i], list[j]));
        }
    }
}

/// The ancestors of operations are the operations themselves, their parents, the parents of the
/// latter, and so on, up to genesis. Nothing else is among them, and none repeats.
pub proof fn law_ancestors_are_the_producers(model: StockView, opids: Seq<Opid>, list: Seq<Opid>)
    requires
        walk(opids, ancestor_links(model), list),
    ensures
        list.no_duplicates(),
        forall|opid: Opid| #[trigger] opids.contains(opid) ==> list.contains(opid),
        forall|i: int, parent: Opid|
            0 <= i < list.len() && list[i] != genesis_of(model)
                && #[trigger] model.ops[list[i]].parents().contains(parent) ==> list.contains(
                parent,
            ),
        forall|i: int|
            0 <= i < list.len() ==> opids.contains(#[trigger] list[i]) || exists|j: int|
                0 <= j < i && list[j] != genesis_of(model)
                    && #[trigger] model.ops[list[j]].parents().contains(list[i]),
{
    let links = ancestor_links(model);
    law_chain_is_closed(opids, links, list);
    law_chain_holds_the_reached(opids, links, list);
    assert forall|i: int, parent: Opid|
        0 <= i < list.len() && list[i] != genesis_of(model)
            && #[trigger] model.ops[list[i]].parents().contains(parent) implies list.contains(
        parent,
    ) by {
        law_parents_are_the_producers(model.ops[list[i]]);
        assert(links(list[i]).contains(parent));
    }
    assert forall|i: int| 0 <= i < list.len() implies opids.contains(#[trigger] list[i]) || exists|
        j: int,
    |
        0 <= j < i && list[j] != genesis_of(model)
            && #[trigger] model.ops[list[j]].parents().contains(list[i]) by {
        if !opids.contains(list[i]) {
            let j = choose|j: int| 0 <= j < i && #[trigger] links(list[j]).contains(list[i]);
            let op = model.ops[list[j]];
            law_parents_are_the_producers(op);
            let k = choose|k: int| 0 <= k < parent_list(op).len() && parent_list(op)[k] == list[i];
            if k < op.immutable_in.len() {
                assert(op.parents().contains(op.immutable_in[k].opid));
            } else {
                let m = k - op.immutable_in.len();
                assert(op.parents().contains(op.destructible_in[m].addr.opid));
                assert(parent_list(op)[op.immutable_in.len() + m] == parent_list(op)[k]);
            }
            assert(model.ops[list[j]].parents().contains(list[i]));
        }
    }
}

/// The operations of a chain of descendants are in the stock, and they are in order.
proof fn lemma_chain_in_order(model: StockView, opids: Seq<Opid>, chain: Seq<Opid>)
    requires
        model.consistent(),
        all_known(model, opids),
        walk(opids, descendant_links(model), chain),
    ensures
        forall|i: int| 0 <= i < chain.len() ==> model.ops[#[trigger] chain[i]].well_formed(),
        forall|opid: Opid| chain.contains(opid) ==> #[trigger] model.ops.contains_key(opid),
{
    law_descendants_are_known(model, opids);
    law_chain_holds_the_reached(opids, descendant_links(model), chain);
    assert forall|opid: Opid| chain.contains(opid) implies #[trigger] model.ops.contains_key(opid) by {
        assert(model.known(opid));
    }
    assert forall|i: int| 0 <= i < chain.len() implies model.ops[#[trigger] chain[i]].well_formed() by {
        assert(chain.contains(chain[i]));
        assert(model.ops.contains_key(chain[i]));
    }
}

/// Rolling operations back makes them invalid, all of them, together with all their descendants; any
/// other operation is as valid as before. But for this and for the state, nothing changes.
pub proof fn law_rollback_reaches_every_descendant<
    S: Stock,
    G: Fn(usize, &StateData) -> Conversion<StateAtom>,
    O: Fn(usize, StateValue) -> Conversion<StrictVal>,
>(
    before: StockView,
    after: StockView,
    opids: Seq<Opid>,
    reader: ApiReader<G, O>,
    r: Result<(), S::Error>,
)
    requires
        before.consistent(),
        all_known(before, opids),
        r is Ok,
        rollback_outcome::<S, G, O>(before, after, opids, reader, r),
    ensures
        exists|list: Seq<Opid>| #[trigger]
            holds_takers(before, opids, list) && forall|x: Opid| #[trigger]
                after.valid.contains(x) <==> before.valid.contains(x) && !list.contains(x),
        forall|i: int| 0 <= i < opids.len() ==> !after.valid.contains(#[trigger] opids[i]),
        forall|child: Opid, parent: Opid|
            #![trigger takes_from(before, child, parent), before.valid.contains(child)]
            takes_from(before, child, parent) && before.valid.contains(parent)
                && !after.valid.contains(parent) ==> !after.valid.contains(child),
        after == (StockView { valid: after.valid, state: after.state, ..before }),
{
    let chain = choose|chain: Seq<Opid>|
        {
            &&& #[trigger] walk(opids, descendant_links(before), chain)
            &&& undone_all(before, after, chain.reverse(), reader)
        };
    lemma_chain_in_order(before, opids, chain);
    law_descendants_are_the_takers(before, opids, chain);
    let order = chain.reverse();
    lemma_undone_frame(before, after, order, reader);
    assert forall|x: Opid| order.contains(x) == chain.contains(x) by {
        if order.contains(x) {
            let k = choose|k: int| 0 <= k < order.len() && order[k] == x;
            assert(chain[chain.len() - 1 - k] == x);
        }
        if chain.contains(x) {
            let k = choose|k: int| 0 <= k < chain.len() && chain[k] == x;
            assert(order[chain.len() - 1 - k] == x);
        }
    }
    assert forall|x: Opid| #[trigger] after.valid.contains(x) <==> before.valid.contains(x)
        && !chain.contains(x) by {
        assert(order.to_set().contains(x) == order.contains(x));
    }
    assert forall|i: int| 0 <= i < opids.len() implies !after.valid.contains(#[trigger] opids[i]) by {
        assert(opids.contains(opids[i]));
    }
    assert forall|child: Opid, parent: Opid|
        #![trigger takes_from(before, child, parent), before.valid.contains(child)]
        takes_from(before, child, parent) && before.valid.contains(parent) && !after.valid.contains(
            parent,
        ) implies !after.valid.contains(child) by {
        let i = choose|i: int| 0 <= i < chain.len() && chain[i] == parent;
        assert(takes_from(before, child, chain[i]));
    }
    assert(holds_takers(before, opids, chain));
}

/// Operations which are brought back make none invalid.
proof fn lemma_redone_grows<
    G: Fn(usize, &StateData) -> Conversion<StateAtom>,
    O: Fn(usize, StateValue) -> Conversion<StrictVal>,
>(before: StockView, after: StockView, opids: Seq<Opid>, reader: ApiReader<G, O>)
    requires
        redone_all(before, after, opids, reader),
        forall|opid: Opid| opids.contains(opid) ==> #[trigger] before.ops.contains_key(opid),
    ensures
        before.valid.subset_of(after.valid),
        after.ops == before.ops,
        after.articles == before.articles,
        forall|x: Opid| #[trigger]
            after.valid.contains(x) ==> before.valid.contains(x) || opids.contains(x),
        forall|i: int|
            0 <= i < opids.len() && (forall|id: Opid| #[trigger]
                reached(seq![opids[i]], ancestor_links(before), id) && id != opids[i]
                    ==> before.valid.contains(id)) ==> after.valid.contains(#[trigger] opids[i]),
    decreases opids.len(),
{
    if opids.len() > 0 {
        let less = opids.drop_last();
        let last = opids.last();
        let mid = choose|mid: StockView|
            redone_all(before, mid, less, reader) && #[trigger] redone(mid, after, last, reader);
        assert(opids[opids.len() - 1] == last);
        assert(opids.contains(last));
        assert forall|opid: Opid| less.contains(opid) implies opids.contains(opid) by {
            let k = choose|k: int| 0 <= k < less.len() && less[k] == opid;
            assert(opids[k] == opid);
        }
        lemma_redone_grows(before, mid, less, reader);
        assert(before.ops.contains_key(last));
        if eligible(mid, last) {
            assert(after.valid == mid.valid.insert(last));
            assert(after.ops =~= mid.ops);
        }
        assert(ancestor_links(mid) =~= ancestor_links(before));
        assert forall|i: int|
            0 <= i < opids.len() && (forall|id: Opid| #[trigger]
                reached(seq![opids[i]], ancestor_links(before), id) && id != opids[i]
                    ==> before.valid.contains(id)) implies after.valid.contains(
            #[trigger] opids[i],
        ) by {
            if i < less.len() {
                assert(less[i] == opids[i]);
                assert(mid.valid.contains(less[i]));
            } else {
                assert(eligible(mid, last));
            }
        }
    }
}

/// Bringing operations back makes none invalid, and none valid but the operations and their
/// descendants. Each of the latter, all the ancestors of which are valid, is valid then.
pub proof fn law_forward_reaches_every_descendant<
    S: Stock,
    G: Fn(usize, &StateData) -> Conversion<StateAtom>,
    O: Fn(usize, StateValue) -> Conversion<StrictVal>,
>(
    before: StockView,
    after: StockView,
    opids: Seq<Opid>,
    reader: ApiReader<G, O>,
    r: Result<(), MultiError<AcceptError, S::Error>>,
)
    requires
        before.consistent(),
        all_known(before, opids),
        r is Ok,
        forward_outcome::<S, G, O>(before, after, opids, reader, r),
    ensures
        exists|list: Seq<Opid>| #[trigger]
            holds_takers(before, opids, list) && (forall|x: Opid| #[trigger]
                after.valid.contains(x) ==> before.valid.contains(x) || list.contains(x)) && (forall|
                i: int,
            |
                0 <= i < list.len() && (forall|id: Opid| #[trigger]
                    reached(seq![list[i]], ancestor_links(before), id) && id != list[i]
                        ==> before.valid.contains(id)) ==> after.valid.contains(#[trigger] list[i])),
        before.valid.subset_of(after.valid),
{
    let chain = choose|chain: Seq<Opid>|
        {
            &&& #[trigger] walk(opids, descendant_links(before), chain)
            &&& redone_all(before, after, chain, reader)
        };
    lemma_chain_in_order(before, opids, chain);
    law_descendants_are_the_takers(before, opids, chain);
    lemma_redone_grows(before, after, chain, reader);
    assert(holds_takers(before, opids, chain));
}

/// Whether an operation is verified and applied depends on its contract, on whether it is valid
/// already, and on the request to apply it anyway. An operation of another contract is refused; one
/// which is valid is left alone, unless it has to be applied anyway; any other one is applied if and
/// only if the codex accepts it. Where it is not applied, nothing changes.
pub proof fn law_operation_is_verified_before_it_is_applied<
    S: Stock,
    G: Fn(usize, &StateData) -> Conversion<StateAtom>,
    O: Fn(usize, StateValue) -> Conversion<StrictVal>,
>(
    before: StockView,
    after: StockView,
    id: ContractId,
    operation: Operation,
    force: bool,
    reader: ApiReader<G, O>,
    r: Result<bool, MultiError<AcceptError, S::Error>>,
)
    requires
        verify_outcome::<S, G, O>(before, after, id, operation, force, reader, r),
    ensures
        operation.contract_id != id ==> (r matches Err(
            MultiError::A(AcceptError::Articles(SemanticError::ContractMismatch)),
        )) && after == before,
        operation.contract_id == id && before.valid.contains(committed_opid(operation@)) && !force
            ==> r == Ok::<bool, MultiError<AcceptError, S::Error>>(true) && after == before,
        operation.contract_id == id && (force || !before.valid.contains(committed_opid(operation@)))
            && r is Ok ==> {
            &&& before.articles.verdict(operation@, before.state.raw) is Ok
            &&& r == Ok::<bool, MultiError<AcceptError, S::Error>>(
                before.valid.contains(committed_opid(operation@)),
            )
            &&& after.valid == before.valid.insert(committed_opid(operation@))
            &&& after.ops == before.ops.insert(committed_opid(operation@), operation@)
            &&& after.state.raw == before.state.raw.applied(committed_opid(operation@), operation@)
            &&& after.articles == before.articles
            &&& forall|i: int|
                0 <= i < operation@.destructible_in.len() ==> after.spent.contains_key(
                    (#[trigger] operation@.destructible_in[i]).addr,
                ) && after.spent[operation@.destructible_in[i].addr] == committed_opid(operation@)
            &&& forall|i: int|
                0 <= i < operation@.immutable_in.len() ==> readers(
                    after.read,
                    #[trigger] operation@.immutable_in[i],
                ).contains(committed_opid(operation@))
            &&& after.trace.contains_key(committed_opid(operation@))
            &&& after.stash.contains((committed_opid(operation@), operation@))
            &&& forall|addr: CellAddr|
                (forall|i: int|
                    0 <= i < operation@.destructible_in.len() ==> (
                    #[trigger] operation@.destructible_in[i]).addr != addr) ==> (
                #[trigger] after.spent.contains_key(addr) <==> before.spent.contains_key(addr)) && (
                before.spent.contains_key(addr) ==> after.spent[addr] == before.spent[addr])
            &&& forall|addr: CellAddr, x: Opid|
                x != committed_opid(operation@) ==> (#[trigger] readers(after.read, addr).contains(
                    x,
                ) <==> readers(before.read, addr).contains(x))
            &&& forall|x: Opid|
                x != committed_opid(operation@) ==> (#[trigger] after.trace.contains_key(x)
                    <==> before.trace.contains_key(x)) && (before.trace.contains_key(x)
                    ==> after.trace[x] == before.trace[x])
            &&& forall|entry: (Opid, OperationView)|
                entry.0 != committed_opid(operation@) ==> (#[trigger] after.stash.contains(entry)
                    <==> before.stash.contains(entry))
        },
        r matches Err(MultiError::A(AcceptError::Verify(e))) ==> after == before
            && before.articles.verdict(operation@, before.state.raw) == Err::<(), _>(e),
        r matches Err(MultiError::A(reason)) ==> reason is Verify || reason is Articles,
{
    let opid = committed_opid(operation@);
    if operation.contract_id == id && (force || !before.valid.contains(opid)) && r is Ok {
        assert(applied_by(before, after, opid, operation, false, reader));
        assert forall|i: int| 0 <= i < operation@.immutable_in.len() implies readers(
            after.read,
            #[trigger] operation@.immutable_in[i],
        ).contains(opid) by {
            assert(operation@.immutable_in.contains(operation@.immutable_in[i]));
        }
        assert forall|i: int| 0 <= i < operation@.destructible_in.len() implies after.spent.contains_key(
            (#[trigger] operation@.destructible_in[i]).addr,
        ) && after.spent[operation@.destructible_in[i].addr] == opid by {
            assert(input_addrs(operation@.destructible_in).contains(
                operation@.destructible_in[i].addr,
            ));
        }
        assert(after.stash.contains((opid, operation@)));
        assert forall|addr: CellAddr|
            (forall|i: int|
                0 <= i < operation@.destructible_in.len() ==> (
                #[trigger] operation@.destructible_in[i]).addr != addr) implies (
        #[trigger] after.spent.contains_key(addr) <==> before.spent.contains_key(addr)) && (
        before.spent.contains_key(addr) ==> after.spent[addr] == before.spent[addr]) by {
            assert(!input_addrs(operation@.destructible_in).contains(addr));
        }
    }
}

/// The list of the valid operations holds every valid operation of the stash, in the order of the
/// stash, and no other.
pub proof fn law_valid_operations_are_listed(stash: Stash, valid: Set<Opid>)
    ensures
        valid_of(stash, valid) == stash.filter(
            |entry: (Opid, OperationView)| valid.contains(entry.0),
        ).map_values(|entry: (Opid, OperationView)| entry.0),
        forall|opid: Opid| #[trigger]
            valid_of(stash, valid).contains(opid) <==> valid.contains(opid) && holds(stash, opid),
    decreases stash.len(),
{
    reveal(Seq::filter);
    let pred = |entry: (Opid, OperationView)| valid.contains(entry.0);
    let key = |entry: (Opid, OperationView)| entry.0;
    if stash.len() == 0 {
        assert(stash.filter(pred).map_values(key) =~= Seq::empty());
    } else {
        let less = stash.drop_last();
        let last = stash.last();
        law_valid_operations_are_listed(less, valid);
        if valid.contains(last.0) {
            assert(stash.filter(pred) == less.filter(pred).push(last));
            assert(less.filter(pred).push(last).map_values(key) =~= less.filter(pred).map_values(
                key,
            ).push(last.0));
        }
        assert forall|opid: Opid| #[trigger]
            valid_of(stash, valid).contains(opid) <==> valid.contains(opid) && holds(stash, opid) by {
            let earlier = valid_of(less, valid);
            if valid.contains(last.0) {
                assert(earlier.push(last.0) =~= earlier + seq![last.0]);
                lemma_concat_contains(earlier, seq![last.0], opid);
                assert(seq![last.0][0] == last.0);
                if seq![last.0].contains(opid) {
                    let i = choose|i: int| 0 <= i < 1 && seq![last.0][i] == opid;
                }
            }
            assert(earlier.contains(opid) <==> valid.contains(opid) && holds(less, opid));
            assert(holds(stash, opid) <==> holds(less, opid) || opid == last.0) by {
                if holds(stash, opid) {
                    let i = choose|i: int| 0 <= i < stash.len() && (#[trigger] stash[i]).0 == opid;
                    if i < less.len() {
                        assert(less[i].0 == opid);
                    }
                }
                if holds(less, opid) {
                    let i = choose|i: int| 0 <= i < less.len() && (#[trigger] less[i]).0 == opid;
                    assert(stash[i].0 == opid);
                }
                if opid == last.0 {
                    assert(stash[stash.len() - 1].0 == opid);
                }
            }
        }
    }
}

/// A stream which was accepted has brought the articles up to date, and all the operations which it
/// holds are valid then, as are those which were so before; nothing else than operations was in it. It
/// announces their number in four bytes
/// after the articles, the lowest one first.
pub proof fn law_accepted_stream_leaves_no_operation_out<
    S: Stock,
    G: Fn(usize, &StateData) -> Conversion<StateAtom>,
    O: Fn(usize, StateValue) -> Conversion<StrictVal>,
    U: Fn(&Articles, Articles) -> Result<(Articles, bool), UpgradeError>,
>(
    before: StockView,
    after: StockView,
    bytes: Seq<u8>,
    articles: Articles,
    end: usize,
    upgrade: U,
    reader: ApiReader<G, O>,
    r: Result<(), MultiError<AcceptError, S::Error>>,
)
    requires
        r is Ok,
        accept_outcome::<S, G, O, U>(
            before,
            after,
            bytes,
            Ok((articles, end)),
            upgrade,
            reader,
            r,
        ),
    ensures
        end + 4 <= bytes.len(),
        exists|flag: bool| #[trigger]
            call_ensures(upgrade, (&before.articles, articles), Ok((after.articles, flag))),
        ({
            let count = (bytes[end as int] + 256 * bytes[end + 1] + 65536 * bytes[end + 2] + 16777216
                * bytes[end + 3]) as nat;
            let (ops, faulty) = stream_operations(bytes.skip(end as int + 4), count + 1);
            !faulty && forall|i: int|
                0 <= i < ops.len() ==> after.valid.contains(committed_opid(#[trigger] ops[i]))
                    && ops[i].contract_id == after.articles.contract_id
        }),
        before.valid.subset_of(after.valid),
{
    let outcome = choose|outcome: Result<(Articles, bool), UpgradeError>|
        {
            &&& #[trigger] call_ensures(upgrade, (&before.articles, articles), outcome)
            &&& accept_step::<S, G, O>(before, after, bytes, end, outcome, reader, r)
        };
    let (upgraded, flag) = outcome->Ok_0;
    let mid = StockView { articles: upgraded, ..before };
    let size = bytes.subrange(end as int, end as int + 4);
    law_little_endian_value_weighs_bytes(size);
    assert(size[0] == bytes[end as int] && size[1] == bytes[end + 1] && size[2] == bytes[end + 2]
        && size[3] == bytes[end + 3]);
    let count = announced(bytes, end as nat)->Some_0;
    let ops = stream_operations(bytes.skip(end as int + 4), count + 1).0;
    assert(admitted_all(mid, after, ops, reader));
    lemma_admitted_are_valid(mid, after, ops, reader);
    assert(call_ensures(upgrade, (&before.articles, articles), Ok((after.articles, flag))));
}

/// The children of an operation stand in order: the readers of its immutable outputs, output by output,
/// then the spenders of its destructible ones, output by output.
pub proof fn law_children_stand_in_order(model: StockView, opid: Opid)
    requires
        model.ops[opid].well_formed(),
    ensures
        descendant_links(model)(opid) == Seq::new(
            model.ops[opid].immutable_out.len(),
            |no: int| readers(model.read, output_at(opid, no as u16)),
        ).flatten_alt() + Seq::new(
            model.ops[opid].destructible_out.len(),
            |no: int|
                if model.spent.contains_key(output_at(opid, no as u16)) {
                    seq![model.spent[output_at(opid, no as u16)]]
                } else {
                    Seq::<Opid>::empty()
                },
        ).flatten_alt(),
{
    let op = model.ops[opid];
    let read = |no: int| readers(model.read, output_at(opid, no as u16));
    let spent = |no: int|
        if model.spent.contains_key(output_at(opid, no as u16)) {
            seq![model.spent[output_at(opid, no as u16)]]
        } else {
            Seq::<Opid>::empty()
        };
    lemma_readers_in_order(model, opid, op.immutable_out.len(), read);
    lemma_spenders_in_order(model, opid, op.destructible_out.len(), spent);
}

/// The readers, output by output.
proof fn lemma_readers_in_order(
    model: StockView,
    opid: Opid,
    n: nat,
    read: spec_fn(int) -> Seq<Opid>,
)
    requires
        forall|no: int| #[trigger] read(no) == readers(model.read, output_at(opid, no as u16)),
    ensures
        reading_children(model, opid, n) == Seq::new(n, read).flatten_alt(),
    decreases n,
{
    let list = Seq::new(n, read);
    if n > 0 {
        let k = (n - 1) as nat;
        lemma_readers_in_order(model, opid, k, read);
        assert(list.drop_last() =~= Seq::new(k, read));
        assert(list.last() == read(k as int));
    }
}

/// The spenders, output by output.
proof fn lemma_spenders_in_order(
    model: StockView,
    opid: Opid,
    n: nat,
    spent: spec_fn(int) -> Seq<Opid>,
)
    requires
        forall|no: int| #[trigger]
            spent(no) == if model.spent.contains_key(output_at(opid, no as u16)) {
                seq![model.spent[output_at(opid, no as u16)]]
            } else {
                Seq::<Opid>::empty()
            },
    ensures
        spending_children(model, opid, n) == Seq::new(n, spent).flatten_alt(),
    decreases n,
{
    let list = Seq::new(n, spent);
    if n > 0 {
        let k = (n - 1) as nat;
        lemma_spenders_in_order(model, opid, k, spent);
        assert(list.drop_last() =~= Seq::new(k, spent));
        assert(list.last() == spent(k as int));
        let earlier = spending_children(model, opid, k);
        let addr = output_at(opid, k as u16);
        if model.spent.contains_key(addr) {
            assert(earlier.push(model.spent[addr]) =~= earlier + seq![model.spent[addr]]);
        } else {
            assert(earlier + Seq::<Opid>::empty() =~= earlier);
        }
    }
}

/// The articles of a stream are taken from the place after its beginning, and only if they are those of
/// the contract which the beginning names.
pub proof fn law_opened_stream_is_of_one_contract<
    D: Fn(&Vec<u8>, usize) -> Result<(Articles, usize), AcceptError>,
>(stream: Vec<u8>, decode: D, articles: Articles, end: usize)
    requires
        opened(stream, decode, Ok::<(Articles, usize), AcceptError>((articles, end))),
    ensures
        exists|at: usize|
            {
                &&& #[trigger] call_ensures(decode, (&stream, at), Ok((articles, end)))
                &&& header(stream@) == Ok::<(ContractId, nat), HeaderFault>(
                    (articles.contract_id, at as nat),
                )
            },
{
    let (id, at) = header(stream@)->Ok_0;
    law_cut_header_is_refused(stream@);
    let outcome = choose|outcome: Result<(Articles, usize), AcceptError>|
        {
            &&& #[trigger] call_ensures(decode, (&stream, at as usize), outcome)
            &&& match outcome {
                Err(e) => false,
                Ok((found, place)) => found.contract_id == id && found == articles && place == end,
            }
        };
    assert(call_ensures(decode, (&stream, at as usize), Ok((articles, end))));
    assert(stream.len() == stream@.len());
    let place = at as usize;
    assert(place == at);
    assert(call_ensures(decode, (&stream, place), Ok((articles, end))));
}

/// Where the operations of a stream are not all accepted, those before the refused one are, and the
/// refused one is told for what it is: an operation of another contract, or one which the codex refuses
/// in the state which the earlier ones have made. Otherwise the stream holds bytes which are no
/// operation, after operations which are all accepted.
pub proof fn law_refused_stream_stops_at_the_operation<
    S: Stock,
    G: Fn(usize, &StateData) -> Conversion<StateAtom>,
    O: Fn(usize, StateValue) -> Conversion<StrictVal>,
>(
    before: StockView,
    after: StockView,
    bytes: Seq<u8>,
    n: nat,
    reader: ApiReader<G, O>,
    reason: AcceptError,
)
    requires
        operations_outcome::<S, G, O>(
            before,
            after,
            bytes,
            n,
            reader,
            Err::<(), MultiError<AcceptError, S::Error>>(MultiError::A(reason)),
        ),
    ensures
        ({
            let (ops, faulty) = stream_operations(bytes, n);
            ||| {
                &&& faulty
                &&& reason is Decode
                &&& forall|j: int|
                    0 <= j < ops.len() ==> after.valid.contains(committed_opid(#[trigger] ops[j]))
            }
            ||| exists|i: int|
                {
                    &&& 0 <= i < ops.len()
                    &&& is_refused(after, #[trigger] ops[i], reason)
                    &&& forall|j: int|
                        0 <= j < i ==> after.valid.contains(committed_opid(#[trigger] ops[j]))
                }
        }),
        before.valid.subset_of(after.valid),
        after.articles == before.articles,
{
    let (ops, faulty) = stream_operations(bytes, n);
    if faulty && admitted_all(before, after, ops, reader) && reason is Decode {
        lemma_admitted_are_valid(before, after, ops, reader);
    } else {
        let i = choose|i: int|
            {
                &&& 0 <= i < ops.len()
                &&& admitted_all(before, after, #[trigger] ops.take(i), reader)
                &&& rejected(after, ops[i], reason)
            };
        lemma_admitted_are_valid(before, after, ops.take(i), reader);
        assert(is_refused(after, ops[i], reason));
        assert forall|j: int| 0 <= j < i implies after.valid.contains(
            committed_opid(#[trigger] ops[j]),
        ) by {
            assert(ops.take(i)[j] == ops[j]);
        }
    }
}

/// An operation is refused for being one of another contract, or for what the codex finds wrong with it.
/// One of the contract which is refused is not valid.
pub open spec fn is_refused(model: StockView, op: OperationView, reason: AcceptError) -> bool {
    if op.contract_id != model.articles.contract_id {
        reason matches AcceptError::Articles(SemanticError::ContractMismatch)
    } else {
        &&& reason matches AcceptError::Verify(e) && model.articles.verdict(op, model.state.raw)
            == Err::<(), _>(e)
        &&& !model.valid.contains(committed_opid(op))
    }
}

/// Where an operation is not brought back because it is refused, all its ancestors are valid, and the
/// codex refuses it in the state which those before it have made.
pub proof fn law_refused_forward_stops_at_the_operation<
    S: Stock,
    G: Fn(usize, &StateData) -> Conversion<StateAtom>,
    O: Fn(usize, StateValue) -> Conversion<StrictVal>,
>(
    before: StockView,
    after: StockView,
    opids: Seq<Opid>,
    reader: ApiReader<G, O>,
    reason: AcceptError,
)
    requires
        before.consistent(),
        all_known(before, opids),
        forward_outcome::<S, G, O>(
            before,
            after,
            opids,
            reader,
            Err::<(), MultiError<AcceptError, S::Error>>(MultiError::A(reason)),
        ),
    ensures
        exists|list: Seq<Opid>, n: int|
            {
                &&& #[trigger] holds_takers(before, opids, list)
                &&& 0 <= n < list.len()
                &&& (forall|id: Opid| #[trigger]
                    reached(seq![list[n]], ancestor_links(after), id) && id != list[n]
                        ==> after.valid.contains(id))
                &&& if after.ops[#[trigger] list[n]].contract_id != after.articles.contract_id {
                    reason matches AcceptError::Articles(SemanticError::ContractMismatch)
                } else {
                    reason matches AcceptError::Verify(e) && after.articles.verdict(
                        after.ops[list[n]],
                        after.state.raw,
                    ) == Err::<(), _>(e)
                }
            },
        before.valid.subset_of(after.valid),
{
    let chain = choose|chain: Seq<Opid>|
        {
            &&& #[trigger] walk(opids, descendant_links(before), chain)
            &&& exists|n: int|
                {
                    &&& 0 <= n < chain.len()
                    &&& redone_all(before, after, #[trigger] chain.take(n), reader)
                    &&& eligible(after, chain[n])
                    &&& refused(after, after.ops[chain[n]], reason)
                }
        };
    let n = choose|n: int|
        {
            &&& 0 <= n < chain.len()
            &&& redone_all(before, after, #[trigger] chain.take(n), reader)
            &&& eligible(after, chain[n])
            &&& refused(after, after.ops[chain[n]], reason)
        };
    lemma_chain_in_order(before, opids, chain);
    law_descendants_are_the_takers(before, opids, chain);
    let part = chain.take(n);
    assert forall|opid: Opid| part.contains(opid) implies #[trigger] before.ops.contains_key(opid) by {
        let k = choose|k: int| 0 <= k < part.len() && part[k] == opid;
        assert(chain[k] == opid);
        assert(chain.contains(opid));
    }
    lemma_redone_grows(before, after, part, reader);
    assert(holds_takers(before, opids, chain));
    assert(after.ops[chain[n]] == after.ops[chain[n]]);
}

/// A stream which can't be read up to its operations leaves everything as it was, but for the articles,
/// which an upgrade may have replaced by then.
pub proof fn law_unread_stream_brings_no_operation<
    S: Stock,
    G: Fn(usize, &StateData) -> Conversion<StateAtom>,
    O: Fn(usize, StateValue) -> Conversion<StrictVal>,
    U: Fn(&Articles, Articles) -> Result<(Articles, bool), UpgradeError>,
>(
    before: StockView,
    after: StockView,
    bytes: Seq<u8>,
    start: Result<(Articles, usize), AcceptError>,
    upgrade: U,
    reader: ApiReader<G, O>,
    r: Result<(), MultiError<AcceptError, S::Error>>,
)
    requires
        accept_outcome::<S, G, O, U>(before, after, bytes, start, upgrade, reader, r),
    ensures
        start matches Err(reason) ==> r == Err::<(), MultiError<AcceptError, S::Error>>(
            MultiError::A(reason),
        ) && after == before,
        match start {
            Err(_) => true,
            Ok((articles, _)) => (forall|outcome: Result<(Articles, bool), UpgradeError>|
                #[trigger]
                call_ensures(upgrade, (&before.articles, articles), outcome) ==> outcome is Err)
                ==> after == before && (r matches Err(MultiError::A(AcceptError::Persistence(text)))
                && exists|e: UpgradeError|
                call_ensures(
                    upgrade,
                    (&before.articles, articles),
                    Err::<(Articles, bool), UpgradeError>(e),
                ) && #[trigger] e.text@ == text@),
        },
        start matches Ok((articles, end)) && end + 4 > bytes.len() ==> {
            ||| r matches Err(MultiError::A(AcceptError::Persistence(_)))
            ||| {
                &&& r matches Err(MultiError::A(AcceptError::Decode(StreamError::UnexpectedEnd)))
                &&& after == (StockView { articles: after.articles, ..before })
            }
        },
{
    if let Ok((articles, end)) = start {
        let outcome = choose|outcome: Result<(Articles, bool), UpgradeError>|
            {
                &&& #[trigger] call_ensures(upgrade, (&before.articles, articles), outcome)
                &&& accept_step::<S, G, O>(before, after, bytes, end, outcome, reader, r)
            };
        assert(call_ensures(upgrade, (&before.articles, articles), outcome));
    }
}

/// An operation which is applied becomes valid, and the stock knows who takes the cells which it takes,
/// whether it was valid before or not; in the former case, it is not stored again. What is known of the
/// other operations stays.
pub proof fn law_apply_records_the_operation<
    G: Fn(usize, &StateData) -> Conversion<StateAtom>,
    O: Fn(usize, StateValue) -> Conversion<StrictVal>,
>(
    before: StockView,
    after: StockView,
    opid: Opid,
    op: Operation,
    present: bool,
    reader: ApiReader<G, O>,
    addr: CellAddr,
    x: Opid,
)
    requires
        applied_by(before, after, opid, op, present, reader),
    ensures
        after.valid.contains(x) <==> before.valid.contains(x) || x == opid,
        present ==> after.ops == before.ops && after.stash == before.stash,
        !present ==> after.ops.contains_key(opid) && after.ops[opid] == op@ && after.stash.contains(
            (opid, op@),
        ) && forall|entry: (Opid, OperationView)| #[trigger]
            after.stash.contains(entry) && entry.0 == opid ==> entry.1 == op@,
        x != opid ==> (after.ops.contains_key(x) <==> before.ops.contains_key(x)) && (
        before.ops.contains_key(x) ==> after.ops[x] == before.ops[x]),
        after.articles == before.articles,
        after.state.raw == before.state.raw.applied(opid, op@),
        destroys(op@, addr) ==> after.spent.contains_key(addr) && after.spent[addr] == opid,
        !destroys(op@, addr) ==> (after.spent.contains_key(addr) <==> before.spent.contains_key(addr))
            && (before.spent.contains_key(addr) ==> after.spent[addr] == before.spent[addr]),
        readers(after.read, addr).contains(x) <==> readers(before.read, addr).contains(x) || x == opid
            && (exists|i: int|
            0 <= i < op@.immutable_in.len() && #[trigger] op@.immutable_in[i] == addr),
        after.trace.contains_key(opid) && after.trace[opid].opid == opid,
        after.trace[opid].destroyed.contains_key(addr) <==> destroys(op@, addr)
            && before.state.raw.owned.contains_key(addr),
        after.trace[opid].destroyed.contains_key(addr) ==> after.trace[opid].destroyed[addr]
            == before.state.raw.owned[addr],
        x != opid ==> (after.trace.contains_key(x) <==> before.trace.contains_key(x)) && (
        before.trace.contains_key(x) ==> after.trace[x] == before.trace[x]),
{
    if destroys(op@, addr) {
        assert(input_addrs(op@.destructible_in).contains(addr));
    } else {
        assert(!input_addrs(op@.destructible_in).contains(addr));
    }
    if op@.immutable_in.contains(addr) {
        let i = choose|i: int| 0 <= i < op@.immutable_in.len() && op@.immutable_in[i] == addr;
        assert(op@.immutable_in[i] == addr);
    }
}

/// Where the storage fails to apply an operation, it does so before anything but the operation itself
/// and what it takes was noted: which operations are valid, and the state, are those of before.
pub proof fn law_failed_apply_is_not_in_the_state<
    Z: StockSession,
    G: Fn(usize, &StateData) -> Conversion<StateAtom>,
    O: Fn(usize, StateValue) -> Conversion<StrictVal>,
>(
    before: StockView,
    operation: VerifiedOperation,
    present: bool,
    reader: ApiReader<G, O>,
    after: StockView,
    e: Z::Error,
)
    requires
        apply_failure::<Z, G, O>(before, operation, present, reader, after, e),
    ensures
        exists|at: StockView|
            {
                &&& #[trigger] Z::leaves(at, after, e)
                &&& at.valid == before.valid
                &&& at.state == before.state
                &&& at.trace == before.trace
                &&& at.articles == before.articles
                &&& present ==> at.ops == before.ops && at.stash == before.stash
                &&& !present ==> at.ops == before.ops.insert(operation.opid, operation.operation@)
                &&& forall|addr: CellAddr|
                    destroys(operation.operation@, addr) ==> #[trigger] at.spent.contains_key(addr)
                        && at.spent[addr] == operation.opid
                &&& forall|i: int|
                    0 <= i < operation.operation@.immutable_in.len() ==> readers(
                        at.read,
                        #[trigger] operation.operation@.immutable_in[i],
                    ).contains(operation.opid)
            },
{
    let readings = choose|readings: Option<Readings>|
        {
            &&& #[trigger] readings_by(
                reader,
                before.articles.semantics,
                operation.operation,
                readings,
            )
            &&& record_failure::<Z>(before, operation, present, readings, after, e)
        };
    let op = operation.operation@;
    let at = choose|at: StockView|
        {
            &&& #[trigger] noted(before, at, operation.opid, op, present)
            &&& apply_answer::<Z>(at, operation, readings, Err(e))
            &&& Z::leaves(at, after, e)
        };
    assert(Z::leaves(at, after, e));
    assert forall|addr: CellAddr| destroys(op, addr) implies #[trigger] at.spent.contains_key(addr)
        && at.spent[addr] == operation.opid by {
        assert(input_addrs(op.destructible_in).contains(addr));
    }
    assert forall|i: int| 0 <= i < op.immutable_in.len() implies readers(
        at.read,
        #[trigger] op.immutable_in[i],
    ).contains(operation.opid) by {
        assert(op.immutable_in.contains(op.immutable_in[i]));
    }
}

/// Where the storage fails to roll operations back, the last ones of the descendants were rolled back
/// before, and nothing else.
pub proof fn law_failed_rollback_stops_at_the_operation<
    S: Stock,
    G: Fn(usize, &StateData) -> Conversion<StateAtom>,
    O: Fn(usize, StateValue) -> Conversion<StrictVal>,
>(
    before: StockView,
    after: StockView,
    opids: Seq<Opid>,
    reader: ApiReader<G, O>,
    e: S::Error,
)
    requires
        rollback_outcome::<S, G, O>(before, after, opids, reader, Err(e)),
    ensures
        exists|chain: Seq<Opid>, n: int, mid: StockView|
            {
                &&& #[trigger] walk(opids, descendant_links(before), chain)
                &&& 0 <= n <= chain.len()
                &&& #[trigger] is_taken_from(before, mid, chain.skip(n))
                &&& n > 0 ==> S::Session::leaves(mid, after, e)
                &&& n == 0 ==> after == mid || S::Session::leaves(mid, after, e)
            },
{
    let chain = choose|chain: Seq<Opid>|
        {
            &&& #[trigger] walk(opids, descendant_links(before), chain)
            &&& rollback_failure::<S::Session, G, O>(before, chain.reverse(), reader, after, e)
        };
    let order = chain.reverse();
    if undone_all(before, after, order, reader) && commit_answer::<S::Session>(after, Err(e)) {
        lemma_undone_frame(before, after, order, reader);
        lemma_reversed_end(chain, 0);
        assert(order.take(order.len() as int) =~= order);
        assert(is_taken_from(before, after, chain.skip(0)));
    } else {
        let (n, mid) = choose|n: int, mid: StockView|
            {
                &&& 0 <= n < order.len()
                &&& #[trigger] undone_all(before, mid, order.take(n), reader)
                &&& undo_failure::<S::Session, G, O>(mid, order[n], reader, after, e)
            };
        let m = chain.len() - n;
        lemma_undone_frame(before, mid, order.take(n), reader);
        lemma_reversed_end(chain, m);
        assert(chain.len() - m == n);
        assert forall|x: Opid| #[trigger] mid.valid.contains(x) <==> before.valid.contains(x)
            && !chain.skip(m).contains(x) by {
            assert(order.take(n).to_set().contains(x) <==> chain.skip(m).contains(x));
        }
        assert(is_taken_from(before, mid, chain.skip(m)));
    }
}

/// The operations are not valid any more; nothing else is different, but for the state.
pub open spec fn is_taken_from(before: StockView, after: StockView, opids: Seq<Opid>) -> bool {
    &&& after == StockView { valid: after.valid, state: after.state, ..before }
    &&& forall|x: Opid| #[trigger]
        after.valid.contains(x) <==> before.valid.contains(x) && !opids.contains(x)
}

/// The end of a list is the start of the reversed one.
proof fn lemma_reversed_end(chain: Seq<Opid>, m: int)
    requires
        0 <= m <= chain.len(),
    ensures
        forall|x: Opid| #[trigger]
            chain.reverse().take(chain.len() - m).to_set().contains(x) <==> chain.skip(m).contains(x),
{
    let front = chain.reverse().take(chain.len() - m);
    assert forall|x: Opid| #[trigger] front.to_set().contains(x) <==> chain.skip(m).contains(x) by {
        if front.contains(x) {
            let i = choose|i: int| 0 <= i < front.len() && front[i] == x;
            assert(chain.skip(m)[chain.len() - m - 1 - i] == x);
        }
        if chain.skip(m).contains(x) {
            let i = choose|i: int| 0 <= i < chain.skip(m).len() && chain.skip(m)[i] == x;
            assert(front[chain.len() - m - 1 - i] == x);
        }
    }
}

/// A session over the data was asked to persist them, and has done so.
pub open spec fn is_persisted<S: Stock>(model: StockView) -> bool {
    exists|session: &mut S::Session, r: Result<(), S::Error>|
        session.model() == model && r is Ok && #[trigger] call_ensures(
            S::Session::commit_transaction,
            (session,),
            r,
        )
}

/// Whatever was done with success was persisted: operations which were rolled back, brought back or
/// accepted.
pub proof fn law_success_is_persisted<
    S: Stock,
    G: Fn(usize, &StateData) -> Conversion<StateAtom>,
    O: Fn(usize, StateValue) -> Conversion<StrictVal>,
    U: Fn(&Articles, Articles) -> Result<(Articles, bool), UpgradeError>,
>(
    before: StockView,
    after: StockView,
    opids: Seq<Opid>,
    bytes: Seq<u8>,
    start: Result<(Articles, usize), AcceptError>,
    upgrade: U,
    reader: ApiReader<G, O>,
)
    ensures
        rollback_outcome::<S, G, O>(before, after, opids, reader, Ok(())) ==> is_persisted::<S>(
            after,
        ),
        forward_outcome::<S, G, O>(before, after, opids, reader, Ok(())) ==> is_persisted::<S>(after),
        accept_outcome::<S, G, O, U>(before, after, bytes, start, upgrade, reader, Ok(()))
            ==> is_persisted::<S>(after),
{
    if committed::<S::Session>(after) {
        lemma_persisted::<S>(after);
    }
}

/// An operation which was called with success was persisted.
pub proof fn law_done_call_is_persisted<
    S: Stock,
    G: Fn(usize, &StateData) -> Conversion<StateAtom>,
    O: Fn(usize, StateValue) -> Conversion<StrictVal>,
>(
    before: StockView,
    after: StockView,
    id: ContractId,
    op: Operation,
    reader: ApiReader<G, O>,
    opid: Opid,
)
    requires
        done_outcome::<S, G, O>(before, after, id, op, reader, Ok(opid)),
    ensures
        is_persisted::<S>(after),
{
    lemma_persisted::<S>(after);
}

/// Committed data are persisted.
proof fn lemma_persisted<S: Stock>(model: StockView)
    requires
        committed::<S::Session>(model),
    ensures
        is_persisted::<S>(model),
{
    let r = choose|r: Result<(), S::Error>| r is Ok && #[trigger] commit_answer::<S::Session>(model, r);
    let session = choose|session: &mut S::Session|
        session.model() == model && #[trigger] call_ensures(
            S::Session::commit_transaction,
            (session,),
            r,
        );
    assert(session.model() == model && call_ensures(S::Session::commit_transaction, (session,), r));
}

} // verus!
