//! When an operation, a rollback or a forward can be carried out at all.

use crate::accept::{admissible, total_outputs};
use crate::apply::placeable;
use crate::chain::{law_chain_holds_the_reached, walk};
use crate::code::lands;
use crate::code_laws::{elements_below, number};
use crate::field::{
    cell_in_field, cell_script, element_in_field, field_order, in_field, lock_data,
    outputs_in_field, runs_anyway, runs_through, unlocks_any, unlocks_two, value_element,
    value_in_field, RESET_ORDER_HI, RESET_ORDER_LO,
};
use crate::forward::{has_places, output_counts, returnable};
use crate::history::{settled, taken_cells, takes, traced};
use crate::ledger::{all_known, descendant_links, law_descendants_are_known};
use crate::memory_laws::law_outputs_add_up;
use crate::raw::RawView;
use crate::rollback::{all_traced, destroyed_count, unwindable};
use crate::state::defers;
use crate::stock::StockView;
use crate::types::{CellAddr, Input, OperationView, Opid, StateCell};
use aluvm::Lib;
use ultrasonic::Codex;
use ultrasonic::StateData;
use ultrasonic::StateValue;
use vstd::prelude::*;

verus! {

/// The processing of the state is deferred by the number one and by the words for a yes, in small
/// letters and in capital ones, and by nothing else.
pub proof fn law_processing_is_deferred_by_a_yes(value: Seq<char>)
    ensures
        defers(value) <==> {
            ||| value == seq!['1']
            ||| value == seq!['t', 'r', 'u', 'e']
            ||| value == seq!['T', 'R', 'U', 'E']
            ||| value == seq!['y', 'e', 's']
            ||| value == seq!['Y', 'E', 'S']
            ||| value == seq!['o', 'n']
            ||| value == seq!['O', 'N']
        },
{
    reveal_strlit("1");
    reveal_strlit("true");
    reveal_strlit("TRUE");
    reveal_strlit("yes");
    reveal_strlit("YES");
    reveal_strlit("on");
    reveal_strlit("ON");
    assert("1"@ =~= seq!['1']);
    assert("true"@ =~= seq!['t', 'r', 'u', 'e']);
    assert("TRUE"@ =~= seq!['T', 'R', 'U', 'E']);
    assert("yes"@ =~= seq!['y', 'e', 's']);
    assert("YES"@ =~= seq!['Y', 'E', 'S']);
    assert("on"@ =~= seq!['o', 'n']);
    assert("ON"@ =~= seq!['O', 'N']);
}

/// The three parts of the memory hold as many entries as four bytes can tell, and there is place up to
/// that.
pub proof fn law_memory_is_filled_to_its_limit(raw: RawView, owned: nat, global: nat)
    requires
        raw.auth.dom().finite(),
        raw.owned.dom().finite(),
        raw.global.dom().finite(),
    ensures
        has_places(raw, (owned, global)) <==> {
            &&& raw.auth.dom().len() + owned <= 4_294_967_295
            &&& raw.owned.dom().len() + owned <= 4_294_967_295
            &&& raw.global.dom().len() + global <= 4_294_967_295
        },
{
}

/// An operation which is refused needs no place. One which is accepted has to destroy its cells once
/// each, and needs place for all its outputs.
pub proof fn law_only_accepted_operations_need_place(model: StockView, op: OperationView)
    requires
        model.articles.runs_through(op, model.state.raw),
    ensures
        model.articles.verdict(op, model.state.raw) is Err ==> placeable(model, op),
        model.articles.verdict(op, model.state.raw) is Ok ==> (placeable(model, op) <==> {
            &&& forall|i: int, j: int|
                0 <= i < j < op.destructible_in.len() ==> (#[trigger] op.destructible_in[i]).addr
                    != (#[trigger] op.destructible_in[j]).addr
            &&& has_places(
                model.state.raw,
                (op.destructible_out.len(), op.immutable_out.len()),
            )
        }),
{
}

/// Operations can be applied together if and only if each of them can be applied alone, and there is
/// place for the outputs of them all.
pub proof fn law_operations_are_admitted_together(
    model: StockView,
    libs: Seq<Lib>,
    ops: Seq<OperationView>,
)
    requires
        ops.len() > 0,
    ensures
        admissible(model, libs, ops) <==> {
            &&& forall|i: int| 0 <= i < ops.len() ==> admissible(model, libs, seq![#[trigger] ops[i]])
            &&& has_places(model.state.raw, total_outputs(ops))
        },
{
    assert forall|i: int| 0 <= i < ops.len() implies {
        &&& total_outputs(seq![#[trigger] ops[i]]).0 <= total_outputs(ops).0
        &&& total_outputs(seq![ops[i]]).1 <= total_outputs(ops).1
    } by {
        let before = ops.take(i);
        let after = ops.skip(i + 1);
        law_outputs_add_up(before, seq![ops[i]]);
        law_outputs_add_up(before + seq![ops[i]], after);
        assert(before + seq![ops[i]] + after =~= ops);
    }
    if admissible(model, libs, ops) {
        assert forall|i: int| 0 <= i < ops.len() implies admissible(
            model,
            libs,
            seq![#[trigger] ops[i]],
        ) by {}
    }
    if (forall|i: int| 0 <= i < ops.len() ==> admissible(model, libs, seq![#[trigger] ops[i]])) {
        assert forall|i: int| 0 <= i < ops.len() implies {
            &&& (#[trigger] ops[i]).distinct_inputs()
            &&& runs_anyway(
                model.articles.codex,
                libs,
                ops[i],
                model.state.raw.taken_by(ops[i]),
                model.state.raw.read_by(ops[i]),
            )
            &&& outputs_in_field(model.articles.codex, libs, ops[i])
        } by {
            assert(admissible(model, libs, seq![ops[i]]));
            assert(seq![ops[i]][0] == ops[i]);
        }
    }
}

/// The outputs of the operations of a list are those which the operations have, one after the other.
pub proof fn law_outputs_are_counted_by_operation(model: StockView, opids: Seq<Opid>)
    ensures
        output_counts(model, opids) == total_outputs(
            opids.map_values(|opid: Opid| model.ops[opid]),
        ),
    decreases opids.len(),
{
    let ops = opids.map_values(|opid: Opid| model.ops[opid]);
    if opids.len() > 0 {
        law_outputs_are_counted_by_operation(model, opids.drop_last());
        assert(opids.drop_last().map_values(|opid: Opid| model.ops[opid]) =~= ops.drop_last());
    }
}

/// Operations can be brought back together if and only if each of them can be brought back alone, and
/// there is place for the outputs of them all.
pub proof fn law_operations_return_together(model: StockView, opids: Seq<Opid>)
    requires
        opids.len() > 0,
    ensures
        returnable(model, opids) <==> {
            &&& forall|i: int| 0 <= i < opids.len() ==> returnable(model, seq![#[trigger] opids[i]])
            &&& has_places(model.state.raw, output_counts(model, opids))
        },
{
    let ops = opids.map_values(|opid: Opid| model.ops[opid]);
    law_outputs_are_counted_by_operation(model, opids);
    assert forall|i: int| 0 <= i < opids.len() implies {
        &&& output_counts(model, seq![#[trigger] opids[i]]).0 <= output_counts(model, opids).0
        &&& output_counts(model, seq![opids[i]]).1 <= output_counts(model, opids).1
    } by {
        let before = ops.take(i);
        let after = ops.skip(i + 1);
        law_outputs_are_counted_by_operation(model, seq![opids[i]]);
        assert(seq![opids[i]].map_values(|opid: Opid| model.ops[opid]) =~= seq![ops[i]]);
        law_outputs_add_up(before, seq![ops[i]]);
        law_outputs_add_up(before + seq![ops[i]], after);
        assert(before + seq![ops[i]] + after =~= ops);
    }
    if (forall|i: int| 0 <= i < opids.len() ==> returnable(model, seq![#[trigger] opids[i]])) {
        assert forall|i: int| 0 <= i < opids.len() implies {
            &&& model.ops[#[trigger] opids[i]].well_formed()
            &&& model.ops[opids[i]].distinct_inputs()
            &&& model.articles.runs_anyway(model.ops[opids[i]], model.state.raw)
        } by {
            assert(returnable(model, seq![opids[i]]));
            assert(seq![opids[i]][0] == opids[i]);
        }
    }
}

/// An operation which can be verified whatever comes before it can be verified now. Where it takes two
/// cells which are guarded by scripts, the two are the same.
pub proof fn law_verification_runs_now_if_it_runs_anyway(
    codex: Codex,
    libs: Seq<Lib>,
    op: OperationView,
    taken: Map<CellAddr, StateCell>,
    read: Map<CellAddr, StateData>,
)
    ensures
        runs_anyway(codex, libs, op, taken, read) ==> in_field(codex, op, taken, read)
            && runs_through(codex, libs, op, taken),
        unlocks_two(op, taken) ==> (runs_anyway(codex, libs, op, taken, read) <==> in_field(
            codex,
            op,
            taken,
            read,
        ) && runs_through(codex, libs, op, taken)),
{
    if unlocks_two(op, taken) {
        assert(unlocks_any(op, taken));
    }
}

/// The cells which an operation defines can be taken if and only if every element in them, and every
/// token of authority, is below the orders of both fields over which the machine computes, and each
/// script starts with an instruction.
pub proof fn law_defined_cells_can_be_taken(codex: Codex, libs: Seq<Lib>, op: OperationView)
    ensures
        outputs_in_field(codex, libs, op) <==> forall|i: int|
            0 <= i < op.destructible_out.len() ==> {
                let cell = #[trigger] op.destructible_out[i];
                let other = (
                    0x8FFF_FFFF_FFFF_FFFF_FFFF_FFFF_FFFF_FFFFu128,
                    0xFFFF_FFFF_FFFF_FFFF_FFFF_FFFF_FFFF_FFECu128,
                );
                &&& elements_below(field_order(codex), cell.data)
                &&& elements_below(other, cell.data)
                &&& number((cell.auth.hi, cell.auth.lo)) < number(field_order(codex))
                &&& number((cell.auth.hi, cell.auth.lo)) < number(other)
                &&& cell.lock matches Some(lock) ==> elements_below(
                    field_order(codex),
                    lock_data(lock),
                ) && elements_below(other, lock_data(lock))
                &&& cell_script(cell) matches Some(site) ==> lands(libs, site)
            },
{
    let other = (RESET_ORDER_HI, RESET_ORDER_LO);
    assert forall|value: StateValue| #[trigger]
        value_in_field(field_order(codex), value) == elements_below(field_order(codex), value) by {
        lemma_value_below(field_order(codex), value);
    }
    assert forall|value: StateValue| #[trigger] value_in_field(other, value) == elements_below(
        other,
        value,
    ) by {
        lemma_value_below(other, value);
    }
    assert forall|cell: StateCell| #[trigger] cell_in_field(field_order(codex), cell) == {
        &&& elements_below(field_order(codex), cell.data)
        &&& number((cell.auth.hi, cell.auth.lo)) < number(field_order(codex))
        &&& cell.lock matches Some(lock) ==> elements_below(field_order(codex), lock_data(lock))
    } by {
        lemma_value_below(field_order(codex), cell.data);
    }
    assert forall|cell: StateCell| #[trigger] cell_in_field(other, cell) == {
        &&& elements_below(other, cell.data)
        &&& number((cell.auth.hi, cell.auth.lo)) < number(other)
        &&& cell.lock matches Some(lock) ==> elements_below(other, lock_data(lock))
    } by {
        lemma_value_below(other, cell.data);
    }
}

/// A value is in a field if its elements are below the order.
proof fn lemma_value_below(order: (u128, u128), value: StateValue)
    ensures
        value_in_field(order, value) == elements_below(order, value),
{
    if value_in_field(order, value) {
        assert forall|pos: u8| pos < 4 implies (#[trigger] value_element(value, pos) matches Some(
            element,
        ) ==> number(element) < number(order)) by {
            assert(element_in_field(order, value, pos));
        }
    }
}

/// The number of the inputs by which the operations of a list destroy cells.
pub open spec fn destroying_inputs(model: StockView, opids: Seq<Opid>) -> nat
    decreases opids.len(),
{
    if opids.len() == 0 {
        0
    } else {
        destroying_inputs(model, opids.drop_last())
            + model.ops[opids.last()].destructible_in.len()
    }
}

/// The operations of a settled contract can be rolled back with their descendants if and only if there
/// is place for a cell of each of the inputs which destroy one.
pub proof fn law_settled_contract_can_be_rolled_back(
    model: StockView,
    opids: Seq<Opid>,
    chain: Seq<Opid>,
)
    requires
        settled(model),
        all_known(model, opids),
        walk(opids, descendant_links(model), chain),
    ensures
        unwindable(model, opids) ==> model.state.raw.owned.len() + destroying_inputs(model, chain)
            <= 4_294_967_295,
        (forall|other: Seq<Opid>| #[trigger]
            walk(opids, descendant_links(model), other) ==> model.state.raw.owned.len()
                + destroying_inputs(model, other) <= 4_294_967_295) ==> unwindable(model, opids),
{
    assert forall|other: Seq<Opid>| #[trigger]
        walk(opids, descendant_links(model), other) implies all_traced(model, other)
        && destroyed_count(model, other) == destroying_inputs(model, other) by {
        law_descendants_are_known(model, opids);
        law_chain_holds_the_reached(opids, descendant_links(model), other);
        assert forall|k: int| 0 <= k < other.len() implies model.ops.contains_key(
            #[trigger] other[k],
        ) by {
            assert(other.contains(other[k]));
        }
        lemma_destroyed_counted(model, other);
        assert forall|k: int| 0 <= k < other.len() implies model.trace.contains_key(
            #[trigger] other[k],
        ) by {
            assert(model.ops.contains_key(other[k]));
            assert(traced(model, other[k]));
        }
    }
}

/// As many cells are destroyed as there are inputs.
proof fn lemma_destroyed_counted(model: StockView, opids: Seq<Opid>)
    requires
        settled(model),
        forall|k: int| 0 <= k < opids.len() ==> model.ops.contains_key(#[trigger] opids[k]),
    ensures
        destroyed_count(model, opids) == destroying_inputs(model, opids),
    decreases opids.len(),
{
    if opids.len() > 0 {
        let less = opids.drop_last();
        let last = opids.last();
        assert forall|k: int| 0 <= k < less.len() implies model.ops.contains_key(
            #[trigger] less[k],
        ) by {
            assert(less[k] == opids[k]);
        }
        lemma_destroyed_counted(model, less);
        assert(last == opids[opids.len() - 1]);
        assert(model.ops.contains_key(last));
        assert(traced(model, last));
        let inputs = model.ops[last].destructible_in;
        let addrs = inputs.map_values(|input: Input| input.addr);
        assert(addrs.no_duplicates()) by {
            assert forall|i: int, j: int|
                0 <= i < addrs.len() && 0 <= j < addrs.len() && i != j implies addrs[i]
                != addrs[j] by {
                if i < j {
                    assert(inputs[i].addr != inputs[j].addr);
                } else {
                    assert(inputs[j].addr != inputs[i].addr);
                }
            }
        }
        addrs.unique_seq_to_set();
        let cells = taken_cells(model, last);
        assert forall|addr: CellAddr| cells.dom().contains(addr) == #[trigger] addrs.to_set().contains(
            addr,
        ) by {
            if takes(model.ops[last], addr) {
                let i = choose|i: int| 0 <= i < inputs.len() && (#[trigger] inputs[i]).addr == addr;
                assert(addrs[i] == addr);
            }
            if addrs.to_set().contains(addr) {
                let i = choose|i: int| 0 <= i < addrs.len() && addrs[i] == addr;
                assert(inputs[i].addr == addr);
            }
        }
        assert(cells.dom() =~= addrs.to_set());
    }
}

} // verus!
