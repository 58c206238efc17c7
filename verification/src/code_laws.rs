//! Which values and which code the verification of an operation may meet.

use crate::code::{
    code_ends, code_is_sound, ends_within, goes_onward, is_below, is_start, lands, leads,
    library_code, library_id, local_target, number_halves, offset_at, step_is_sound, Step, Target,
};
use crate::field::{
    cell_in_field, cell_script, element_in_field, field_order, in_field, lock_data, runs_through,
    unlocks, unlocks_two, value_element, value_in_field, within, RESET_ORDER_HI, RESET_ORDER_LO,
};
use crate::raw::data_value;
use crate::types::{CellAddr, OperationView, StateCell};
use aluvm::Lib;
use ultrasonic::Codex;
use ultrasonic::StateData;
use ultrasonic::StateValue;
use vstd::prelude::*;

verus! {

/// The number which two halves make.
pub open spec fn number(halves: (u128, u128)) -> int {
    halves.0 * 0x1_0000_0000_0000_0000_0000_0000_0000_0000 + halves.1
}

/// The verification of an operation may load the value: of the operation itself, of a cell which it
/// destroys, of the lock of such a cell, or of a cell which it reads.
pub open spec fn loads(
    op: OperationView,
    taken: Map<CellAddr, StateCell>,
    read: Map<CellAddr, StateData>,
    value: StateValue,
) -> bool {
    ||| value == op.witness
    ||| exists|i: int|
        0 <= i < op.destructible_in.len() && (#[trigger] op.destructible_in[i]).witness == value
    ||| exists|i: int|
        0 <= i < op.destructible_out.len() && (#[trigger] op.destructible_out[i]).data == value
    ||| exists|i: int|
        0 <= i < op.immutable_out.len() && data_value(#[trigger] op.immutable_out[i]) == value
    ||| exists|addr: CellAddr| #[trigger] taken.contains_key(addr) && taken[addr].data == value
    ||| exists|addr: CellAddr| #[trigger]
        taken.contains_key(addr) && (taken[addr].lock matches Some(lock) && lock_data(lock) == value)
    ||| exists|addr: CellAddr| #[trigger] read.contains_key(addr) && data_value(read[addr]) == value
}

/// Every element which a value has is below the order of a field.
pub open spec fn elements_below(order: (u128, u128), value: StateValue) -> bool {
    forall|pos: u8|
        pos < 4 ==> (#[trigger] value_element(value, pos) matches Some(element) ==> number(element)
            < number(order))
}

/// The values are in a field if and only if every element of everything which may be loaded is below
/// the order of the field, and so is every token of authority in a cell which is destroyed; a field has
/// a one at least.
pub proof fn law_values_are_in_the_field(
    order: (u128, u128),
    op: OperationView,
    taken: Map<CellAddr, StateCell>,
    read: Map<CellAddr, StateData>,
)
    ensures
        within(order, op, taken, read) <==> {
            &&& number(order) > 1
            &&& forall|value: StateValue| #[trigger]
                loads(op, taken, read, value) ==> elements_below(order, value)
            &&& forall|addr: CellAddr| #[trigger]
                taken.contains_key(addr) ==> number((taken[addr].auth.hi, taken[addr].auth.lo))
                    < number(order)
        },
{
    assert forall|value: StateValue| #[trigger] value_in_field(order, value) == elements_below(
        order,
        value,
    ) by {
        assert(value_element(value, 0) is Some || value_element(value, 0) is None);
        assert(value_element(value, 1) is Some || value_element(value, 1) is None);
        assert(value_element(value, 2) is Some || value_element(value, 2) is None);
        assert(value_element(value, 3) is Some || value_element(value, 3) is None);
        if value_in_field(order, value) {
            assert forall|pos: u8| pos < 4 implies (#[trigger] value_element(
                value,
                pos,
            ) matches Some(element) ==> number(element) < number(order)) by {
                assert(element_in_field(order, value, pos));
            }
        }
    }
    let all = forall|value: StateValue| #[trigger]
        loads(op, taken, read, value) ==> elements_below(order, value);
    if within(order, op, taken, read) {
        assert forall|value: StateValue| #[trigger] loads(op, taken, read, value) implies elements_below(
            order,
            value,
        ) by {
            assert(value_in_field(order, value));
        }
        assert forall|addr: CellAddr| #[trigger] taken.contains_key(addr) implies number(
            (taken[addr].auth.hi, taken[addr].auth.lo),
        ) < number(order) by {
            assert(cell_in_field(order, taken[addr]));
        }
    }
    if number(order) > 1 && all && (forall|addr: CellAddr| #[trigger]
        taken.contains_key(addr) ==> number((taken[addr].auth.hi, taken[addr].auth.lo)) < number(
            order,
        )) {
        assert(loads(op, taken, read, op.witness));
        assert(value_in_field(order, op.witness));
        assert forall|i: int| 0 <= i < op.destructible_in.len() implies value_in_field(
            order,
            (#[trigger] op.destructible_in[i]).witness,
        ) by {
            assert(loads(op, taken, read, op.destructible_in[i].witness));
        }
        assert forall|i: int| 0 <= i < op.destructible_out.len() implies value_in_field(
            order,
            (#[trigger] op.destructible_out[i]).data,
        ) by {
            assert(loads(op, taken, read, op.destructible_out[i].data));
        }
        assert forall|i: int| 0 <= i < op.immutable_out.len() implies value_in_field(
            order,
            data_value(#[trigger] op.immutable_out[i]),
        ) by {
            assert(loads(op, taken, read, data_value(op.immutable_out[i])));
        }
        assert forall|addr: CellAddr| #[trigger] taken.contains_key(addr) implies cell_in_field(
            order,
            taken[addr],
        ) by {
            assert(loads(op, taken, read, taken[addr].data));
            assert(value_in_field(order, taken[addr].data));
            if let Some(lock) = taken[addr].lock {
                assert(loads(op, taken, read, lock_data(lock)));
                assert(value_in_field(order, lock_data(lock)));
            }
        }
        assert forall|addr: CellAddr| #[trigger] read.contains_key(addr) implies value_in_field(
            order,
            data_value(read[addr]),
        ) by {
            assert(loads(op, taken, read, data_value(read[addr])));
        }
    }
}

/// Where two inputs take cells which are guarded by scripts, the values have to be in both fields over
/// which the machine computes then.
pub proof fn law_second_script_computes_over_another_field(
    codex: Codex,
    op: OperationView,
    taken: Map<CellAddr, StateCell>,
    read: Map<CellAddr, StateData>,
    i: int,
    j: int,
)
    requires
        in_field(codex, op, taken, read),
    ensures
        within(field_order(codex), op, taken, read),
        0 <= i < j < op.destructible_in.len() && taken.contains_key(op.destructible_in[i].addr)
            && taken.contains_key(op.destructible_in[j].addr) && cell_script(
            taken[op.destructible_in[i].addr],
        ) is Some && cell_script(taken[op.destructible_in[j].addr]) is Some ==> within(
            (RESET_ORDER_HI, RESET_ORDER_LO),
            op,
            taken,
            read,
        ),
{
    if 0 <= i < j < op.destructible_in.len() && taken.contains_key(op.destructible_in[i].addr)
        && taken.contains_key(op.destructible_in[j].addr) && cell_script(
        taken[op.destructible_in[i].addr],
    ) is Some && cell_script(taken[op.destructible_in[j].addr]) is Some {
        assert(unlocks(op, taken, i) && unlocks(op, taken, j));
        assert(unlocks_two(op, taken));
    }
}

/// An instruction starts where the one before it is over, the first one at the beginning.
pub proof fn law_instructions_follow_each_other(code: Seq<Step>, k: int)
    requires
        0 <= k < code.len(),
    ensures
        offset_at(code, 0) == 0,
        offset_at(code, k + 1) == offset_at(code, k) + code[k].size,
        is_start(code, 0),
        is_start(code, offset_at(code, k) as int),
        is_start(code, offset_at(code, code.len() as int) as int),
{
    assert(offset_at(code, 0) == 0);
}

/// In sound code no instruction negates, every constant is below the order of the field, and every
/// jump, inside of a library and outside, leads to the start of an instruction.
pub proof fn law_sound_code_stays_in_its_bounds(
    libs: Seq<Lib>,
    order: (u128, u128),
    i: int,
    k: int,
)
    requires
        code_is_sound(libs, order),
        0 <= i < libs.len(),
    ensures
        library_code(libs[i]) is Some,
        ({
            let code = library_code(libs[i])->Some_0;
            0 <= k < code.len() ==> {
                &&& !code[k].negates
                &&& code[k].constant matches Some(constant) ==> number(number_halves(constant))
                    < number(order)
                &&& code[k].local matches Target::At(pos) ==> is_start(code, pos as int)
                &&& code[k].local matches Target::By(shift) ==> {
                    let pos = offset_at(code, k) + shift;
                    0 <= pos < 65536 ==> is_start(code, pos)
                }
                &&& code[k].remote matches Some(site) ==> forall|j: int|
                    0 <= j < libs.len() && library_id(#[trigger] libs[j]) == site.0
                        ==> library_code(libs[j]) is Some && is_start(
                        library_code(libs[j])->Some_0,
                        site.1 as int,
                    )
            }
        }),
{
    let code = library_code(libs[i])->Some_0;
    if 0 <= k < code.len() {
        assert(step_is_sound(libs, code, k, order));
        if let Some(site) = code[k].remote {
            assert(lands(libs, site));
        }
    }
}

/// Code which has no way back passes through each library once at most: a way from library to library
/// is no longer than there are libraries. And inside of a library it only goes onward.
pub proof fn law_ending_code_has_no_way_back(
    libs: Seq<Lib>,
    way: Seq<int>,
    steps: Seq<int>,
    i: int,
    k: int,
)
    requires
        code_ends(libs),
        way.len() > 0,
        steps.len() == way.len() - 1,
        forall|m: int| 0 <= m < way.len() ==> 0 <= #[trigger] way[m] < libs.len(),
        forall|m: int|
            0 <= m < steps.len() ==> leads(libs, way[m], #[trigger] steps[m], way[m + 1]),
        0 <= i < libs.len(),
    ensures
        way.len() <= libs.len(),
        library_code(libs[i]) is Some,
        ({
            let code = library_code(libs[i])->Some_0;
            0 <= k < code.len() ==> (local_target(code, k) matches Some(pos) ==> offset_at(code, k)
                < pos)
        }),
{
    assert(ends_within(libs, way[0], libs.len())) by {
        assert(library_code(libs[way[0]]) is Some);
    }
    lemma_way(libs, way, steps, libs.len());
    let code = library_code(libs[i])->Some_0;
    assert(goes_onward(code));
}

/// A way which ends within a number of libraries is no longer.
proof fn lemma_way(libs: Seq<Lib>, way: Seq<int>, steps: Seq<int>, depth: nat)
    requires
        way.len() > 0,
        steps.len() == way.len() - 1,
        forall|m: int| 0 <= m < way.len() ==> 0 <= #[trigger] way[m] < libs.len(),
        forall|m: int|
            0 <= m < steps.len() ==> leads(libs, way[m], #[trigger] steps[m], way[m + 1]),
        ends_within(libs, way[0], depth),
    ensures
        way.len() <= depth,
    decreases depth,
{
    if way.len() > 1 {
        assert(leads(libs, way[0], steps[0], way[1]));
        let rest = way.skip(1);
        let later = steps.skip(1);
        assert forall|m: int| 0 <= m < rest.len() implies 0 <= #[trigger] rest[m] < libs.len() by {
            assert(rest[m] == way[m + 1]);
        }
        assert forall|m: int| 0 <= m < later.len() implies leads(
            libs,
            rest[m],
            #[trigger] later[m],
            rest[m + 1],
        ) by {
            assert(later[m] == steps[m + 1]);
            assert(leads(libs, way[m + 1], steps[m + 1], way[m + 1 + 1]));
        }
        assert(0 <= way[1] < libs.len());
        lemma_way(libs, rest, later, (depth - 1) as nat);
    }
}

/// The code which is run for an operation is sound over the field of the codex, and over the other
/// field too where two inputs take cells which are guarded by scripts.
pub proof fn law_code_which_runs_is_sound(
    codex: Codex,
    libs: Seq<Lib>,
    op: OperationView,
    taken: Map<CellAddr, StateCell>,
    i: int,
    j: int,
)
    requires
        runs_through(codex, libs, op, taken),
    ensures
        code_is_sound(libs, field_order(codex)),
        i < j && unlocks(op, taken, i) && unlocks(op, taken, j) ==> code_is_sound(
            libs,
            (RESET_ORDER_HI, RESET_ORDER_LO),
        ),
        forall|addr: CellAddr| #[trigger]
            taken.contains_key(addr) ==> (cell_script(taken[addr]) matches Some(site) ==> lands(
                libs,
                site,
            )),
{
    if i < j && unlocks(op, taken, i) && unlocks(op, taken, j) {
        assert(unlocks_two(op, taken));
    }
}

/// Of two numbers, given by their halves, one is below the other one by their values.
pub proof fn law_halves_are_compared_by_value(one: (u128, u128), other: (u128, u128))
    ensures
        is_below(one, other) <==> number(one) < number(other),
{
}

} // verus!
