//! Values of the field over which the virtual machine of a contract computes, and the conditions on
//! which the verification of an operation runs through.

use crate::code::{
    below, code_ends, code_fits, code_is_sound, code_runs_out, is_below, lands, read_code,
    site_lands, CodeMap,
};
use crate::raw::{data_value, input_addrs, value_of, RawState, RawView};
use crate::types::{CellAddr, Operation, OperationView, Opid, StateCell};
use aluvm::Lib;
use aluvm::LibId;
use ultrasonic::CellLock;
use ultrasonic::Codex;
use ultrasonic::StateData;
use ultrasonic::StateValue;
use vstd::prelude::*;

verus! {

/// The order of the field of a codex, by its upper and lower halves.
pub uninterp spec fn field_order(codex: Codex) -> (u128, u128);

/// The element of a state value at the given position, by its upper and lower halves.
pub uninterp spec fn value_element(value: StateValue, pos: u8) -> Option<(u128, u128)>;

/// The auxiliary data of a lock.
pub uninterp spec fn lock_data(lock: CellLock) -> StateValue;

/// The place in the code of the script of a lock.
pub uninterp spec fn lock_script(lock: CellLock) -> Option<(LibId, u16)>;

/// The place in the code which verifies the calls with the given id.
pub uninterp spec fn verifier_entry(codex: Codex, call_id: u16) -> Option<(LibId, u16)>;

/// The limits of complexity for the verification of an operation, and for the script of a lock.
pub uninterp spec fn complexity_limits(codex: Codex) -> (Option<u64>, Option<u64>);

/// The upper half of the order with which the machine goes on once it has run the script of a lock.
pub const RESET_ORDER_HI: u128 = 0x8FFF_FFFF_FFFF_FFFF_FFFF_FFFF_FFFF_FFFF;

/// The lower half of that order.
pub const RESET_ORDER_LO: u128 = 0xFFFF_FFFF_FFFF_FFFF_FFFF_FFFF_FFFF_FFEC;

/// The public field `ultrasonic::Codex::field_order`, which is a 256-bit number, by its halves.
#[verifier::external_body]
fn order_of(codex: &Codex) -> (r: (u128, u128))
    ensures
        r == field_order(*codex),
{
    let bytes = codex.field_order.to_be_bytes();
    let hi = u128::from_be_bytes(bytes[..16].try_into().unwrap());
    let lo = u128::from_be_bytes(bytes[16..].try_into().unwrap());
    (hi, lo)
}

/// `ultrasonic::StateValue::get`: the element at a position, which is a 256-bit number, by its halves;
/// nothing where the value has no element there.
#[verifier::external_body]
fn element_of(value: StateValue, pos: u8) -> (r: Option<(u128, u128)>)
    ensures
        r == value_element(value, pos),
{
    let bytes = value.get(pos)?.to_u256().to_be_bytes();
    let hi = u128::from_be_bytes(bytes[..16].try_into().unwrap());
    let lo = u128::from_be_bytes(bytes[16..].try_into().unwrap());
    Some((hi, lo))
}

/// The public field `ultrasonic::CellLock::aux`.
#[verifier::external_body]
fn data_of_lock(lock: CellLock) -> (r: StateValue)
    ensures
        r == lock_data(lock),
{
    lock.aux
}

/// The public field `ultrasonic::CellLock::script`.
#[verifier::external_body]
fn script_of_lock(lock: CellLock) -> (r: Option<(LibId, u16)>)
    ensures
        r == lock_script(lock),
{
    lock.script.map(|site| (site.lib_id, site.offset))
}

/// What the public map `ultrasonic::Codex::verifiers` has for a call id.
#[verifier::external_body]
pub(crate) fn entry_of(codex: &Codex, call_id: u16) -> (r: Option<(LibId, u16)>)
    ensures
        r == verifier_entry(*codex, call_id),
{
    codex.verifiers.get(&call_id).map(|site| (site.lib_id, site.offset))
}

/// The field `complexity_lim` of the public fields `ultrasonic::Codex::verification_config` and
/// `ultrasonic::Codex::input_config`.
#[verifier::external_body]
fn limits_of(codex: &Codex) -> (r: (Option<u64>, Option<u64>))
    ensures
        r == complexity_limits(*codex),
{
    (codex.verification_config.complexity_lim, codex.input_config.complexity_lim)
}

/// The element of a state value at the given position, if there is one, is in the field.
pub open spec fn element_in_field(order: (u128, u128), value: StateValue, pos: u8) -> bool {
    value_element(value, pos) matches Some(element) ==> is_below(element, order)
}

/// All the four elements which a state value may have are in the field.
pub open spec fn value_in_field(order: (u128, u128), value: StateValue) -> bool {
    &&& element_in_field(order, value, 0)
    &&& element_in_field(order, value, 1)
    &&& element_in_field(order, value, 2)
    &&& element_in_field(order, value, 3)
}

/// The value, the token of authority and the auxiliary data of the lock of a cell are in the field.
pub open spec fn cell_in_field(order: (u128, u128), cell: StateCell) -> bool {
    &&& value_in_field(order, cell.data)
    &&& is_below((cell.auth.hi, cell.auth.lo), order)
    &&& cell.lock matches Some(lock) ==> value_in_field(order, lock_data(lock))
}

/// All the values which the verification of an operation may load of the operation itself are in the
/// field.
pub open spec fn operation_in_field(order: (u128, u128), op: OperationView) -> bool {
    &&& value_in_field(order, op.witness)
    &&& forall|i: int|
        0 <= i < op.destructible_in.len() ==> value_in_field(
            order,
            (#[trigger] op.destructible_in[i]).witness,
        )
    &&& forall|i: int|
        0 <= i < op.destructible_out.len() ==> value_in_field(
            order,
            (#[trigger] op.destructible_out[i]).data,
        )
    &&& forall|i: int|
        0 <= i < op.immutable_out.len() ==> value_in_field(
            order,
            data_value(#[trigger] op.immutable_out[i]),
        )
}

/// All the values which the verification of an operation may load are in the field of the given order:
/// those of the operation, and those of the cells it destroys and reads.
pub open spec fn within(
    order: (u128, u128),
    op: OperationView,
    taken: Map<CellAddr, StateCell>,
    read: Map<CellAddr, StateData>,
) -> bool {
    &&& is_below((0, 1), order)
    &&& operation_in_field(order, op)
    &&& forall|addr: CellAddr| #[trigger]
        taken.contains_key(addr) ==> cell_in_field(order, taken[addr])
    &&& forall|addr: CellAddr| #[trigger]
        read.contains_key(addr) ==> value_in_field(order, data_value(read[addr]))
}

/// The place in the code of the script which guards a cell.
pub open spec fn cell_script(cell: StateCell) -> Option<(LibId, u16)> {
    match cell.lock {
        Some(lock) => lock_script(lock),
        None => None,
    }
}

/// The input takes a cell which is guarded by a script.
pub open spec fn unlocks(op: OperationView, taken: Map<CellAddr, StateCell>, i: int) -> bool {
    &&& 0 <= i < op.destructible_in.len()
    &&& taken.contains_key(op.destructible_in[i].addr)
    &&& cell_script(taken[op.destructible_in[i].addr]) is Some
}

/// The operation takes a cell which is guarded by a script.
pub open spec fn unlocks_any(op: OperationView, taken: Map<CellAddr, StateCell>) -> bool {
    exists|i: int| unlocks(op, taken, i)
}

/// Two inputs of the operation take cells which are guarded by scripts.
pub open spec fn unlocks_two(op: OperationView, taken: Map<CellAddr, StateCell>) -> bool {
    exists|i: int, j: int| i < j && unlocks(op, taken, i) && unlocks(op, taken, j)
}

/// All the values which the verification of an operation may load are in the field over which the
/// machine computes. That is the field of the codex, but from the second script of a lock on.
pub open spec fn in_field(
    codex: Codex,
    op: OperationView,
    taken: Map<CellAddr, StateCell>,
    read: Map<CellAddr, StateData>,
) -> bool {
    &&& within(field_order(codex), op, taken, read)
    &&& unlocks_two(op, taken) ==> within((RESET_ORDER_HI, RESET_ORDER_LO), op, taken, read)
}

/// The scripts which guard the cells start with an instruction.
pub open spec fn scripts_land(libs: Seq<Lib>, taken: Map<CellAddr, StateCell>) -> bool {
    forall|addr: CellAddr| #[trigger]
        taken.contains_key(addr) ==> (cell_script(taken[addr]) matches Some(site) ==> lands(
            libs,
            site,
        ))
}

/// The code which the verification of an operation runs comes to an end, and computes nothing outside
/// of the field: its constants are in the field and nothing is negated, it is entered and goes on at
/// starts of instructions only, and either its complexity is limited or it has no way back.
pub open spec fn runs_through(
    codex: Codex,
    libs: Seq<Lib>,
    op: OperationView,
    taken: Map<CellAddr, StateCell>,
) -> bool {
    &&& code_is_sound(libs, field_order(codex))
    &&& unlocks_two(op, taken) ==> code_is_sound(libs, (RESET_ORDER_HI, RESET_ORDER_LO))
    &&& verifier_entry(codex, op.call_id) matches Some(site) ==> lands(libs, site)
    &&& scripts_land(libs, taken)
    &&& {
        ||| code_ends(libs)
        ||| complexity_limits(codex).0 is Some && (unlocks_any(op, taken) ==> complexity_limits(
            codex,
        ).1 is Some)
    }
}

/// The cells which an operation defines can be taken by others: all the values in them are in the
/// field, and their scripts start with an instruction.
pub open spec fn outputs_in_field(codex: Codex, libs: Seq<Lib>, op: OperationView) -> bool {
    forall|i: int|
        0 <= i < op.destructible_out.len() ==> {
            &&& cell_in_field(field_order(codex), #[trigger] op.destructible_out[i])
            &&& cell_in_field((RESET_ORDER_HI, RESET_ORDER_LO), op.destructible_out[i])
            &&& cell_script(op.destructible_out[i]) matches Some(site) ==> lands(libs, site)
        }
}

/// The verification of an operation runs through, whichever of the cells are guarded by scripts.
pub open spec fn runs_anyway(
    codex: Codex,
    libs: Seq<Lib>,
    op: OperationView,
    taken: Map<CellAddr, StateCell>,
    read: Map<CellAddr, StateData>,
) -> bool {
    &&& within(field_order(codex), op, taken, read)
    &&& within((RESET_ORDER_HI, RESET_ORDER_LO), op, taken, read)
    &&& code_is_sound(libs, field_order(codex))
    &&& code_is_sound(libs, (RESET_ORDER_HI, RESET_ORDER_LO))
    &&& verifier_entry(codex, op.call_id) matches Some(site) ==> lands(libs, site)
    &&& scripts_land(libs, taken)
    &&& {
        ||| code_ends(libs)
        ||| complexity_limits(codex).0 is Some && complexity_limits(codex).1 is Some
    }
}

/// Tests whether an element of a state value is in the field.
fn element_fits(order: (u128, u128), value: StateValue, pos: u8) -> (r: bool)
    ensures
        r == element_in_field(order, value, pos),
{
    match element_of(value, pos) {
        Some(element) => below(element, order),
        None => true,
    }
}

/// Tests whether a state value is in the field.
fn value_fits(order: (u128, u128), value: StateValue) -> (r: bool)
    ensures
        r == value_in_field(order, value),
{
    element_fits(order, value, 0) && element_fits(order, value, 1) && element_fits(order, value, 2)
        && element_fits(order, value, 3)
}

/// Tests whether a cell is in the field.
fn cell_fits(order: (u128, u128), cell: StateCell) -> (r: bool)
    ensures
        r == cell_in_field(order, cell),
{
    value_fits(order, cell.data) && below((cell.auth.hi, cell.auth.lo), order) && match cell.lock {
        Some(lock) => value_fits(order, data_of_lock(lock)),
        None => true,
    }
}

/// The place in the code of the script which guards a cell.
fn script_of(cell: StateCell) -> (r: Option<(LibId, u16)>)
    ensures
        r == cell_script(cell),
{
    match cell.lock {
        Some(lock) => script_of_lock(lock),
        None => None,
    }
}

/// Tests whether the cells which an operation defines can be taken by others.
fn outputs_fit(codex: &Codex, libs: &Vec<Lib>, map: &CodeMap, op: &Operation) -> (r: bool)
    requires
        map.maps(libs@),
    ensures
        r == outputs_in_field(*codex, libs@, op@),
{
    let order = order_of(codex);
    let mut j: usize = 0;
    while j < op.destructible_out.len()
        invariant
            j <= op.destructible_out@.len(),
            map.maps(libs@),
            order == field_order(*codex),
            forall|k: int|
                0 <= k < j ==> {
                    &&& cell_in_field(order, #[trigger] op@.destructible_out[k])
                    &&& cell_in_field((RESET_ORDER_HI, RESET_ORDER_LO), op@.destructible_out[k])
                    &&& cell_script(op@.destructible_out[k]) matches Some(site) ==> lands(
                        libs@,
                        site,
                    )
                },
        decreases op.destructible_out@.len() - j,
    {
        let cell = op.destructible_out[j];
        assert(op@.destructible_out[j as int] == cell);
        if !cell_fits(order, cell) || !cell_fits((RESET_ORDER_HI, RESET_ORDER_LO), cell) {
            return false;
        }
        if let Some(site) = script_of(cell) {
            if !site_lands(libs, map, site) {
                return false;
            }
        }
        j = j + 1;
    }
    true
}

/// Tests whether the values of an operation are in the field.
fn operation_fits(order: (u128, u128), op: &Operation) -> (r: bool)
    ensures
        r == operation_in_field(order, op@),
{
    if !value_fits(order, op.witness) {
        return false;
    }
    let mut i: usize = 0;
    while i < op.destructible_in.len()
        invariant
            i <= op.destructible_in@.len(),
            forall|k: int|
                0 <= k < i ==> value_in_field(order, (#[trigger] op.destructible_in@[k]).witness),
        decreases op.destructible_in@.len() - i,
    {
        if !value_fits(order, op.destructible_in[i].witness) {
            assert(!value_in_field(order, op@.destructible_in[i as int].witness));
            return false;
        }
        i = i + 1;
    }
    let mut j: usize = 0;
    while j < op.destructible_out.len()
        invariant
            j <= op.destructible_out@.len(),
            forall|k: int|
                0 <= k < j ==> value_in_field(order, (#[trigger] op.destructible_out@[k]).data),
        decreases op.destructible_out@.len() - j,
    {
        if !value_fits(order, op.destructible_out[j].data) {
            assert(!value_in_field(order, op@.destructible_out[j as int].data));
            return false;
        }
        j = j + 1;
    }
    let mut k: usize = 0;
    while k < op.immutable_out.len()
        invariant
            k <= op.immutable_out@.len(),
            forall|m: int|
                0 <= m < k ==> value_in_field(order, data_value(#[trigger] op.immutable_out@[m])),
        decreases op.immutable_out@.len() - k,
    {
        if !value_fits(order, value_of(&op.immutable_out[k])) {
            assert(!value_in_field(order, data_value(op@.immutable_out[k as int])));
            return false;
        }
        k = k + 1;
    }
    true
}

/// Tests whether all the values which the verification of an operation may load are in the field of
/// the given order.
fn values_fit(order: (u128, u128), op: &Operation, raw: &RawState) -> (r: bool)
    ensures
        r == within(order, op@, raw@.taken_by(op@), raw@.read_by(op@)),
{
    let ghost taken = raw@.taken_by(op@);
    let ghost read = raw@.read_by(op@);
    if !below((0, 1), order) || !operation_fits(order, op) {
        return false;
    }
    let mut i: usize = 0;
    while i < op.destructible_in.len()
        invariant
            i <= op.destructible_in@.len(),
            taken == raw@.taken_by(op@),
            forall|k: int|
                0 <= k < i && raw@.owned.contains_key((#[trigger] op@.destructible_in[k]).addr)
                    ==> cell_in_field(order, raw@.owned[op@.destructible_in[k].addr]),
        decreases op.destructible_in@.len() - i,
    {
        let addr = op.destructible_in[i].addr;
        if let Some(cell) = raw.owned.get(addr) {
            if !cell_fits(order, cell) {
                proof {
                    assert(op@.destructible_in[i as int].addr == addr);
                    assert(input_addrs(op@.destructible_in).contains(addr));
                    assert(taken.contains_key(addr));
                }
                return false;
            }
        }
        i = i + 1;
    }
    let mut j: usize = 0;
    while j < op.immutable_in.len()
        invariant
            j <= op.immutable_in@.len(),
            read == raw@.read_by(op@),
            forall|k: int|
                0 <= k < j && raw@.global.contains_key(#[trigger] op@.immutable_in[k])
                    ==> value_in_field(order, data_value(raw@.global[op@.immutable_in[k]])),
        decreases op.immutable_in@.len() - j,
    {
        let addr = op.immutable_in[j];
        if let Some(data) = raw.global.get(addr) {
            if !value_fits(order, value_of(data)) {
                proof {
                    assert(op@.immutable_in[j as int] == addr);
                    assert(op@.immutable_in.to_set().contains(addr));
                    assert(read.contains_key(addr));
                }
                return false;
            }
        }
        j = j + 1;
    }
    proof {
        assert forall|addr: CellAddr| #[trigger] taken.contains_key(addr) implies cell_in_field(
            order,
            taken[addr],
        ) by {
            let k = choose|k: int|
                0 <= k < op@.destructible_in.len() && (#[trigger] op@.destructible_in[k]).addr == addr;
            assert(op@.destructible_in[k].addr == addr);
        }
        assert forall|addr: CellAddr| #[trigger] read.contains_key(addr) implies value_in_field(
            order,
            data_value(read[addr]),
        ) by {
            assert(op@.immutable_in.to_set().contains(addr));
            let k = choose|k: int| 0 <= k < op@.immutable_in.len() && op@.immutable_in[k] == addr;
            assert(op@.immutable_in[k] == addr);
        }
    }
    true
}

/// Tells how many of the inputs take cells which are guarded by scripts: whether any, and whether two.
fn count_scripts(op: &Operation, raw: &RawState) -> (r: (bool, bool))
    ensures
        r.0 == unlocks_any(op@, raw@.taken_by(op@)),
        r.1 == unlocks_two(op@, raw@.taken_by(op@)),
{
    let ghost taken = raw@.taken_by(op@);
    let mut any = false;
    let ghost mut first: int = 0;
    let mut i: usize = 0;
    while i < op.destructible_in.len()
        invariant
            i <= op.destructible_in@.len(),
            taken == raw@.taken_by(op@),
            any ==> first < i && unlocks(op@, taken, first),
            forall|k: int| k < i && #[trigger] unlocks(op@, taken, k) ==> any && k == first,
        decreases op.destructible_in@.len() - i,
    {
        let addr = op.destructible_in[i].addr;
        proof {
            assert(op@.destructible_in[i as int].addr == addr);
            assert(input_addrs(op@.destructible_in).contains(addr));
            assert(taken.contains_key(addr) == raw@.owned.contains_key(addr));
        }
        if let Some(cell) = raw.owned.get(addr) {
            if let Some(_) = script_of(cell) {
                assert(unlocks(op@, taken, i as int));
                if any {
                    return (true, true);
                }
                any = true;
                proof {
                    first = i as int;
                }
            }
        }
        i = i + 1;
    }
    (any, false)
}

/// Tests whether the scripts which guard the cells taken by an operation start with an instruction.
fn taken_scripts_land(libs: &Vec<Lib>, map: &CodeMap, op: &Operation, raw: &RawState) -> (r: bool)
    requires
        map.maps(libs@),
    ensures
        r == scripts_land(libs@, raw@.taken_by(op@)),
{
    let ghost taken = raw@.taken_by(op@);
    let mut i: usize = 0;
    while i < op.destructible_in.len()
        invariant
            i <= op.destructible_in@.len(),
            map.maps(libs@),
            taken == raw@.taken_by(op@),
            forall|k: int|
                0 <= k < i && raw@.owned.contains_key((#[trigger] op@.destructible_in[k]).addr)
                    ==> (cell_script(raw@.owned[op@.destructible_in[k].addr]) matches Some(site)
                    ==> lands(libs@, site)),
        decreases op.destructible_in@.len() - i,
    {
        let addr = op.destructible_in[i].addr;
        if let Some(cell) = raw.owned.get(addr) {
            if let Some(site) = script_of(cell) {
                if !site_lands(libs, map, site) {
                    proof {
                        assert(op@.destructible_in[i as int].addr == addr);
                        assert(input_addrs(op@.destructible_in).contains(addr));
                        assert(taken.contains_key(addr));
                    }
                    return false;
                }
            }
        }
        i = i + 1;
    }
    proof {
        assert forall|addr: CellAddr| #[trigger] taken.contains_key(addr) implies (cell_script(
            taken[addr],
        ) matches Some(site) ==> lands(libs@, site)) by {
            let k = choose|k: int|
                0 <= k < op@.destructible_in.len() && (#[trigger] op@.destructible_in[k]).addr == addr;
            assert(op@.destructible_in[k].addr == addr);
        }
    }
    true
}

/// Tests whether the verification of an operation runs through.
pub(crate) fn fits_field(codex: &Codex, libs: &Vec<Lib>, op: &Operation, raw: &RawState) -> (r: bool)
    ensures
        r == {
            &&& in_field(*codex, op@, raw@.taken_by(op@), raw@.read_by(op@))
            &&& runs_through(*codex, libs@, op@, raw@.taken_by(op@))
        },
{
    let order = order_of(codex);
    let reset = (RESET_ORDER_HI, RESET_ORDER_LO);
    let (any, two) = count_scripts(op, raw);
    if !values_fit(order, op, raw) || (two && !values_fit(reset, op, raw)) {
        return false;
    }
    let map = match read_code(libs) {
        Some(map) => map,
        None => {
            return false;
        },
    };
    if !code_fits(libs, &map, order) || (two && !code_fits(libs, &map, reset)) {
        return false;
    }
    if let Some(site) = entry_of(codex, op.call_id) {
        if !site_lands(libs, &map, site) {
            return false;
        }
    }
    let limits = limits_of(codex);
    taken_scripts_land(libs, &map, op, raw) && ((limits.0.is_some() && (!any
        || limits.1.is_some())) || code_runs_out(libs, &map))
}

/// Tests whether the verification of an operation runs through anyway, and its outputs let the
/// verification of others run through too.
pub(crate) fn fits_anyway(codex: &Codex, libs: &Vec<Lib>, op: &Operation, raw: &RawState) -> (r: bool)
    ensures
        r == {
            &&& runs_anyway(*codex, libs@, op@, raw@.taken_by(op@), raw@.read_by(op@))
            &&& outputs_in_field(*codex, libs@, op@)
        },
{
    let order = order_of(codex);
    let reset = (RESET_ORDER_HI, RESET_ORDER_LO);
    if !values_fit(order, op, raw) || !values_fit(reset, op, raw) {
        return false;
    }
    let map = match read_code(libs) {
        Some(map) => map,
        None => {
            return false;
        },
    };
    if !code_fits(libs, &map, order) || !code_fits(libs, &map, reset) {
        return false;
    }
    if let Some(site) = entry_of(codex, op.call_id) {
        if !site_lands(libs, &map, site) {
            return false;
        }
    }
    let limits = limits_of(codex);
    taken_scripts_land(libs, &map, op, raw) && outputs_fit(codex, libs, &map, op) && ((
    limits.0.is_some() && limits.1.is_some()) || code_runs_out(libs, &map))
}

/// What a later operation takes lets its verification run through, when an operation is applied, the
/// outputs of which do.
pub proof fn lemma_stays_in_field(
    codex: Codex,
    libs: Seq<Lib>,
    raw: RawView,
    opid: Opid,
    op: OperationView,
    later: OperationView,
)
    requires
        runs_anyway(codex, libs, op, raw.taken_by(op), raw.read_by(op)),
        outputs_in_field(codex, libs, op),
        runs_anyway(codex, libs, later, raw.taken_by(later), raw.read_by(later)),
    ensures
        ({
            let after = raw.applied(opid, op);
            runs_anyway(codex, libs, later, after.taken_by(later), after.read_by(later))
        }),
{
    let after = raw.applied(opid, op);
    lemma_stays_within(field_order(codex), raw, opid, op, later);
    lemma_stays_within((RESET_ORDER_HI, RESET_ORDER_LO), raw, opid, op, later);
    assert forall|addr: CellAddr| #[trigger] after.taken_by(later).contains_key(addr) implies (
    cell_script(after.taken_by(later)[addr]) matches Some(site) ==> lands(libs, site)) by {
        if addr.opid == opid && addr.pos < op.destructible_out.len() {
            assert(cell_in_field(field_order(codex), op.destructible_out[addr.pos as int]));
        } else {
            assert(raw.taken_by(later).contains_key(addr));
        }
    }
}

/// What a later operation takes stays in the field, when an operation is applied, the cells of which
/// are in the field.
proof fn lemma_stays_within(
    order: (u128, u128),
    raw: RawView,
    opid: Opid,
    op: OperationView,
    later: OperationView,
)
    requires
        operation_in_field(order, op),
        forall|i: int|
            0 <= i < op.destructible_out.len() ==> cell_in_field(
                order,
                #[trigger] op.destructible_out[i],
            ),
        within(order, later, raw.taken_by(later), raw.read_by(later)),
    ensures
        ({
            let after = raw.applied(opid, op);
            within(order, later, after.taken_by(later), after.read_by(later))
        }),
{
    let after = raw.applied(opid, op);
    assert forall|addr: CellAddr| #[trigger] after.taken_by(later).contains_key(
        addr,
    ) implies cell_in_field(order, after.taken_by(later)[addr]) by {
        if addr.opid == opid && addr.pos < op.destructible_out.len() {
            assert(cell_in_field(order, op.destructible_out[addr.pos as int]));
        } else {
            assert(raw.taken_by(later).contains_key(addr));
        }
    }
    assert forall|addr: CellAddr| #[trigger] after.read_by(later).contains_key(
        addr,
    ) implies value_in_field(order, data_value(after.read_by(later)[addr])) by {
        if addr.opid == opid && addr.pos < op.immutable_out.len() {
            assert(value_in_field(order, data_value(op.immutable_out[addr.pos as int])));
        } else {
            assert(raw.read_by(later).contains_key(addr));
        }
    }
}

} // verus!
