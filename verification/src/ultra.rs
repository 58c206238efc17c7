//! Bridge to the `ultrasonic` consensus library: conversion of the contract data to its types
//! and the commitment to an operation.

use crate::types::{
    AuthToken, CellAddr, ContractId, Input, Operation, OperationView, Opid, StateCell,
};
use amplify::confinement::SmallVec;
use amplify::ByteArray;
use ultrasonic::fe256;
use ultrasonic::CellAddr as UltraAddr;
use ultrasonic::CellLock;
use ultrasonic::Input as UltraInput;
use ultrasonic::Operation as UltraOperation;
use ultrasonic::StateCell as UltraCell;
use ultrasonic::StateData;
use ultrasonic::StateValue;
use vstd::prelude::*;

verus! {

/// Element of a 256-bit finite field; carried through unopened.
#[verifier::external_type_specification]
#[verifier::external_body]
pub struct ExFe256(fe256);

/// Value of a memory cell; carried through unopened.
#[verifier::external_type_specification]
#[verifier::external_body]
pub struct ExStateValue(StateValue);

/// Lock conditions of a memory cell; carried through unopened.
#[verifier::external_type_specification]
#[verifier::external_body]
pub struct ExCellLock(CellLock);

/// Content of an immutable memory cell; carried through unopened.
#[verifier::external_type_specification]
#[verifier::external_body]
pub struct ExStateData(StateData);

/// Cell address, as `ultrasonic` has it.
#[verifier::external_type_specification]
#[verifier::external_body]
pub struct ExUltraAddr(UltraAddr);

/// Destructible cell, as `ultrasonic` has it.
#[verifier::external_type_specification]
#[verifier::external_body]
pub struct ExUltraCell(UltraCell);

/// Operation input, as `ultrasonic` has it.
#[verifier::external_type_specification]
#[verifier::external_body]
pub struct ExUltraInput(UltraInput);

/// Operation, as `ultrasonic` has it.
#[verifier::external_type_specification]
#[verifier::external_body]
pub struct ExUltraOperation(UltraOperation);

/// The fields that an `ultrasonic::CellAddr` holds.
pub uninterp spec fn addr_content(addr: UltraAddr) -> CellAddr;

/// The fields that an `ultrasonic::StateCell` holds.
pub uninterp spec fn cell_content(cell: UltraCell) -> StateCell;

/// The fields that an `ultrasonic::Input` holds.
pub uninterp spec fn input_content(input: UltraInput) -> Input;

/// The fields that an `ultrasonic::Operation` holds, but for its reserved version byte.
pub uninterp spec fn operation_content(op: UltraOperation) -> OperationView;

/// The commitment to an operation, which is its id: a tagged hash of all the operation data,
/// with the lists merkelized. Given by `ultrasonic::Operation::opid`.
pub uninterp spec fn committed_opid(op: OperationView) -> Opid;

/// `ultrasonic::CellAddr::new` on the same operation id and output number.
#[verifier::external_body]
pub(crate) fn ultra_addr(addr: CellAddr) -> (r: UltraAddr)
    ensures
        addr_content(r) == addr,
{
    let mut id = [0u8; 32];
    id[..16].copy_from_slice(&addr.opid.hi.to_be_bytes());
    id[16..].copy_from_slice(&addr.opid.lo.to_be_bytes());
    UltraAddr::new(id.into(), addr.pos)
}

/// Reads the fields of an `ultrasonic::CellAddr`.
#[verifier::external_body]
pub(crate) fn plain_addr(addr: UltraAddr) -> (r: CellAddr)
    ensures
        r == addr_content(addr),
{
    let id = addr.opid.to_byte_array();
    let hi = u128::from_be_bytes(id[..16].try_into().unwrap());
    let lo = u128::from_be_bytes(id[16..].try_into().unwrap());
    CellAddr { opid: Opid { hi, lo }, pos: addr.pos }
}

/// An `ultrasonic::StateCell` with the same value, token of authority and lock. The token is a
/// field element, built with `ultrasonic::AuthToken::from`.
#[verifier::external_body]
pub(crate) fn ultra_cell(cell: StateCell) -> (r: UltraCell)
    ensures
        cell_content(r) == cell,
{
    let mut token = [0u8; 32];
    token[..16].copy_from_slice(&cell.auth.lo.to_le_bytes());
    token[16..].copy_from_slice(&cell.auth.hi.to_le_bytes());
    UltraCell { data: cell.data, auth: fe256::from(token).into(), lock: cell.lock }
}

/// Reads the fields of an `ultrasonic::StateCell`.
#[verifier::external_body]
pub(crate) fn plain_cell(cell: UltraCell) -> (r: StateCell)
    ensures
        r == cell_content(cell),
{
    let token = cell.auth.to_fe256().to_u256().to_le_bytes();
    let lo = u128::from_le_bytes(token[..16].try_into().unwrap());
    let hi = u128::from_le_bytes(token[16..].try_into().unwrap());
    StateCell { data: cell.data, auth: AuthToken { hi, lo }, lock: cell.lock }
}

/// An `ultrasonic::Input` with the given address and witness.
#[verifier::external_body]
fn ultra_input(addr: UltraAddr, witness: StateValue) -> (r: UltraInput)
    ensures
        input_content(r) == (Input { addr: addr_content(addr), witness }),
{
    UltraInput { addr, witness }
}

/// Reads the fields of an `ultrasonic::Input`.
#[verifier::external_body]
fn plain_input(input: UltraInput) -> (r: (UltraAddr, StateValue))
    ensures
        input_content(input) == (Input { addr: addr_content(r.0), witness: r.1 }),
{
    (input.addr, input.witness)
}

/// An `ultrasonic::Operation` with the given fields. Its lists are confined to 16-bit lengths.
#[verifier::external_body]
fn assemble(
    head: (ContractId, u16, fe256, StateValue),
    destructible_in: Vec<UltraInput>,
    immutable_in: Vec<UltraAddr>,
    destructible_out: Vec<UltraCell>,
    immutable_out: Vec<StateData>,
) -> (r: UltraOperation)
    requires
        destructible_in@.len() <= 65535,
        immutable_in@.len() <= 65535,
        destructible_out@.len() <= 65535,
        immutable_out@.len() <= 65535,
    ensures
        operation_content(r).contract_id == head.0,
        operation_content(r).call_id == head.1,
        operation_content(r).nonce == head.2,
        operation_content(r).witness == head.3,
        operation_content(r).destructible_in == destructible_in@.map_values(
            |i: UltraInput| input_content(i),
        ),
        operation_content(r).immutable_in == immutable_in@.map_values(
            |a: UltraAddr| addr_content(a),
        ),
        operation_content(r).destructible_out == destructible_out@.map_values(
            |c: UltraCell| cell_content(c),
        ),
        operation_content(r).immutable_out == immutable_out@,
{
    UltraOperation {
        version: Default::default(),
        contract_id: [head.0.hi.to_be_bytes(), head.0.lo.to_be_bytes()].concat().try_into().map(
            |id: [u8; 32]| id.into()).unwrap(),
        call_id: head.1,
        nonce: head.2,
        witness: head.3,
        destructible_in: SmallVec::from_checked(destructible_in),
        immutable_in: SmallVec::from_checked(immutable_in),
        destructible_out: SmallVec::from_checked(destructible_out),
        immutable_out: SmallVec::from_checked(immutable_out),
    }
}

/// Reads the fields of an `ultrasonic::Operation`, but for its reserved version byte. Its lists are
/// confined to 16-bit lengths.
#[verifier::external_body]
fn disassemble(op: UltraOperation) -> (r: (
    (ContractId, u16, fe256, StateValue),
    Vec<UltraInput>,
    Vec<UltraAddr>,
    Vec<UltraCell>,
    Vec<StateData>,
))
    ensures
        operation_content(op).contract_id == r.0.0,
        operation_content(op).call_id == r.0.1,
        operation_content(op).nonce == r.0.2,
        operation_content(op).witness == r.0.3,
        operation_content(op).destructible_in == r.1@.map_values(|i: UltraInput| input_content(i)),
        operation_content(op).immutable_in == r.2@.map_values(|a: UltraAddr| addr_content(a)),
        operation_content(op).destructible_out == r.3@.map_values(|c: UltraCell| cell_content(c)),
        operation_content(op).immutable_out == r.4@,
        r.1@.len() <= 65535,
        r.2@.len() <= 65535,
        r.3@.len() <= 65535,
        r.4@.len() <= 65535,
{
    let id = op.contract_id.to_byte_array();
    let hi = u128::from_be_bytes(id[..16].try_into().unwrap());
    let lo = u128::from_be_bytes(id[16..].try_into().unwrap());
    (
        (ContractId { hi, lo }, op.call_id, op.nonce, op.witness),
        op.destructible_in.release(),
        op.immutable_in.release(),
        op.destructible_out.release(),
        op.immutable_out.release(),
    )
}

/// `ultrasonic::Operation::opid`: the commitment to the operation data, a function of them alone.
#[verifier::external_body]
fn operation_id(op: &UltraOperation) -> (r: Opid)
    ensures
        r == committed_opid(operation_content(*op)),
{
    let id = op.opid().to_byte_array();
    let hi = u128::from_be_bytes(id[..16].try_into().unwrap());
    let lo = u128::from_be_bytes(id[16..].try_into().unwrap());
    Opid { hi, lo }
}

/// `ultrasonic::StateData::clone`: a copy of the cell content.
#[verifier::external_body]
pub(crate) fn clone_data(data: &StateData) -> (r: StateData)
    ensures
        r == *data,
{
    data.clone()
}

/// Copies a list of immutable cells.
pub(crate) fn clone_data_list(list: &Vec<StateData>) -> (r: Vec<StateData>)
    ensures
        r@ == list@,
{
    let mut copy: Vec<StateData> = Vec::new();
    let mut i: usize = 0;
    while i < list.len()
        invariant
            i <= list.len(),
            copy@ == list@.take(i as int),
        decreases list.len() - i,
    {
        copy.push(clone_data(&list[i]));
        i = i + 1;
        assert(copy@ == list@.take(i as int));
    }
    copy
}

/// The operation as `ultrasonic` has it.
pub fn to_ultra(op: &Operation) -> (r: UltraOperation)
    requires
        op@.well_formed(),
    ensures
        operation_content(r) == op@,
{
    let mut inputs: Vec<UltraInput> = Vec::new();
    let mut i: usize = 0;
    while i < op.destructible_in.len()
        invariant
            i <= op.destructible_in.len(),
            inputs@.len() == i,
            forall|k: int|
                0 <= k < i ==> input_content(#[trigger] inputs@[k]) == op.destructible_in@[k],
        decreases op.destructible_in.len() - i,
    {
        let input = op.destructible_in[i];
        inputs.push(ultra_input(ultra_addr(input.addr), input.witness));
        i = i + 1;
    }
    let mut reads: Vec<UltraAddr> = Vec::new();
    let mut j: usize = 0;
    while j < op.immutable_in.len()
        invariant
            j <= op.immutable_in.len(),
            reads@.len() == j,
            forall|k: int|
                0 <= k < j ==> addr_content(#[trigger] reads@[k]) == op.immutable_in@[k],
        decreases op.immutable_in.len() - j,
    {
        reads.push(ultra_addr(op.immutable_in[j]));
        j = j + 1;
    }
    let mut cells: Vec<UltraCell> = Vec::new();
    let mut c: usize = 0;
    while c < op.destructible_out.len()
        invariant
            c <= op.destructible_out.len(),
            cells@.len() == c,
            forall|k: int|
                0 <= k < c ==> cell_content(#[trigger] cells@[k]) == op.destructible_out@[k],
        decreases op.destructible_out.len() - c,
    {
        cells.push(ultra_cell(op.destructible_out[c]));
        c = c + 1;
    }
    let ghost shape = (inputs@, reads@, cells@);
    let r = assemble(
        (op.contract_id, op.call_id, op.nonce, op.witness),
        inputs,
        reads,
        cells,
        clone_data_list(&op.immutable_out),
    );
    proof {
        assert(shape.0.map_values(|i: UltraInput| input_content(i)) =~= op.destructible_in@);
        assert(shape.1.map_values(|a: UltraAddr| addr_content(a)) =~= op.immutable_in@);
        assert(shape.2.map_values(|c: UltraCell| cell_content(c)) =~= op.destructible_out@);
    }
    r
}

/// The operation out of that of `ultrasonic`.
pub fn from_ultra(op: UltraOperation) -> (r: Operation)
    ensures
        r@ == operation_content(op),
        r@.well_formed(),
{
    let ghost content = operation_content(op);
    let (head, inputs, reads, cells, immutable_out) = disassemble(op);
    let mut destructible_in: Vec<Input> = Vec::new();
    for input in it: inputs
        invariant
            it.seq() == inputs@,
            destructible_in@ == inputs@.map_values(|i: UltraInput| input_content(i)).take(
                it.index() as int,
            ),
    {
        let (addr, witness) = plain_input(input);
        destructible_in.push(Input { addr: plain_addr(addr), witness });
        proof {
            let all = inputs@.map_values(|i: UltraInput| input_content(i));
            assert(destructible_in@ =~= all.take(it.index() + 1));
        }
    }
    let mut immutable_in: Vec<CellAddr> = Vec::new();
    for addr in it: reads
        invariant
            it.seq() == reads@,
            immutable_in@ == reads@.map_values(|a: UltraAddr| addr_content(a)).take(
                it.index() as int,
            ),
    {
        immutable_in.push(plain_addr(addr));
        proof {
            let all = reads@.map_values(|a: UltraAddr| addr_content(a));
            assert(immutable_in@ =~= all.take(it.index() + 1));
        }
    }
    let mut destructible_out: Vec<StateCell> = Vec::new();
    for cell in it: cells
        invariant
            it.seq() == cells@,
            destructible_out@ == cells@.map_values(|c: UltraCell| cell_content(c)).take(
                it.index() as int,
            ),
    {
        destructible_out.push(plain_cell(cell));
        proof {
            let all = cells@.map_values(|c: UltraCell| cell_content(c));
            assert(destructible_out@ =~= all.take(it.index() + 1));
        }
    }
    let (contract_id, call_id, nonce, witness) = head;
    let r = Operation {
        contract_id,
        call_id,
        nonce,
        witness,
        destructible_in,
        immutable_in,
        destructible_out,
        immutable_out,
    };
    assert(r@.destructible_in =~= content.destructible_in);
    assert(r@.immutable_in =~= content.immutable_in);
    assert(r@.destructible_out =~= content.destructible_out);
    r
}

impl Operation {
    /// The operation id: the commitment to all the operation data.
    pub fn opid(&self) -> (r: Opid)
        requires
            self@.well_formed(),
        ensures
            r == committed_opid(self@),
    {
        let op = to_ultra(self);
        operation_id(&op)
    }

    /// A copy of the operation.
    pub fn duplicate(&self) -> (r: Operation)
        ensures
            r@ == self@,
    {
        let r = Operation {
            contract_id: self.contract_id,
            call_id: self.call_id,
            nonce: self.nonce,
            witness: self.witness,
            destructible_in: self.destructible_in.clone(),
            immutable_in: self.immutable_in.clone(),
            destructible_out: self.destructible_out.clone(),
            immutable_out: clone_data_list(&self.immutable_out),
        };
        assert(r.destructible_in@ =~= self.destructible_in@);
        assert(r.immutable_in@ =~= self.immutable_in@);
        assert(r.destructible_out@ =~= self.destructible_out@);
        r
    }
}

} // verus!
