//! Plain contract data: identifiers, memory cells and operations.

use ultrasonic::fe256;
use ultrasonic::CellLock;
use ultrasonic::StateData;
use ultrasonic::StateValue;
use vstd::prelude::*;

verus! {

/// Largest number of elements in one list of an operation.
pub const MAX_LIST: usize = 65535;

/// Operation id: the 32 bytes of the commitment, as two big-endian halves.
#[derive(Copy, Clone, PartialEq, Eq, Structural, Hash, Debug)]
pub struct Opid {
    pub hi: u128,
    pub lo: u128,
}

/// Contract id: 32 bytes, as two big-endian halves.
#[derive(Copy, Clone, PartialEq, Eq, Structural, Hash, Debug)]
pub struct ContractId {
    pub hi: u128,
    pub lo: u128,
}

/// Token of authority: a 256-bit number, as its upper and lower halves.
#[derive(Copy, Clone, PartialEq, Eq, Structural, Hash, Debug)]
pub struct AuthToken {
    pub hi: u128,
    pub lo: u128,
}

/// Address of a memory cell: the operation which defines it and the output number.
#[derive(Copy, Clone, PartialEq, Eq, Structural, Hash, Debug)]
pub struct CellAddr {
    pub opid: Opid,
    pub pos: u16,
}

/// Destructible memory cell.
#[derive(Copy, Clone, PartialEq, Eq, Debug)]
pub struct StateCell {
    pub data: StateValue,
    pub auth: AuthToken,
    pub lock: Option<CellLock>,
}

/// Input of an operation: the cell it destroys and the witness satisfying the cell lock.
#[derive(Copy, Clone, PartialEq, Eq, Debug)]
pub struct Input {
    pub addr: CellAddr,
    pub witness: StateValue,
}

/// Contract operation.
#[derive(Debug)]
pub struct Operation {
    pub contract_id: ContractId,
    pub call_id: u16,
    pub nonce: fe256,
    pub witness: StateValue,
    pub destructible_in: Vec<Input>,
    pub immutable_in: Vec<CellAddr>,
    pub destructible_out: Vec<StateCell>,
    pub immutable_out: Vec<StateData>,
}

/// Mathematical model of [`Operation`].
#[verifier::ext_equal]
pub struct OperationView {
    pub contract_id: ContractId,
    pub call_id: u16,
    pub nonce: fe256,
    pub witness: StateValue,
    pub destructible_in: Seq<Input>,
    pub immutable_in: Seq<CellAddr>,
    pub destructible_out: Seq<StateCell>,
    pub immutable_out: Seq<StateData>,
}

impl View for Operation {
    type V = OperationView;

    open spec fn view(&self) -> OperationView {
        OperationView {
            contract_id: self.contract_id,
            call_id: self.call_id,
            nonce: self.nonce,
            witness: self.witness,
            destructible_in: self.destructible_in@,
            immutable_in: self.immutable_in@,
            destructible_out: self.destructible_out@,
            immutable_out: self.immutable_out@,
        }
    }
}

impl OperationView {
    /// Every list of the operation fits a 16-bit length.
    pub open spec fn well_formed(self) -> bool {
        &&& self.destructible_in.len() <= MAX_LIST
        &&& self.immutable_in.len() <= MAX_LIST
        &&& self.destructible_out.len() <= MAX_LIST
        &&& self.immutable_out.len() <= MAX_LIST
    }

    /// The operations whose cells this operation destroys or reads.
    pub open spec fn parents(self) -> Set<Opid> {
        Set::new(
            |p: Opid|
                {
                    ||| exists|i: int|
                        0 <= i < self.destructible_in.len() && (#[trigger] self.destructible_in[i]).addr.opid
                            == p
                    ||| exists|i: int|
                        0 <= i < self.immutable_in.len() && (#[trigger] self.immutable_in[i]).opid == p
                },
        )
    }
}

impl Opid {
    /// Order of the operation ids as byte strings.
    pub open spec fn precedes(self, other: Opid) -> bool {
        self.hi < other.hi || (self.hi == other.hi && self.lo < other.lo)
    }

    /// Tests whether this id comes before the other one in the byte order.
    pub fn is_before(&self, other: &Opid) -> (r: bool)
        ensures
            r == self.precedes(*other),
    {
        self.hi < other.hi || (self.hi == other.hi && self.lo < other.lo)
    }
}

impl AuthToken {
    /// Order of the tokens as numbers.
    pub open spec fn precedes(self, other: AuthToken) -> bool {
        self.hi < other.hi || (self.hi == other.hi && self.lo < other.lo)
    }
}

impl CellAddr {
    /// Construct a memory cell address from an operation id and an output number.
    pub fn new(opid: Opid, pos: u16) -> (r: CellAddr)
        ensures
            r == (CellAddr { opid, pos }),
    {
        CellAddr { opid, pos }
    }

    /// Order of the addresses: by the operation id, then by the output number.
    pub open spec fn precedes(self, other: CellAddr) -> bool {
        self.opid.precedes(other.opid) || (self.opid == other.opid && self.pos < other.pos)
    }

    /// Tests whether this address comes before the other one.
    pub fn is_before(&self, other: &CellAddr) -> (r: bool)
        ensures
            r == self.precedes(*other),
    {
        self.opid.is_before(&other.opid) || (self.opid == other.opid && self.pos < other.pos)
    }
}

} // verus!
