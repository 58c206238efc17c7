//! Contract articles and the verification of operations against the codex of the contract.

use crate::cells::MAX_STATE;
use crate::code::{has_library_id, library_id};
use crate::field::{
    entry_of, fits_anyway, fits_field, in_field, outputs_in_field, runs_anyway, runs_through,
    verifier_entry,
};
use crate::processed::ProcessedView;
use crate::raw::{claimed, output_cells, RawState, RawView, VerifiedOperation};
use crate::state::{given_readings, EffectiveState, EffectiveView, Readings, Semantics};
use crate::types::{AuthToken, CellAddr, ContractId, Operation, OperationView, Opid, StateCell};
use crate::ultra::{committed_opid, operation_content, to_ultra};
use aluvm::Lib;
use aluvm::LibId;
use ultrasonic::CallError;
use ultrasonic::Codex;
use ultrasonic::ContractId as UltraContractId;
use ultrasonic::LibRepo;
use ultrasonic::Operation as UltraOperation;
use ultrasonic::StateData;
use vstd::prelude::*;

verus! {

/// Rules of a contract; carried through unopened.
#[verifier::external_type_specification]
#[verifier::external_body]
pub struct ExCodex(Codex);

/// Failure of an operation to keep the rules of a contract; carried through unopened.
#[verifier::external_type_specification]
#[verifier::external_body]
pub struct ExCallError(CallError);

/// Contract articles: the genesis of the contract, its rules and the way to read its state.
#[derive(Debug)]
pub struct Articles {
    pub contract_id: ContractId,
    pub name: String,
    pub genesis: Operation,
    pub codex: Codex,
    pub codex_libs: Vec<Lib>,
    pub semantics: Semantics,
}

impl Articles {
    /// Genesis is an operation of the contract.
    pub open spec fn well_formed(self) -> bool {
        &&& self.genesis@.well_formed()
        &&& self.genesis.contract_id == self.contract_id
        &&& self.semantics.well_formed()
    }

    /// The id of the genesis operation.
    pub fn genesis_opid(&self) -> (r: Opid)
        requires
            self.well_formed(),
        ensures
            r == committed_opid(self.genesis@),
    {
        self.genesis.opid()
    }
}

/// The code libraries of the contract.
impl LibRepo for Articles {
    fn get_lib(&self, lib_id: LibId) -> (r: Option<&Lib>)
        ensures
            match r {
                Some(lib) => self.codex_libs@.contains(*lib) && library_id(*lib) == lib_id,
                None => forall|i: int|
                    0 <= i < self.codex_libs@.len() ==> library_id(#[trigger] self.codex_libs@[i])
                        != lib_id,
            },
    {
        let mut i: usize = 0;
        while i < self.codex_libs.len()
            invariant
                i <= self.codex_libs@.len(),
                forall|k: int|
                    0 <= k < i ==> library_id(#[trigger] self.codex_libs@[k]) != lib_id,
            decreases self.codex_libs@.len() - i,
        {
            if has_library_id(&self.codex_libs[i], lib_id) {
                assert(self.codex_libs@[i as int] == self.codex_libs[i as int]);
                return Some(&self.codex_libs[i]);
            }
            i = i + 1;
        }
        None
    }
}

/// What `ultrasonic::Codex::verify` decides of an operation of a contract, given the memory cells
/// which the operation destroys and reads, as far as they are there, and the code libraries.
pub uninterp spec fn verdict(
    codex: Codex,
    contract_id: ContractId,
    op: OperationView,
    taken: Map<CellAddr, StateCell>,
    read: Map<CellAddr, StateData>,
    libs: Seq<Lib>,
) -> Result<(), CallError>;

/// Every cell which the operation reads is there.
pub open spec fn has_reads(raw: RawView, op: OperationView) -> bool {
    forall|i: int|
        0 <= i < op.immutable_in.len() ==> raw.global.contains_key(#[trigger] op.immutable_in[i])
}

/// `ultrasonic::Codex::verify`. Of the memory it looks at nothing but the cells which the operation
/// destroys and reads. An accepted operation is one of the contract, all these cells are there, and
/// the codex has a verifier for the call.
///
/// Once all this holds, the virtual machine runs. It panics at a value which is not in its field, and
/// may run without an end. Thus the values have to be in the field then, and the code has to run
/// through: `in_field` and `runs_through` leave out all the rest.
#[verifier::external_body]
fn verify_operation(articles: &Articles, op: UltraOperation, raw: &RawState) -> (r: Result<
    (),
    CallError,
>)
    requires
        articles.runs_through(operation_content(op), raw@),
    ensures
        r == verdict(
            articles.codex,
            articles.contract_id,
            operation_content(op),
            raw@.taken_by(operation_content(op)),
            raw@.read_by(operation_content(op)),
            articles.codex_libs@,
        ),
        r is Ok ==> {
            &&& operation_content(op).contract_id == articles.contract_id
            &&& raw@.has_inputs(operation_content(op))
            &&& has_reads(raw@, operation_content(op))
            &&& verifier_entry(articles.codex, operation_content(op).call_id) is Some
        },
{
    let id = articles.contract_id;
    let bytes = [id.hi.to_be_bytes(), id.lo.to_be_bytes()].concat();
    let contract_id = UltraContractId::from(<[u8; 32]>::try_from(bytes).unwrap());
    articles.codex.verify(contract_id, op, raw, articles).map(|_| ())
}

impl Articles {
    /// What the codex of the contract decides of an operation in a state.
    pub open spec fn verdict(self, op: OperationView, raw: RawView) -> Result<(), CallError> {
        verdict(
            self.codex,
            self.contract_id,
            op,
            raw.taken_by(op),
            raw.read_by(op),
            self.codex_libs@,
        )
    }

    /// The verification of an operation in a state gets to run code.
    pub open spec fn reaches_code(self, op: OperationView, raw: RawView) -> bool {
        &&& op.contract_id == self.contract_id
        &&& raw.has_inputs(op)
        &&& has_reads(raw, op)
        &&& verifier_entry(self.codex, op.call_id) is Some
    }

    /// The verification of an operation in a state runs through: if it gets to run code, all the
    /// values which it may load are in the field, and so are those which the code computes; and the
    /// code comes to an end.
    pub open spec fn runs_through(self, op: OperationView, raw: RawView) -> bool {
        self.reaches_code(op, raw) ==> {
            &&& in_field(self.codex, op, raw.taken_by(op), raw.read_by(op))
            &&& runs_through(self.codex, self.codex_libs@, op, raw.taken_by(op))
        }
    }

    /// Tests whether the verification of an operation gets to run code.
    fn gets_to_code(&self, operation: &Operation, raw: &RawState) -> (r: bool)
        ensures
            r == self.reaches_code(operation@, raw@),
    {
        if operation.contract_id != self.contract_id {
            return false;
        }
        let mut i: usize = 0;
        while i < operation.destructible_in.len()
            invariant
                i <= operation.destructible_in@.len(),
                forall|k: int|
                    0 <= k < i ==> raw@.owned.contains_key(
                        (#[trigger] operation@.destructible_in[k]).addr,
                    ),
            decreases operation.destructible_in@.len() - i,
        {
            if raw.owned.get(operation.destructible_in[i].addr).is_none() {
                assert(!raw@.owned.contains_key(operation@.destructible_in[i as int].addr));
                return false;
            }
            i = i + 1;
        }
        let mut j: usize = 0;
        while j < operation.immutable_in.len()
            invariant
                j <= operation.immutable_in@.len(),
                forall|k: int|
                    0 <= k < j ==> raw@.global.contains_key(#[trigger] operation@.immutable_in[k]),
            decreases operation.immutable_in@.len() - j,
        {
            if raw.global.get(operation.immutable_in[j]).is_none() {
                assert(!raw@.global.contains_key(operation@.immutable_in[j as int]));
                return false;
            }
            j = j + 1;
        }
        entry_of(&self.codex, operation.call_id).is_some()
    }

    /// Tests whether the verification of an operation in a state runs through.
    pub fn fits(&self, operation: &Operation, raw: &RawState) -> (r: bool)
        ensures
            r == self.runs_through(operation@, raw@),
    {
        !self.gets_to_code(operation, raw) || fits_field(
            &self.codex,
            &self.codex_libs,
            operation,
            raw,
        )
    }

    /// The verification of an operation runs through now and after other such operations as well.
    pub open spec fn runs_anyway(self, op: OperationView, raw: RawView) -> bool {
        &&& runs_anyway(
            self.codex,
            self.codex_libs@,
            op,
            raw.taken_by(op),
            raw.read_by(op),
        )
        &&& outputs_in_field(self.codex, self.codex_libs@, op)
    }

    /// Tests whether the verification of an operation runs through now and after other such
    /// operations as well.
    pub fn fits_anyway(&self, operation: &Operation, raw: &RawState) -> (r: bool)
        ensures
            r == self.runs_anyway(operation@, raw@),
    {
        fits_anyway(&self.codex, &self.codex_libs, operation, raw)
    }

    /// Verifies an operation, unless the verification might not run through.
    pub fn try_verify(&self, operation: Operation, raw: &RawState) -> (r: Option<
        Result<VerifiedOperation, CallError>,
    >)
        requires
            operation@.well_formed(),
        ensures
            r is None <==> !self.runs_through(operation@, raw@),
            r matches Some(Ok(verified)) ==> {
                &&& self.verdict(operation@, raw@) is Ok
                &&& verified.operation == operation
                &&& verified.well_formed()
                &&& operation.contract_id == self.contract_id
                &&& raw@.has_inputs(operation@)
                &&& has_reads(raw@, operation@)
            },
            r matches Some(Err(e)) ==> self.verdict(operation@, raw@) == Err::<(), CallError>(e),
    {
        if !self.fits(&operation, raw) {
            return None;
        }
        Some(self.verify(operation, raw))
    }

    /// Verifies an operation.
    pub fn verify(&self, operation: Operation, raw: &RawState) -> (r: Result<
        VerifiedOperation,
        CallError,
    >)
        requires
            operation@.well_formed(),
            self.runs_through(operation@, raw@),
        ensures
            match r {
                Ok(verified) => {
                    &&& self.verdict(operation@, raw@) is Ok
                    &&& verified.operation == operation
                    &&& verified.well_formed()
                    &&& operation.contract_id == self.contract_id
                    &&& raw@.has_inputs(operation@)
                    &&& has_reads(raw@, operation@)
                },
                Err(e) => self.verdict(operation@, raw@) == Err::<(), CallError>(e),
            },
    {
        match verify_operation(self, to_ultra(&operation), raw) {
            Ok(()) => {
                let opid = operation.opid();
                Ok(VerifiedOperation { opid, operation })
            },
            Err(e) => Err(e),
        }
    }
}

/// A state with enough free places has room for the outputs of an operation.
pub proof fn lemma_has_room(raw: RawView, opid: Opid, op: OperationView)
    requires
        raw.well_formed(),
        op.well_formed(),
        raw.auth.len() + op.destructible_out.len() <= MAX_STATE,
        raw.owned.len() + op.destructible_out.len() <= MAX_STATE,
        raw.global.len() + op.immutable_out.len() <= MAX_STATE,
    ensures
        raw.has_room(opid, op),
{
    let auth = raw.auth_left(op);
    let owned = raw.owned_left(op);
    vstd::set_lib::lemma_len_subset(auth.dom(), raw.auth.dom());
    vstd::set_lib::lemma_len_subset(owned.dom(), raw.owned.dom());
    assert forall|k: int| 0 <= k < op.destructible_out.len() implies #[trigger] claimed(
        auth,
        opid,
        op.destructible_out.take(k),
    ).len() < MAX_STATE by {
        lemma_claimed_len(auth, opid, op.destructible_out.take(k));
    }
    assert forall|k: int| 0 <= k < op.destructible_out.len() implies owned.union_prefer_right(
        #[trigger] output_cells(opid, op.destructible_out.take(k)),
    ).len() < MAX_STATE by {
        lemma_outputs_len(owned, opid, op.destructible_out.take(k));
    }
    assert forall|k: int| 0 <= k < op.immutable_out.len() implies raw.global.union_prefer_right(
        #[trigger] output_cells(opid, op.immutable_out.take(k)),
    ).len() < MAX_STATE by {
        lemma_outputs_len(raw.global, opid, op.immutable_out.take(k));
    }
}

/// An operation adds no more cells than it has outputs.
pub proof fn lemma_applied_grows(raw: RawView, opid: Opid, op: OperationView)
    requires
        raw.auth.dom().finite(),
        raw.owned.dom().finite(),
        raw.global.dom().finite(),
        op.well_formed(),
    ensures
        raw.applied(opid, op).auth.dom().finite(),
        raw.applied(opid, op).owned.dom().finite(),
        raw.applied(opid, op).global.dom().finite(),
        raw.applied(opid, op).auth.len() <= raw.auth.len() + op.destructible_out.len(),
        raw.applied(opid, op).owned.len() <= raw.owned.len() + op.destructible_out.len(),
        raw.applied(opid, op).global.len() <= raw.global.len() + op.immutable_out.len(),
{
    let auth = raw.auth_left(op);
    let owned = raw.owned_left(op);
    vstd::set_lib::lemma_len_subset(auth.dom(), raw.auth.dom());
    vstd::set_lib::lemma_len_subset(owned.dom(), raw.owned.dom());
    lemma_claimed_len(auth, opid, op.destructible_out);
    lemma_outputs_len(owned, opid, op.destructible_out);
    lemma_outputs_len(raw.global, opid, op.immutable_out);
}

/// No more tokens come in than there are outputs.
proof fn lemma_claimed_len(auth: Map<AuthToken, CellAddr>, opid: Opid, outs: Seq<StateCell>)
    requires
        auth.dom().finite(),
    ensures
        claimed(auth, opid, outs).dom().finite(),
        claimed(auth, opid, outs).len() <= auth.len() + outs.len(),
    decreases outs.len(),
{
    if outs.len() > 0 {
        lemma_claimed_len(auth, opid, outs.drop_last());
    }
}

/// No more cells come in than there are outputs.
proof fn lemma_outputs_len<V>(map: Map<CellAddr, V>, opid: Opid, outs: Seq<V>)
    requires
        map.dom().finite(),
        outs.len() <= 65535,
    ensures
        map.union_prefer_right(output_cells(opid, outs)).dom().finite(),
        map.union_prefer_right(output_cells(opid, outs)).len() <= map.len() + outs.len(),
    decreases outs.len(),
{
    if outs.len() == 0 {
        assert(map.union_prefer_right(output_cells(opid, outs)) =~= map);
    } else {
        let less = outs.drop_last();
        lemma_outputs_len(map, opid, less);
        let addr = CellAddr { opid, pos: (outs.len() - 1) as u16 };
        assert(map.union_prefer_right(output_cells(opid, outs)) =~= map.union_prefer_right(
            output_cells(opid, less),
        ).insert(addr, outs.last()));
    }
}

impl EffectiveState {
    /// The state after the genesis of a contract.
    pub fn with_articles(articles: &Articles, readings: Option<Readings>) -> (r: Result<
        EffectiveState,
        CallError,
    >)
        requires
            articles.well_formed(),
            articles.runs_through(articles.genesis@, RawView::empty()),
            readings matches Some(readings) ==> readings@.reads_outputs(articles.genesis@),
        ensures
            match articles.verdict(articles.genesis@, RawView::empty()) {
                Err(e) => r == Err::<EffectiveState, CallError>(e),
                Ok(()) => {
                    &&& r matches Ok(state) && state.well_formed() && state@ == (EffectiveView {
                        raw: RawView::empty(),
                        main: ProcessedView::empty(),
                        aux: Map::empty(),
                    }).applied(
                        committed_opid(articles.genesis@),
                        articles.genesis@,
                        given_readings(readings),
                    )
                    &&& articles.genesis@.destructible_in.len() == 0
                    &&& articles.genesis@.immutable_in.len() == 0
                },
            },
    {
        let mut state = EffectiveState::new();
        let verified = match articles.verify(articles.genesis.duplicate(), &state.raw) {
            Ok(verified) => verified,
            Err(e) => {
                return Err(e);
            },
        };
        proof {
            // Nothing is in the state yet, thus an accepted genesis has nothing to destroy or read.
            if verified.operation@.destructible_in.len() > 0 {
                assert(state@.raw.owned.contains_key(verified.operation@.destructible_in[0].addr));
            }
            if verified.operation@.immutable_in.len() > 0 {
                assert(state@.raw.global.contains_key(verified.operation@.immutable_in[0]));
            }
            lemma_has_room(state@.raw, verified.opid, verified.operation@);
        }
        // We do not need state transition for genesis.
        let _ = state.apply(&verified, readings);
        Ok(state)
    }
}

} // verus!
