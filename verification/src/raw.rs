//! Raw contract state: the memory cells as the operations define and destroy them.

use crate::cells::{
    auth_content, destroyed_content, global_content, lists, lists_tokens, owned_content,
    without_outputs, AuthMap, DestroyedMap, GlobalMap, OwnedMap, MAX_DESTROYED, MAX_STATE,
};
use crate::types::{AuthToken, CellAddr, Input, Operation, OperationView, Opid, StateCell};
use crate::ultra::{
    addr_content, cell_content, clone_data, committed_opid, plain_addr, ultra_cell,
};
use ultrasonic::CellAddr as UltraAddr;
use ultrasonic::Memory;
use ultrasonic::StateCell as UltraCell;
use ultrasonic::StateData;
use ultrasonic::StateValue;
use vstd::prelude::*;

verus! {

/// State transitions keeping track of the operation reference plus the state destroyed by the
/// operation.
#[derive(Debug)]
pub struct Transition {
    pub opid: Opid,
    pub destroyed: DestroyedMap,
}

/// Mathematical model of [`Transition`].
#[verifier::ext_equal]
pub struct TransitionView {
    pub opid: Opid,
    pub destroyed: Map<CellAddr, StateCell>,
}

impl View for Transition {
    type V = TransitionView;

    open spec fn view(&self) -> TransitionView {
        TransitionView { opid: self.opid, destroyed: destroyed_content(self.destroyed) }
    }
}

impl TransitionView {
    /// The map of the destroyed cells is in its limit.
    pub open spec fn well_formed(self) -> bool {
        self.destroyed.dom().finite() && self.destroyed.len() <= MAX_DESTROYED
    }
}

impl Transition {
    /// A transition which destroys nothing.
    fn new(opid: Opid) -> (r: Transition)
        ensures
            r@ == (TransitionView { opid, destroyed: Map::empty() }),
    {
        Transition { opid, destroyed: DestroyedMap::new() }
    }

    /// The destroyed cells, in the order of their addresses.
    pub fn destroyed_cells(&self) -> (r: Vec<(CellAddr, StateCell)>)
        ensures
            lists(r@, self@.destroyed),
    {
        self.destroyed.entries()
    }

    /// Makes a transition out of destroyed cells with different addresses.
    pub fn with(opid: Opid, destroyed: &Vec<(CellAddr, StateCell)>) -> (r: Transition)
        requires
            destroyed@.len() <= MAX_DESTROYED,
        ensures
            r@.opid == opid,
            r@.well_formed(),
            r@.destroyed == entered(Map::empty(), destroyed@),
    {
        let mut r = Transition::new(opid);
        let mut i: usize = 0;
        assert(destroyed@.take(0) =~= Seq::empty());
        while i < destroyed.len()
            invariant
                i <= destroyed@.len(),
                destroyed@.len() <= MAX_DESTROYED,
                r.opid == opid,
                r@.destroyed.dom().finite(),
                r@.destroyed.len() <= i,
                r@.destroyed == entered(Map::empty(), destroyed@.take(i as int)),
            decreases destroyed@.len() - i,
        {
            let (addr, cell) = destroyed[i];
            r.destroyed.insert(addr, cell);
            proof {
                assert(destroyed@.take(i + 1).drop_last() =~= destroyed@.take(i as int));
                assert(destroyed@.take(i + 1).last() == (addr, cell));
            }
            i = i + 1;
        }
        assert(destroyed@.take(destroyed@.len() as int) =~= destroyed@);
        r
    }
}

/// The map after the entries of a list came in, one by one.
pub open spec fn entered<K, V>(map: Map<K, V>, list: Seq<(K, V)>) -> Map<K, V>
    decreases list.len(),
{
    if list.len() == 0 {
        map
    } else {
        entered(map, list.drop_last()).insert(list.last().0, list.last().1)
    }
}

/// The value in an immutable cell.
pub uninterp spec fn data_value(data: StateData) -> StateValue;

/// The value field of an `ultrasonic::StateData`.
#[verifier::external_body]
pub(crate) fn value_of(data: &StateData) -> (r: StateValue)
    ensures
        r == data_value(*data),
{
    data.value
}

/// Raw contract state.
#[derive(Debug)]
pub struct RawState {
    /// Tokens of authority
    pub auth: AuthMap,
    pub global: GlobalMap,
    pub owned: OwnedMap,
}

/// Mathematical model of [`RawState`].
#[verifier::ext_equal]
pub struct RawView {
    pub auth: Map<AuthToken, CellAddr>,
    pub global: Map<CellAddr, StateData>,
    pub owned: Map<CellAddr, StateCell>,
}

impl View for RawState {
    type V = RawView;

    open spec fn view(&self) -> RawView {
        RawView {
            auth: auth_content(self.auth),
            global: global_content(self.global),
            owned: owned_content(self.owned),
        }
    }
}

/// The cells which the inputs of an operation destroy.
pub open spec fn input_addrs(inputs: Seq<Input>) -> Set<CellAddr> {
    Set::new(
        |addr: CellAddr| exists|i: int| 0 <= i < inputs.len() && (#[trigger] inputs[i]).addr == addr,
    )
}

/// The tokens of authority in the cells which the inputs of an operation destroy.
pub open spec fn input_tokens(owned: Map<CellAddr, StateCell>, inputs: Seq<Input>) -> Set<AuthToken> {
    Set::new(
        |token: AuthToken|
            exists|i: int|
                0 <= i < inputs.len() && owned[(#[trigger] inputs[i]).addr].auth == token,
    )
}

/// The cells which the outputs of an operation define.
pub open spec fn output_cells<V>(opid: Opid, outputs: Seq<V>) -> Map<CellAddr, V> {
    Map::new(
        |addr: CellAddr| addr.opid == opid && addr.pos < outputs.len(),
        |addr: CellAddr| outputs[addr.pos as int],
    )
}

/// The tokens of authority after the outputs of an operation claimed theirs; a token goes to the
/// last output which claims it.
pub open spec fn claimed(
    auth: Map<AuthToken, CellAddr>,
    opid: Opid,
    outputs: Seq<StateCell>,
) -> Map<AuthToken, CellAddr>
    decreases outputs.len(),
{
    if outputs.len() == 0 {
        auth
    } else {
        claimed(auth, opid, outputs.drop_last()).insert(
            outputs.last().auth,
            CellAddr { opid, pos: (outputs.len() - 1) as u16 },
        )
    }
}

impl RawView {
    /// A state without cells.
    pub open spec fn empty() -> RawView {
        RawView { auth: Map::empty(), global: Map::empty(), owned: Map::empty() }
    }

    /// The maps of the state are in their limits.
    pub open spec fn well_formed(self) -> bool {
        &&& self.auth.dom().finite() && self.auth.len() <= MAX_STATE
        &&& self.global.dom().finite() && self.global.len() <= MAX_STATE
        &&& self.owned.dom().finite() && self.owned.len() <= MAX_STATE
    }

    /// The owned cells without the inputs of an operation.
    pub open spec fn owned_left(self, op: OperationView) -> Map<CellAddr, StateCell> {
        self.owned.remove_keys(input_addrs(op.destructible_in))
    }

    /// The tokens of authority without those of the inputs of an operation.
    pub open spec fn auth_left(self, op: OperationView) -> Map<AuthToken, CellAddr> {
        self.auth.remove_keys(input_tokens(self.owned, op.destructible_in))
    }

    /// The state after an operation: the cells it destroys are gone, and its outputs are there.
    pub open spec fn applied(self, opid: Opid, op: OperationView) -> RawView {
        RawView {
            auth: claimed(self.auth_left(op), opid, op.destructible_out),
            global: self.global.union_prefer_right(output_cells(opid, op.immutable_out)),
            owned: self.owned_left(op).union_prefer_right(output_cells(opid, op.destructible_out)),
        }
    }

    /// The transition of an operation: it keeps the destroyed cells.
    pub open spec fn transition(self, opid: Opid, op: OperationView) -> TransitionView {
        TransitionView { opid, destroyed: self.owned.restrict(input_addrs(op.destructible_in)) }
    }

    /// The cells which the operation destroys, as far as they are there.
    pub open spec fn taken_by(self, op: OperationView) -> Map<CellAddr, StateCell> {
        self.owned.restrict(input_addrs(op.destructible_in))
    }

    /// The cells which the operation reads, as far as they are there.
    pub open spec fn read_by(self, op: OperationView) -> Map<CellAddr, StateData> {
        self.global.restrict(op.immutable_in.to_set())
    }

    /// Every cell which the operation destroys is there.
    pub open spec fn has_inputs(self, op: OperationView) -> bool {
        forall|i: int|
            0 <= i < op.destructible_in.len() ==> self.owned.contains_key(
                (#[trigger] op.destructible_in[i]).addr,
            )
    }

    /// The state has place for the outputs of an operation.
    pub open spec fn has_room(self, opid: Opid, op: OperationView) -> bool {
        &&& forall|k: int|
            0 <= k < op.destructible_out.len() ==> #[trigger] claimed(
                self.auth_left(op),
                opid,
                op.destructible_out.take(k),
            ).len() < MAX_STATE
        &&& forall|k: int|
            0 <= k < op.destructible_out.len() ==> self.owned_left(op).union_prefer_right(
                #[trigger] output_cells(opid, op.destructible_out.take(k)),
            ).len() < MAX_STATE
        &&& forall|k: int|
            0 <= k < op.immutable_out.len() ==> self.global.union_prefer_right(
                #[trigger] output_cells(opid, op.immutable_out.take(k)),
            ).len() < MAX_STATE
    }

    /// The state after a transition was taken back: the outputs of the operation are gone, and the
    /// destroyed cells are there again. The tokens of authority stay as they are.
    pub open spec fn rolled_back(self, transition: TransitionView) -> RawView {
        RawView {
            auth: self.auth,
            global: without_outputs(self.global, transition.opid),
            owned: without_outputs(self.owned, transition.opid).union_prefer_right(
                transition.destroyed,
            ),
        }
    }

    /// The state has place for the cells which a transition has destroyed.
    pub open spec fn has_room_back(self, transition: TransitionView) -> bool {
        without_outputs(self.owned, transition.opid).len() + transition.destroyed.len() <= MAX_STATE
    }
}

impl OperationView {
    /// No cell is destroyed twice.
    pub open spec fn distinct_inputs(self) -> bool {
        forall|i: int, j: int|
            0 <= i < j < self.destructible_in.len() ==> (#[trigger] self.destructible_in[i]).addr != (
            #[trigger] self.destructible_in[j]).addr
    }
}

/// Operation verified against the codex, with its id.
#[derive(Debug)]
pub struct VerifiedOperation {
    pub opid: Opid,
    pub operation: Operation,
}

impl VerifiedOperation {
    /// The id is that of the operation.
    pub open spec fn well_formed(self) -> bool {
        self.operation@.well_formed() && self.opid == committed_opid(self.operation@)
    }
}

/// Memory access of the codex.
impl Memory for RawState {
    fn destructible(&self, addr: UltraAddr) -> (r: Option<UltraCell>)
        ensures
            match r {
                Some(cell) => {
                    &&& self@.owned.contains_key(addr_content(addr))
                    &&& self@.owned[addr_content(addr)] == cell_content(cell)
                },
                None => !self@.owned.contains_key(addr_content(addr)),
            },
    {
        match self.owned.get(plain_addr(addr)) {
            Some(cell) => Some(ultra_cell(cell)),
            None => None,
        }
    }

    fn immutable(&self, addr: UltraAddr) -> (r: Option<StateValue>)
        ensures
            match r {
                Some(value) => {
                    &&& self@.global.contains_key(addr_content(addr))
                    &&& data_value(self@.global[addr_content(addr)]) == value
                },
                None => !self@.global.contains_key(addr_content(addr)),
            },
    {
        match self.global.get(plain_addr(addr)) {
            Some(data) => Some(value_of(data)),
            None => None,
        }
    }
}

impl RawState {
    /// A state without cells.
    pub fn new() -> (r: RawState)
        ensures
            r@ == RawView::empty(),
            r@.well_formed(),
    {
        RawState { auth: AuthMap::new(), global: GlobalMap::new(), owned: OwnedMap::new() }
    }

    /// A state with the given tokens of authority and cells.
    pub fn with(
        auth: &Vec<(AuthToken, CellAddr)>,
        global: &Vec<(CellAddr, StateData)>,
        owned: &Vec<(CellAddr, StateCell)>,
    ) -> (r: RawState)
        requires
            auth@.len() <= MAX_STATE,
            global@.len() <= MAX_STATE,
            owned@.len() <= MAX_STATE,
        ensures
            r@.well_formed(),
            r@ == (RawView {
                auth: entered(Map::empty(), auth@),
                global: entered(Map::empty(), global@),
                owned: entered(Map::empty(), owned@),
            }),
    {
        let mut r = RawState::new();
        let mut i: usize = 0;
        assert(auth@.take(0) =~= Seq::empty());
        while i < auth.len()
            invariant
                i <= auth@.len() <= MAX_STATE,
                r@ == (RawView { auth: r@.auth, ..RawView::empty() }),
                r@.auth.dom().finite() && r@.auth.len() <= i,
                r@.auth == entered(Map::empty(), auth@.take(i as int)),
            decreases auth@.len() - i,
        {
            r.auth.insert(auth[i].0, auth[i].1);
            assert(auth@.take(i + 1).drop_last() =~= auth@.take(i as int));
            i = i + 1;
        }
        assert(auth@.take(auth@.len() as int) =~= auth@);
        let ghost tokens = r@.auth;
        let mut j: usize = 0;
        assert(global@.take(0) =~= Seq::empty());
        while j < global.len()
            invariant
                j <= global@.len() <= MAX_STATE,
                r@ == (RawView { auth: tokens, global: r@.global, ..RawView::empty() }),
                r@.global.dom().finite() && r@.global.len() <= j,
                r@.global == entered(Map::empty(), global@.take(j as int)),
            decreases global@.len() - j,
        {
            r.global.insert(global[j].0, clone_data(&global[j].1));
            assert(global@.take(j + 1).drop_last() =~= global@.take(j as int));
            j = j + 1;
        }
        assert(global@.take(global@.len() as int) =~= global@);
        let ghost data = r@.global;
        let mut k: usize = 0;
        assert(owned@.take(0) =~= Seq::empty());
        while k < owned.len()
            invariant
                k <= owned@.len() <= MAX_STATE,
                r@ == (RawView { auth: tokens, global: data, owned: r@.owned }),
                r@.owned.dom().finite() && r@.owned.len() <= k,
                r@.owned == entered(Map::empty(), owned@.take(k as int)),
            decreases owned@.len() - k,
        {
            r.owned.insert(owned[k].0, owned[k].1);
            assert(owned@.take(k + 1).drop_last() =~= owned@.take(k as int));
            k = k + 1;
        }
        assert(owned@.take(owned@.len() as int) =~= owned@);
        r
    }

    /// The tokens of authority and the cells they control, in the order of the tokens.
    pub fn tokens(&self) -> (r: Vec<(AuthToken, CellAddr)>)
        ensures
            lists_tokens(r@, self@.auth),
    {
        self.auth.entries()
    }

    /// The immutable cells, in the order of their addresses.
    pub fn global_cells(&self) -> (r: Vec<(CellAddr, StateData)>)
        ensures
            lists(r@, self@.global),
    {
        self.global.entries()
    }

    /// The owned cells, in the order of their addresses.
    pub fn owned_cells(&self) -> (r: Vec<(CellAddr, StateCell)>)
        ensures
            lists(r@, self@.owned),
    {
        self.owned.entries()
    }

    /// The address of the cell which a token of authority controls.
    pub fn addr(&self, auth: AuthToken) -> (r: CellAddr)
        requires
            self@.auth.contains_key(auth),
        ensures
            r == self@.auth[auth],
    {
        self.auth.get(auth).unwrap()
    }

    /// Destroys the inputs of an operation.
    fn spend(&mut self, op: &Operation, transition: &mut Transition)
        requires
            old(self)@.well_formed(),
            op@.well_formed(),
            op@.distinct_inputs(),
            old(self)@.has_inputs(op@),
            old(transition)@.destroyed == Map::<CellAddr, StateCell>::empty(),
        ensures
            final(self)@.auth == old(self)@.auth_left(op@),
            final(self)@.owned == old(self)@.owned_left(op@),
            final(self)@.global == old(self)@.global,
            final(self)@.well_formed(),
            final(transition)@ == old(self)@.transition(old(transition).opid, op@),
    {
        let ghost before = self@;
        let ghost inputs = op.destructible_in@;
        let mut i: usize = 0;
        proof {
            assert(before.owned.remove_keys(input_addrs(inputs.take(0))) =~= before.owned);
            assert(before.auth.remove_keys(input_tokens(before.owned, inputs.take(0))) =~= before.auth);
            assert(before.owned.restrict(input_addrs(inputs.take(0))) =~= Map::empty());
        }
        while i < op.destructible_in.len()
            invariant
                i <= inputs.len(),
                inputs == op.destructible_in@,
                inputs == op@.destructible_in,
                op@.well_formed(),
                op@.distinct_inputs(),
                before.has_inputs(op@),
                before.well_formed(),
                self@.well_formed(),
                self@.global == before.global,
                self@.owned == before.owned.remove_keys(input_addrs(inputs.take(i as int))),
                self@.auth == before.auth.remove_keys(
                    input_tokens(before.owned, inputs.take(i as int)),
                ),
                transition.opid == old(transition).opid,
                transition@.destroyed == before.owned.restrict(input_addrs(inputs.take(i as int))),
                transition@.destroyed.dom().finite(),
                transition@.destroyed.len() <= i,
            decreases inputs.len() - i,
        {
            let addr = op.destructible_in[i].addr;
            proof {
                assert(!input_addrs(inputs.take(i as int)).contains(addr)) by {
                    if input_addrs(inputs.take(i as int)).contains(addr) {
                        let k = choose|k: int|
                            0 <= k < i && (#[trigger] inputs.take(i as int)[k]).addr == addr;
                        assert(inputs[k].addr == inputs[i as int].addr);
                    }
                }
                assert(self@.owned.contains_key(addr));
                lemma_addrs_step(inputs, i as int);
                lemma_tokens_step(before.owned, inputs, i as int);
            }
            let cell = self.owned.remove(addr).unwrap();
            self.auth.remove(cell.auth);
            transition.destroyed.insert(addr, cell);
            proof {
                let next = inputs.take(i + 1);
                assert(self@.owned =~= before.owned.remove_keys(input_addrs(next)));
                assert(self@.auth =~= before.auth.remove_keys(input_tokens(before.owned, next)));
                assert(transition@.destroyed =~= before.owned.restrict(input_addrs(next)));
                lemma_fewer(before.owned, input_addrs(next));
                lemma_fewer(before.auth, input_tokens(before.owned, next));
            }
            i = i + 1;
        }
        assert(inputs.take(inputs.len() as int) =~= inputs);
    }

    /// Defines the outputs of an operation.
    fn define(&mut self, opid: Opid, op: &Operation)
        requires
            old(self)@.well_formed(),
            op@.well_formed(),
            forall|k: int|
                0 <= k < op@.destructible_out.len() ==> #[trigger] claimed(
                    old(self)@.auth,
                    opid,
                    op@.destructible_out.take(k),
                ).len() < MAX_STATE,
            forall|k: int|
                0 <= k < op@.destructible_out.len() ==> old(self)@.owned.union_prefer_right(
                    #[trigger] output_cells(opid, op@.destructible_out.take(k)),
                ).len() < MAX_STATE,
            forall|k: int|
                0 <= k < op@.immutable_out.len() ==> old(self)@.global.union_prefer_right(
                    #[trigger] output_cells(opid, op@.immutable_out.take(k)),
                ).len() < MAX_STATE,
        ensures
            final(self)@.well_formed(),
            final(self)@.auth == claimed(old(self)@.auth, opid, op@.destructible_out),
            final(self)@.owned == old(self)@.owned.union_prefer_right(
                output_cells(opid, op@.destructible_out),
            ),
            final(self)@.global == old(self)@.global.union_prefer_right(
                output_cells(opid, op@.immutable_out),
            ),
    {
        let ghost before = self@;
        let ghost outs = op@.destructible_out;
        let ghost data = op@.immutable_out;
        let mut i: usize = 0;
        proof {
            assert(before.owned.union_prefer_right(output_cells(opid, outs.take(0)))
                =~= before.owned);
            assert(before.global.union_prefer_right(output_cells(opid, data.take(0)))
                =~= before.global);
            assert(outs.take(0) =~= Seq::empty());
        }
        while i < op.destructible_out.len()
            invariant
                i <= outs.len(),
                outs == op@.destructible_out,
                outs == op.destructible_out@,
                op@.well_formed(),
                self@.well_formed(),
                self@.global == before.global,
                self@.auth == claimed(before.auth, opid, outs.take(i as int)),
                self@.owned == before.owned.union_prefer_right(
                    output_cells(opid, outs.take(i as int)),
                ),
                forall|k: int|
                    0 <= k < outs.len() ==> #[trigger] claimed(
                        before.auth,
                        opid,
                        outs.take(k),
                    ).len() < MAX_STATE,
                forall|k: int|
                    0 <= k < outs.len() ==> before.owned.union_prefer_right(
                        #[trigger] output_cells(opid, outs.take(k)),
                    ).len() < MAX_STATE,
            decreases outs.len() - i,
        {
            let cell = op.destructible_out[i];
            let addr = CellAddr::new(opid, i as u16);
            self.auth.insert(cell.auth, addr);
            self.owned.insert(addr, cell);
            proof {
                let next = outs.take(i + 1);
                assert(next.drop_last() =~= outs.take(i as int));
                assert(next.last() == cell);
                assert(self@.owned =~= before.owned.union_prefer_right(output_cells(opid, next)));
            }
            i = i + 1;
        }
        assert(outs.take(outs.len() as int) =~= outs);
        let mut j: usize = 0;
        while j < op.immutable_out.len()
            invariant
                j <= data.len(),
                data == op@.immutable_out,
                data == op.immutable_out@,
                op@.well_formed(),
                self@.well_formed(),
                self@.auth == claimed(before.auth, opid, outs),
                self@.owned == before.owned.union_prefer_right(output_cells(opid, outs)),
                self@.global == before.global.union_prefer_right(
                    output_cells(opid, data.take(j as int)),
                ),
                forall|k: int|
                    0 <= k < data.len() ==> before.global.union_prefer_right(
                        #[trigger] output_cells(opid, data.take(k)),
                    ).len() < MAX_STATE,
            decreases data.len() - j,
        {
            let addr = CellAddr::new(opid, j as u16);
            self.global.insert(addr, clone_data(&op.immutable_out[j]));
            proof {
                let next = data.take(j + 1);
                assert(next.drop_last() =~= data.take(j as int));
                assert(self@.global =~= before.global.union_prefer_right(output_cells(opid, next)));
            }
            j = j + 1;
        }
        assert(data.take(data.len() as int) =~= data);
    }

    /// Applies an operation.
    pub fn apply(&mut self, op: &VerifiedOperation) -> (r: Transition)
        requires
            old(self)@.well_formed(),
            op.well_formed(),
            op.operation@.distinct_inputs(),
            old(self)@.has_inputs(op.operation@),
            old(self)@.has_room(op.opid, op.operation@),
        ensures
            final(self)@ == old(self)@.applied(op.opid, op.operation@),
            final(self)@.well_formed(),
            r@ == old(self)@.transition(op.opid, op.operation@),
            r@.well_formed(),
    {
        let mut transition = Transition::new(op.opid);
        self.spend(&op.operation, &mut transition);
        self.define(op.opid, &op.operation);
        proof {
            lemma_few_inputs(op.operation@.destructible_in);
            let addrs = input_addrs(op.operation@.destructible_in);
            vstd::set_lib::lemma_len_subset(transition@.destroyed.dom(), addrs);
        }
        transition
    }

    /// Takes a transition back.
    pub fn rollback(&mut self, transition: Transition)
        requires
            old(self)@.well_formed(),
            transition@.well_formed(),
            old(self)@.has_room_back(transition@),
        ensures
            final(self)@ == old(self)@.rolled_back(transition@),
            final(self)@.well_formed(),
    {
        let ghost before = self@;
        let opid = transition.opid;
        self.global.remove_outputs(opid);
        self.owned.remove_outputs(opid);
        let cells = transition.destroyed.entries();
        let ghost left = without_outputs(before.owned, opid);
        let ghost destroyed = transition@.destroyed;
        let mut i: usize = 0;
        proof {
            lemma_kept(before.global, Set::new(|addr: CellAddr| addr.opid != opid));
            lemma_kept(before.owned, Set::new(|addr: CellAddr| addr.opid != opid));
            assert(left.union_prefer_right(listed(cells@, destroyed, 0)) =~= left);
            lemma_listed(cells@, destroyed);
        }
        while i < cells.len()
            invariant
                i <= cells@.len(),
                cells@.len() == destroyed.len(),
                lists(cells@, destroyed),
                left.dom().finite(),
                left.len() + destroyed.len() <= MAX_STATE,
                self@.auth == before.auth,
                self@.global == without_outputs(before.global, opid),
                self@.auth.dom().finite() && self@.auth.len() <= MAX_STATE,
                self@.global.dom().finite() && self@.global.len() <= MAX_STATE,
                self@.owned.dom().finite(),
                self@.owned.len() <= left.len() + i,
                self@.owned == left.union_prefer_right(listed(cells@, destroyed, i as int)),
            decreases cells@.len() - i,
        {
            let (addr, cell) = cells[i];
            self.owned.insert(addr, cell);
            proof {
                assert(destroyed.contains_key(cells@[i as int].0));
                assert(self@.owned =~= left.union_prefer_right(
                    listed(cells@, destroyed, i + 1),
                ));
            }
            i = i + 1;
        }
        assert(listed(cells@, destroyed, cells@.len() as int) =~= destroyed);
    }
}

/// The entries of a map which stand in the first places of a list.
spec fn listed<V>(list: Seq<(CellAddr, V)>, map: Map<CellAddr, V>, n: int) -> Map<CellAddr, V> {
    map.restrict(
        Set::new(
            |addr: CellAddr|
                exists|i: int| 0 <= i < n && i < list.len() && (#[trigger] list[i]).0 == addr,
        ),
    )
}

/// A list of the entries of a map is as long as the map is large.
pub proof fn lemma_listed<V>(list: Seq<(CellAddr, V)>, map: Map<CellAddr, V>)
    requires
        lists(list, map),
    ensures
        list.len() == map.len(),
        map.dom().finite(),
{
    let addrs = list.map_values(|entry: (CellAddr, V)| entry.0);
    assert(addrs.no_duplicates()) by {
        assert forall|i: int, j: int|
            0 <= i < addrs.len() && 0 <= j < addrs.len() && i != j implies addrs[i] != addrs[j] by {
            if i < j {
                assert(list[i].0.precedes(list[j].0));
            } else {
                assert(list[j].0.precedes(list[i].0));
            }
        }
    }
    addrs.unique_seq_to_set();
    assert(addrs.to_set() =~= map.dom()) by {
        assert forall|addr: CellAddr| map.contains_key(addr) implies addrs.contains(addr) by {
            let i = choose|i: int| 0 <= i < list.len() && (#[trigger] list[i]).0 == addr;
            assert(addrs[i] == addr);
        }
        assert forall|addr: CellAddr| addrs.contains(addr) implies map.contains_key(addr) by {
            let i = choose|i: int| 0 <= i < addrs.len() && addrs[i] == addr;
            assert(map.contains_key(list[i].0));
        }
    }
}

/// A part of a map is not larger than the map.
proof fn lemma_fewer<K, V>(map: Map<K, V>, gone: Set<K>)
    requires
        map.dom().finite(),
    ensures
        map.remove_keys(gone).dom().finite(),
        map.remove_keys(gone).len() <= map.len(),
{
    let part = map.remove_keys(gone).dom();
    assert(part.subset_of(map.dom()));
    vstd::set_lib::lemma_len_subset(part, map.dom());
}

/// A part of a map is not larger than the map.
proof fn lemma_kept<K, V>(map: Map<K, V>, kept: Set<K>)
    requires
        map.dom().finite(),
    ensures
        map.restrict(kept).dom().finite(),
        map.restrict(kept).len() <= map.len(),
{
    let part = map.restrict(kept).dom();
    assert(part.subset_of(map.dom()));
    vstd::set_lib::lemma_len_subset(part, map.dom());
}

/// One more input adds its address.
pub proof fn lemma_addrs_step(inputs: Seq<Input>, i: int)
    requires
        0 <= i < inputs.len(),
    ensures
        input_addrs(inputs.take(i + 1)) == input_addrs(inputs.take(i)).insert(inputs[i].addr),
{
    let less = inputs.take(i);
    let more = inputs.take(i + 1);
    assert forall|addr: CellAddr|
        input_addrs(more).contains(addr) == input_addrs(less).insert(inputs[i].addr).contains(addr) by {
        if input_addrs(more).contains(addr) {
            let k = choose|k: int| 0 <= k < more.len() && (#[trigger] more[k]).addr == addr;
            if k < i {
                assert(less[k].addr == addr);
            }
        }
        if input_addrs(less).contains(addr) {
            let k = choose|k: int| 0 <= k < less.len() && (#[trigger] less[k]).addr == addr;
            assert(more[k].addr == addr);
        }
        assert(more[i].addr == inputs[i].addr);
    }
    assert(input_addrs(more) =~= input_addrs(less).insert(inputs[i].addr));
}

/// One more input adds its token.
proof fn lemma_tokens_step(owned: Map<CellAddr, StateCell>, inputs: Seq<Input>, i: int)
    requires
        0 <= i < inputs.len(),
    ensures
        input_tokens(owned, inputs.take(i + 1)) == input_tokens(owned, inputs.take(i)).insert(
            owned[inputs[i].addr].auth,
        ),
{
    let less = inputs.take(i);
    let more = inputs.take(i + 1);
    let token = owned[inputs[i].addr].auth;
    assert forall|t: AuthToken|
        input_tokens(owned, more).contains(t) == input_tokens(owned, less).insert(token).contains(t) by {
        if input_tokens(owned, more).contains(t) {
            let k = choose|k: int|
                0 <= k < more.len() && owned[(#[trigger] more[k]).addr].auth == t;
            if k < i {
                assert(owned[less[k].addr].auth == t);
            }
        }
        if input_tokens(owned, less).contains(t) {
            let k = choose|k: int|
                0 <= k < less.len() && owned[(#[trigger] less[k]).addr].auth == t;
            assert(owned[more[k].addr].auth == t);
        }
        assert(owned[more[i].addr].auth == token);
    }
    assert(input_tokens(owned, more) =~= input_tokens(owned, less).insert(token));
}

/// There are no more addresses than inputs.
pub proof fn lemma_few_inputs(inputs: Seq<Input>)
    ensures
        input_addrs(inputs).finite(),
        input_addrs(inputs).len() <= inputs.len(),
    decreases inputs.len(),
{
    if inputs.len() == 0 {
        assert(input_addrs(inputs) =~= Set::empty());
    } else {
        let i = inputs.len() - 1;
        lemma_few_inputs(inputs.take(i));
        lemma_addrs_step(inputs, i);
        assert(inputs.take(i + 1) =~= inputs);
    }
}

/// No cell of the state is an output of the given operation.
pub open spec fn fresh(raw: RawView, opid: Opid) -> bool {
    &&& forall|addr: CellAddr| #[trigger] raw.owned.contains_key(addr) ==> addr.opid != opid
    &&& forall|addr: CellAddr| #[trigger] raw.global.contains_key(addr) ==> addr.opid != opid
}

/// The tokens of authority lead to the cells which hold them, and every cell is found by its token.
pub open spec fn mirrored(raw: RawView) -> bool {
    &&& forall|addr: CellAddr| #[trigger]
        raw.owned.contains_key(addr) ==> raw.auth.contains_key(raw.owned[addr].auth)
            && raw.auth[raw.owned[addr].auth] == addr
    &&& forall|token: AuthToken| #[trigger]
        raw.auth.contains_key(token) ==> raw.owned.contains_key(raw.auth[token])
            && raw.owned[raw.auth[token]].auth == token
}

/// The outputs have different tokens of authority, and none of them is held by a cell which is left.
pub open spec fn brings_new_tokens(raw: RawView, op: OperationView) -> bool {
    &&& forall|i: int, j: int|
        0 <= i < j < op.destructible_out.len() ==> (#[trigger] op.destructible_out[i]).auth != (
        #[trigger] op.destructible_out[j]).auth
    &&& forall|i: int, addr: CellAddr|
        #![trigger op.destructible_out[i], raw.owned_left(op).contains_key(addr)]
        0 <= i < op.destructible_out.len() && raw.owned_left(op).contains_key(addr)
            ==> op.destructible_out[i].auth != raw.owned[addr].auth
}

/// Where the tokens of the outputs differ from each other, each of them leads to its output, and the
/// other tokens lead where they did.
proof fn lemma_claimed_apart(
    auth: Map<AuthToken, CellAddr>,
    opid: Opid,
    outputs: Seq<StateCell>,
    token: AuthToken,
)
    requires
        outputs.len() <= 65535,
        forall|i: int, j: int|
            0 <= i < j < outputs.len() ==> (#[trigger] outputs[i]).auth != (
            #[trigger] outputs[j]).auth,
    ensures
        forall|i: int|
            0 <= i < outputs.len() && (#[trigger] outputs[i]).auth == token ==> claimed(
                auth,
                opid,
                outputs,
            ).contains_key(token) && claimed(auth, opid, outputs)[token] == (CellAddr {
                opid,
                pos: i as u16,
            }),
        (forall|i: int| 0 <= i < outputs.len() ==> (#[trigger] outputs[i]).auth != token) ==> claimed(
            auth,
            opid,
            outputs,
        ).contains_key(token) == auth.contains_key(token) && claimed(auth, opid, outputs)[token]
            == auth[token],
    decreases outputs.len(),
{
    if outputs.len() > 0 {
        let less = outputs.drop_last();
        let n = outputs.len() - 1;
        assert forall|i: int, j: int| 0 <= i < j < less.len() implies (#[trigger] less[i]).auth != (
        #[trigger] less[j]).auth by {
            assert(outputs[i].auth != outputs[j].auth);
        }
        lemma_claimed_apart(auth, opid, less, token);
        assert forall|i: int| 0 <= i < outputs.len() && (#[trigger] outputs[i]).auth == token implies claimed(
            auth,
            opid,
            outputs,
        ).contains_key(token) && claimed(auth, opid, outputs)[token] == (CellAddr {
            opid,
            pos: i as u16,
        }) by {
            if i < n {
                assert(less[i].auth == token);
                assert(outputs[i].auth != outputs[n].auth);
            }
        }
        if forall|i: int| 0 <= i < outputs.len() ==> (#[trigger] outputs[i]).auth != token {
            assert forall|i: int| 0 <= i < less.len() implies (#[trigger] less[i]).auth != token by {
                assert(outputs[i].auth != token);
            }
            assert(outputs[n].auth != token);
        }
    }
}

/// The tokens of authority keep mirroring the owned cells when an operation is applied, the outputs
/// of which bring tokens of their own.
pub proof fn law_apply_keeps_tokens_mirrored(raw: RawView, opid: Opid, op: OperationView)
    requires
        mirrored(raw),
        op.well_formed(),
        raw.has_inputs(op),
        fresh(raw, opid),
        brings_new_tokens(raw, op),
    ensures
        mirrored(raw.applied(opid, op)),
{
    let after = raw.applied(opid, op);
    let left = raw.auth_left(op);
    let outs = op.destructible_out;
    let gone = input_addrs(op.destructible_in);
    assert forall|addr: CellAddr| #[trigger] after.owned.contains_key(addr) implies after.auth.contains_key(
        after.owned[addr].auth,
    ) && after.auth[after.owned[addr].auth] == addr by {
        let token = after.owned[addr].auth;
        lemma_claimed_apart(left, opid, outs, token);
        if addr.opid == opid {
            assert(outs[addr.pos as int].auth == token);
        } else {
            assert(raw.owned_left(op).contains_key(addr));
            assert(raw.owned.contains_key(addr));
            assert forall|i: int| 0 <= i < outs.len() implies (#[trigger] outs[i]).auth != token by {}
            if input_tokens(raw.owned, op.destructible_in).contains(token) {
                let i = choose|i: int|
                    0 <= i < op.destructible_in.len() && raw.owned[(
                    #[trigger] op.destructible_in[i]).addr].auth == token;
                let taken = op.destructible_in[i].addr;
                assert(raw.owned.contains_key(taken));
                assert(taken == addr);
                assert(gone.contains(addr));
            }
        }
    }
    assert forall|token: AuthToken| #[trigger] after.auth.contains_key(token) implies after.owned.contains_key(
        after.auth[token],
    ) && after.owned[after.auth[token]].auth == token by {
        lemma_claimed_apart(left, opid, outs, token);
        if exists|i: int| 0 <= i < outs.len() && (#[trigger] outs[i]).auth == token {
            let i = choose|i: int| 0 <= i < outs.len() && (#[trigger] outs[i]).auth == token;
            assert(after.auth[token] == CellAddr { opid, pos: i as u16 });
        } else {
            assert(left.contains_key(token) && raw.auth.contains_key(token));
            let addr = raw.auth[token];
            assert(raw.owned.contains_key(addr) && addr.opid != opid);
            if gone.contains(addr) {
                let i = choose|i: int|
                    0 <= i < op.destructible_in.len() && (#[trigger] op.destructible_in[i]).addr
                        == addr;
                assert(raw.owned[op.destructible_in[i].addr].auth == token);
                assert(input_tokens(raw.owned, op.destructible_in).contains(token));
            }
        }
    }
}

/// Taking back the transition of an operation restores all the memory cells.
pub proof fn law_rollback_undoes_apply(raw: RawView, opid: Opid, op: OperationView)
    requires
        raw.has_inputs(op),
        fresh(raw, opid),
    ensures
        raw.applied(opid, op).rolled_back(raw.transition(opid, op)).owned == raw.owned,
        raw.applied(opid, op).rolled_back(raw.transition(opid, op)).global == raw.global,
{
    let back = raw.applied(opid, op).rolled_back(raw.transition(opid, op));
    assert(back.owned =~= raw.owned);
    assert(back.global =~= raw.global);
}

/// An operation applied again after it was taken back gives the same state, the tokens of authority
/// with it.
pub proof fn law_apply_after_rollback(raw: RawView, opid: Opid, op: OperationView)
    requires
        raw.has_inputs(op),
        fresh(raw, opid),
    ensures
        raw.applied(opid, op).rolled_back(raw.transition(opid, op)).applied(opid, op) == raw.applied(
            opid,
            op,
        ),
{
    let once = raw.applied(opid, op);
    let back = once.rolled_back(raw.transition(opid, op));
    law_rollback_undoes_apply(raw, opid, op);
    let gone = input_tokens(raw.owned, op.destructible_in);
    let outs = op.destructible_out;
    lemma_claimed_again(raw.auth.remove_keys(gone), gone, opid, outs);
    assert(back.auth_left(op) == once.auth.remove_keys(gone));
}

/// Claiming the same tokens once more, after some others were taken out, changes nothing.
proof fn lemma_claimed_again(
    auth: Map<AuthToken, CellAddr>,
    gone: Set<AuthToken>,
    opid: Opid,
    outs: Seq<StateCell>,
)
    requires
        forall|t: AuthToken| #[trigger] auth.contains_key(t) ==> !gone.contains(t),
    ensures
        claimed(claimed(auth, opid, outs).remove_keys(gone), opid, outs) == claimed(auth, opid, outs),
{
    let once = claimed(auth, opid, outs);
    let base = once.remove_keys(gone);
    let again = claimed(base, opid, outs);
    assert forall|t: AuthToken| again.contains_key(t) == once.contains_key(t) by {
        lemma_claimed(auth, opid, outs, t);
        lemma_claimed(base, opid, outs, t);
    }
    assert forall|t: AuthToken| again.contains_key(t) implies again[t] == once[t] by {
        lemma_claimed(auth, opid, outs, t);
        lemma_claimed(base, opid, outs, t);
        lemma_claimed_value(auth, base, opid, outs, t);
    }
    assert(again =~= once);
}

/// An output claims a token.
spec fn claims(outs: Seq<StateCell>, token: AuthToken) -> bool {
    exists|k: int| 0 <= k < outs.len() && (#[trigger] outs[k]).auth == token
}

/// A token claimed by some of the outputs is claimed by the last one or by an earlier one.
proof fn lemma_claims(outs: Seq<StateCell>, t: AuthToken)
    requires
        outs.len() > 0,
    ensures
        claims(outs, t) <==> claims(outs.drop_last(), t) || t == outs.last().auth,
{
    let less = outs.drop_last();
    if claims(outs, t) {
        let k = choose|k: int| 0 <= k < outs.len() && (#[trigger] outs[k]).auth == t;
        if k < less.len() {
            assert(less[k].auth == t);
        }
    }
    if claims(less, t) {
        let k = choose|k: int| 0 <= k < less.len() && (#[trigger] less[k]).auth == t;
        assert(outs[k].auth == t);
    }
    assert(outs[outs.len() - 1].auth == outs.last().auth);
}

/// A claimed token is there; the other ones stay as they are.
proof fn lemma_claimed(
    auth: Map<AuthToken, CellAddr>,
    opid: Opid,
    outs: Seq<StateCell>,
    t: AuthToken,
)
    ensures
        claims(outs, t) ==> claimed(auth, opid, outs).contains_key(t),
        !claims(outs, t) ==> claimed(auth, opid, outs).contains_key(t) == auth.contains_key(t),
        !claims(outs, t) && auth.contains_key(t) ==> claimed(auth, opid, outs)[t] == auth[t],
    decreases outs.len(),
{
    if outs.len() > 0 {
        lemma_claimed(auth, opid, outs.drop_last(), t);
        lemma_claims(outs, t);
    }
}

/// What a claimed token addresses does not depend on what was there before.
proof fn lemma_claimed_value(
    one: Map<AuthToken, CellAddr>,
    other: Map<AuthToken, CellAddr>,
    opid: Opid,
    outs: Seq<StateCell>,
    t: AuthToken,
)
    ensures
        claims(outs, t) ==> claimed(one, opid, outs)[t] == claimed(other, opid, outs)[t],
    decreases outs.len(),
{
    if outs.len() > 0 {
        lemma_claimed_value(one, other, opid, outs.drop_last(), t);
        lemma_claims(outs, t);
        lemma_claimed(one, opid, outs.drop_last(), t);
        lemma_claimed(other, opid, outs.drop_last(), t);
    }
}

/// After an operation none of the cells it destroys is left, and each of its outputs is there.
pub proof fn law_apply_moves_cells(raw: RawView, opid: Opid, op: OperationView, addr: CellAddr)
    requires
        fresh(raw, opid),
        raw.has_inputs(op),
        op.well_formed(),
    ensures
        input_addrs(op.destructible_in).contains(addr) ==> !raw.applied(
            opid,
            op,
        ).owned.contains_key(addr),
        addr.opid == opid && addr.pos < op.destructible_out.len() ==> raw.applied(
            opid,
            op,
        ).owned.contains_key(addr) && raw.applied(opid, op).owned[addr]
            == op.destructible_out[addr.pos as int],
        addr.opid == opid && addr.pos < op.immutable_out.len() ==> raw.applied(
            opid,
            op,
        ).global.contains_key(addr) && raw.applied(opid, op).global[addr]
            == op.immutable_out[addr.pos as int],
        addr.opid != opid && !input_addrs(op.destructible_in).contains(addr) ==> (raw.applied(
            opid,
            op,
        ).owned.contains_key(addr) <==> raw.owned.contains_key(addr)),
{
    if input_addrs(op.destructible_in).contains(addr) {
        let i = choose|i: int|
            0 <= i < op.destructible_in.len() && (#[trigger] op.destructible_in[i]).addr == addr;
        assert(raw.owned.contains_key(op.destructible_in[i].addr));
    }
}

/// After a transition was taken back no output of its operation is left, unless the transition
/// itself had destroyed it.
pub proof fn law_rollback_removes_outputs(raw: RawView, transition: TransitionView, addr: CellAddr)
    requires
        addr.opid == transition.opid,
    ensures
        !raw.rolled_back(transition).global.contains_key(addr),
        raw.rolled_back(transition).owned.contains_key(addr) <==> transition.destroyed.contains_key(
            addr,
        ),
{
}

} // verus!
