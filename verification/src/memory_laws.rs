//! What every operation makes of the memory, cell by cell and token by token.

use crate::accept::total_outputs;
use crate::cells::{lists, lists_tokens};
use crate::raw::{claimed, entered, input_addrs, input_tokens, RawView, TransitionView};
use crate::rollback::restorable;
use crate::types::{AuthToken, CellAddr, OperationView, Opid, StateCell};
use vstd::prelude::*;

verus! {

/// An operation destroys the cell.
pub open spec fn destroys(op: OperationView, addr: CellAddr) -> bool {
    exists|i: int| 0 <= i < op.destructible_in.len() && (#[trigger] op.destructible_in[i]).addr == addr
}

/// After an operation its outputs are in the memory, each of them under its own number; every other
/// cell stays what it was, unless the operation destroys it. Immutable cells are never destroyed.
pub proof fn law_operation_changes_its_own_cells(raw: RawView, opid: Opid, op: OperationView)
    requires
        op.well_formed(),
    ensures
        forall|no: u16|
            no < op.destructible_out.len() ==> {
                let addr = CellAddr { opid, pos: no };
                raw.applied(opid, op).owned.contains_key(addr) && raw.applied(opid, op).owned[addr]
                    == #[trigger] op.destructible_out[no as int]
            },
        forall|no: u16|
            no < op.immutable_out.len() ==> {
                let addr = CellAddr { opid, pos: no };
                raw.applied(opid, op).global.contains_key(addr) && raw.applied(
                    opid,
                    op,
                ).global[addr] == #[trigger] op.immutable_out[no as int]
            },
        forall|addr: CellAddr|
            addr.opid != opid || addr.pos >= op.destructible_out.len() ==> (
            #[trigger] raw.applied(opid, op).owned.contains_key(addr) <==> raw.owned.contains_key(
                addr,
            ) && !destroys(op, addr)),
        forall|addr: CellAddr|
            raw.applied(opid, op).owned.contains_key(addr) && (addr.opid != opid || addr.pos
                >= op.destructible_out.len()) ==> #[trigger] raw.applied(opid, op).owned[addr]
                == raw.owned[addr],
        forall|addr: CellAddr|
            addr.opid != opid || addr.pos >= op.immutable_out.len() ==> (#[trigger] raw.applied(
                opid,
                op,
            ).global.contains_key(addr) <==> raw.global.contains_key(addr)),
        forall|addr: CellAddr|
            raw.global.contains_key(addr) && (addr.opid != opid || addr.pos
                >= op.immutable_out.len()) ==> #[trigger] raw.applied(opid, op).global[addr]
                == raw.global[addr],
{
    let after = raw.applied(opid, op);
    assert forall|addr: CellAddr| #[trigger] input_addrs(op.destructible_in).contains(addr)
        <==> destroys(op, addr) by {}
    assert forall|addr: CellAddr|
        addr.opid != opid || addr.pos >= op.destructible_out.len() implies (
    #[trigger] after.owned.contains_key(addr) <==> raw.owned.contains_key(addr) && !destroys(
        op,
        addr,
    )) by {
        assert(input_addrs(op.destructible_in).contains(addr) <==> destroys(op, addr));
    }
}

/// The transition of an operation keeps each of the cells which the operation destroys, and no other.
pub proof fn law_transition_keeps_the_destroyed(raw: RawView, opid: Opid, op: OperationView)
    requires
        raw.has_inputs(op),
    ensures
        raw.transition(opid, op).opid == opid,
        forall|i: int|
            0 <= i < op.destructible_in.len() ==> raw.transition(opid, op).destroyed.contains_key(
                (#[trigger] op.destructible_in[i]).addr,
            ) && raw.transition(opid, op).destroyed[op.destructible_in[i].addr]
                == raw.owned[op.destructible_in[i].addr],
        forall|addr: CellAddr| #[trigger]
            raw.transition(opid, op).destroyed.contains_key(addr) ==> destroys(op, addr),
{
    assert forall|i: int| 0 <= i < op.destructible_in.len() implies raw.transition(
        opid,
        op,
    ).destroyed.contains_key((#[trigger] op.destructible_in[i]).addr) && raw.transition(
        opid,
        op,
    ).destroyed[op.destructible_in[i].addr] == raw.owned[op.destructible_in[i].addr] by {
        assert(input_addrs(op.destructible_in).contains(op.destructible_in[i].addr));
    }
}

/// Taking a transition back removes all the outputs of the operation, puts each destroyed cell back
/// with what was in it, and leaves the other cells and the tokens of authority as they are.
pub proof fn law_taking_back_changes_its_own_cells(raw: RawView, transition: TransitionView)
    ensures
        forall|addr: CellAddr| #[trigger]
            transition.destroyed.contains_key(addr) ==> raw.rolled_back(
                transition,
            ).owned.contains_key(addr) && raw.rolled_back(transition).owned[addr]
                == transition.destroyed[addr],
        forall|addr: CellAddr|
            !transition.destroyed.contains_key(addr) ==> (#[trigger] raw.rolled_back(
                transition,
            ).owned.contains_key(addr) <==> raw.owned.contains_key(addr) && addr.opid
                != transition.opid),
        forall|addr: CellAddr|
            !transition.destroyed.contains_key(addr) && raw.rolled_back(
                transition,
            ).owned.contains_key(addr) ==> #[trigger] raw.rolled_back(transition).owned[addr]
                == raw.owned[addr],
        forall|addr: CellAddr| #[trigger]
            raw.rolled_back(transition).global.contains_key(addr) <==> raw.global.contains_key(addr)
                && addr.opid != transition.opid,
        forall|addr: CellAddr|
            raw.rolled_back(transition).global.contains_key(addr) ==> #[trigger] raw.rolled_back(
                transition,
            ).global[addr] == raw.global[addr],
        raw.rolled_back(transition).auth == raw.auth,
{
}

/// An output with the given number is the last one which claims a token.
pub open spec fn claims_last(op: OperationView, no: int, token: AuthToken) -> bool {
    &&& 0 <= no < op.destructible_out.len()
    &&& op.destructible_out[no].auth == token
    &&& forall|k: int|
        no < k < op.destructible_out.len() ==> (#[trigger] op.destructible_out[k]).auth != token
}

/// No output claims a token.
pub open spec fn unclaimed(op: OperationView, token: AuthToken) -> bool {
    forall|k: int|
        0 <= k < op.destructible_out.len() ==> (#[trigger] op.destructible_out[k]).auth != token
}

/// A cell which an operation destroys holds the token.
pub open spec fn releases(raw: RawView, op: OperationView, token: AuthToken) -> bool {
    exists|i: int|
        0 <= i < op.destructible_in.len() && raw.owned[(
        #[trigger] op.destructible_in[i]).addr].auth == token
}

/// After an operation a token of authority leads to the last output which claims it. A token which no
/// output claims leads where it did, unless a cell which the operation destroys holds it: then it
/// leads nowhere.
pub proof fn law_operation_moves_tokens(raw: RawView, opid: Opid, op: OperationView)
    requires
        op.well_formed(),
    ensures
        forall|no: int, token: AuthToken| #[trigger]
            claims_last(op, no, token) ==> raw.applied(opid, op).auth.contains_key(token)
                && raw.applied(opid, op).auth[token] == (CellAddr { opid, pos: no as u16 }),
        forall|token: AuthToken|
            unclaimed(op, token) ==> (#[trigger] raw.applied(opid, op).auth.contains_key(token)
                <==> raw.auth.contains_key(token) && !releases(raw, op, token)),
        forall|token: AuthToken|
            unclaimed(op, token) && raw.applied(opid, op).auth.contains_key(token)
                ==> #[trigger] raw.applied(opid, op).auth[token] == raw.auth[token],
{
    let left = raw.auth_left(op);
    let outs = op.destructible_out;
    assert forall|no: int, token: AuthToken| #[trigger] claims_last(op, no, token) implies raw.applied(
        opid,
        op,
    ).auth.contains_key(token) && raw.applied(opid, op).auth[token] == (CellAddr {
        opid,
        pos: no as u16,
    }) by {
        lemma_claimed_last(left, opid, outs, no, token);
    }
    assert forall|token: AuthToken| unclaimed(op, token) implies (#[trigger] raw.applied(
        opid,
        op,
    ).auth.contains_key(token) <==> raw.auth.contains_key(token) && !releases(raw, op, token)) by {
        lemma_unclaimed(left, opid, outs, token);
        assert(input_tokens(raw.owned, op.destructible_in).contains(token) <==> releases(
            raw,
            op,
            token,
        ));
    }
    assert forall|token: AuthToken|
        unclaimed(op, token) && raw.applied(opid, op).auth.contains_key(token) implies
    #[trigger] raw.applied(opid, op).auth[token] == raw.auth[token] by {
        lemma_unclaimed(left, opid, outs, token);
    }
}

/// A token leads to the last output which claims it.
proof fn lemma_claimed_last(
    auth: Map<AuthToken, CellAddr>,
    opid: Opid,
    outs: Seq<StateCell>,
    no: int,
    token: AuthToken,
)
    requires
        outs.len() <= 65535,
        0 <= no < outs.len(),
        outs[no].auth == token,
        forall|k: int| no < k < outs.len() ==> (#[trigger] outs[k]).auth != token,
    ensures
        claimed(auth, opid, outs).contains_key(token),
        claimed(auth, opid, outs)[token] == (CellAddr { opid, pos: no as u16 }),
    decreases outs.len(),
{
    let n = outs.len() - 1;
    if no < n {
        assert(outs[n].auth != token);
        let less = outs.drop_last();
        assert forall|k: int| no < k < less.len() implies (#[trigger] less[k]).auth != token by {
            assert(outs[k].auth != token);
        }
        lemma_claimed_last(auth, opid, less, no, token);
    }
}

/// A token which no output claims stays where it is.
proof fn lemma_unclaimed(
    auth: Map<AuthToken, CellAddr>,
    opid: Opid,
    outs: Seq<StateCell>,
    token: AuthToken,
)
    requires
        forall|k: int| 0 <= k < outs.len() ==> (#[trigger] outs[k]).auth != token,
    ensures
        claimed(auth, opid, outs).contains_key(token) == auth.contains_key(token),
        claimed(auth, opid, outs)[token] == auth[token],
    decreases outs.len(),
{
    if outs.len() > 0 {
        let less = outs.drop_last();
        assert(outs[outs.len() - 1].auth != token);
        assert forall|k: int| 0 <= k < less.len() implies (#[trigger] less[k]).auth != token by {
            assert(outs[k].auth != token);
        }
        lemma_unclaimed(auth, opid, less, token);
    }
}

/// A map which was filled from a list holds every entry of the list, under a key which repeats the
/// last one; and nothing else but what was in it.
pub proof fn law_filled_map_holds_every_entry<K, V>(map: Map<K, V>, list: Seq<(K, V)>)
    ensures
        forall|i: int|
            0 <= i < list.len() ==> entered(map, list).contains_key((#[trigger] list[i]).0),
        forall|i: int|
            0 <= i < list.len() && (forall|j: int|
                i < j < list.len() ==> (#[trigger] list[j]).0 != list[i].0) ==> entered(
                map,
                list,
            )[(#[trigger] list[i]).0] == list[i].1,
        forall|key: K|
            (forall|i: int| 0 <= i < list.len() ==> (#[trigger] list[i]).0 != key) ==> (
            #[trigger] entered(map, list).contains_key(key) <==> map.contains_key(key)) && entered(
                map,
                list,
            )[key] == map[key],
    decreases list.len(),
{
    if list.len() > 0 {
        let less = list.drop_last();
        let n = list.len() - 1;
        law_filled_map_holds_every_entry(map, less);
        assert forall|i: int| 0 <= i < n implies less[i] == list[i] by {}
        assert forall|i: int| 0 <= i < list.len() implies entered(map, list).contains_key(
            (#[trigger] list[i]).0,
        ) by {
            if i < n {
                assert(less[i] == list[i]);
            }
        }
        assert forall|i: int|
            0 <= i < list.len() && (forall|j: int|
                i < j < list.len() ==> (#[trigger] list[j]).0 != list[i].0) implies entered(
            map,
            list,
        )[(#[trigger] list[i]).0] == list[i].1 by {
            if i < n {
                assert(list[n].0 != list[i].0);
                assert(less[i] == list[i]);
                assert forall|j: int| i < j < less.len() implies (#[trigger] less[j]).0
                    != less[i].0 by {
                    assert(list[j].0 != list[i].0);
                }
            }
        }
        assert forall|key: K|
            (forall|i: int| 0 <= i < list.len() ==> (#[trigger] list[i]).0 != key) implies (
        #[trigger] entered(map, list).contains_key(key) <==> map.contains_key(key)) && entered(
            map,
            list,
        )[key] == map[key] by {
            assert(list[n].0 != key);
            assert forall|i: int| 0 <= i < less.len() implies (#[trigger] less[i]).0 != key by {
                assert(list[i].0 != key);
            }
            assert(entered(map, less).contains_key(key) <==> map.contains_key(key));
        }
    }
}

/// Of the cells which an operation has destroyed those come back whose producers are valid, with what
/// was in them.
pub proof fn law_only_cells_of_valid_operations_come_back(
    destroyed: Map<CellAddr, StateCell>,
    valid: Set<Opid>,
)
    ensures
        forall|addr: CellAddr| #[trigger]
            restorable(destroyed, valid).contains_key(addr) <==> destroyed.contains_key(addr)
                && valid.contains(addr.opid),
        forall|addr: CellAddr|
            restorable(destroyed, valid).contains_key(addr) ==> #[trigger] restorable(
                destroyed,
                valid,
            )[addr] == destroyed[addr],
{
}

/// Outputs add up: those of two lists of operations are as many as those of the one and of the other,
/// and one operation counts with all its outputs.
pub proof fn law_outputs_add_up(one: Seq<OperationView>, other: Seq<OperationView>)
    ensures
        total_outputs(one + other).0 == total_outputs(one).0 + total_outputs(other).0,
        total_outputs(one + other).1 == total_outputs(one).1 + total_outputs(other).1,
        forall|op: OperationView|
            total_outputs(#[trigger] seq![op]) == (
                op.destructible_out.len(),
                op.immutable_out.len(),
            ),
    decreases other.len(),
{
    assert forall|op: OperationView| total_outputs(#[trigger] seq![op]) == (
        op.destructible_out.len(),
        op.immutable_out.len(),
    ) by {
        assert(seq![op].drop_last() =~= Seq::empty());
        assert(total_outputs(seq![op].drop_last()) == (0nat, 0nat));
        assert(seq![op].last() == op);
    }
    if other.len() == 0 {
        assert(one + other =~= one);
    } else {
        law_outputs_add_up(one, other.drop_last());
        assert((one + other).drop_last() =~= one + other.drop_last());
        assert((one + other).last() == other.last());
    }
}

/// The cells of a memory, listed and entered again, make the memory which they were listed from.
pub proof fn law_listed_cells_are_entered_again<V>(
    list: Seq<(CellAddr, V)>,
    map: Map<CellAddr, V>,
)
    requires
        lists(list, map),
    ensures
        entered(Map::empty(), list) == map,
        forall|i: int, j: int|
            0 <= i < j < list.len() ==> {
                let (one, other) = ((#[trigger] list[i]).0, (#[trigger] list[j]).0);
                one.opid.precedes(other.opid) || one.opid == other.opid && one.pos < other.pos
            },
{
    lemma_entered_again(list, map);
}

/// The tokens of a memory, listed and entered again, make the tokens which they were listed from.
pub proof fn law_listed_tokens_are_entered_again(
    list: Seq<(AuthToken, CellAddr)>,
    map: Map<AuthToken, CellAddr>,
)
    requires
        lists_tokens(list, map),
    ensures
        entered(Map::empty(), list) == map,
        forall|i: int, j: int|
            0 <= i < j < list.len() ==> {
                let (one, other) = ((#[trigger] list[i]).0, (#[trigger] list[j]).0);
                one.hi < other.hi || one.hi == other.hi && one.lo < other.lo
            },
{
    lemma_entered_again(list, map);
}

/// A map is filled from a list of its entries.
proof fn lemma_entered_again<K, V>(list: Seq<(K, V)>, map: Map<K, V>)
    requires
        forall|i: int, j: int|
            0 <= i < j < list.len() ==> (#[trigger] list[i]).0 != (#[trigger] list[j]).0,
        forall|i: int|
            0 <= i < list.len() ==> map.contains_key((#[trigger] list[i]).0) && map[list[i].0]
                == list[i].1,
        forall|key: K| #[trigger]
            map.contains_key(key) ==> exists|i: int|
                0 <= i < list.len() && (#[trigger] list[i]).0 == key,
    ensures
        entered(Map::empty(), list) == map,
{
    let filled = entered(Map::empty(), list);
    law_filled_map_holds_every_entry(Map::empty(), list);
    assert forall|key: K| map.contains_key(key) == #[trigger] filled.contains_key(key) by {
        if map.contains_key(key) {
            let i = choose|i: int| 0 <= i < list.len() && (#[trigger] list[i]).0 == key;
            assert(filled.contains_key(list[i].0));
        } else {
            assert forall|i: int| 0 <= i < list.len() implies (#[trigger] list[i]).0 != key by {}
        }
    }
    assert forall|key: K| #[trigger] map.contains_key(key) implies map[key] == filled[key] by {
        let i = choose|i: int| 0 <= i < list.len() && (#[trigger] list[i]).0 == key;
        assert(filled[list[i].0] == list[i].1);
    }
    assert(filled =~= map);
}

} // verus!
