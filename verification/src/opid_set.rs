//! Ordered set of operation ids.

use crate::types::{Opid, Operation};
use vstd::prelude::*;

verus! {

/// The ids stand in the ascending order.
pub open spec fn ascending(opids: Seq<Opid>) -> bool {
    forall|i: int, j: int|
        0 <= i < j < opids.len() ==> (#[trigger] opids[i]).precedes(#[trigger] opids[j])
}

/// There is one ascending order of the same ids.
pub proof fn lemma_ascending_unique(one: Seq<Opid>, other: Seq<Opid>)
    requires
        ascending(one),
        ascending(other),
        one.to_set() == other.to_set(),
    ensures
        one == other,
    decreases one.len(),
{
    if one.len() == 0 {
        if other.len() > 0 {
            assert(other.to_set().contains(other[0]));
            assert(one.contains(other[0]));
        }
    } else {
        assert(one.to_set().contains(one.last()));
        assert(other.contains(one.last()));
        assert(other.to_set().contains(other.last()));
        assert(one.contains(other.last()));
        let a = choose|a: int| 0 <= a < one.len() && one[a] == other.last();
        let b = choose|b: int| 0 <= b < other.len() && other[b] == one.last();
        if a < one.len() - 1 {
            assert(one[a].precedes(one[one.len() - 1]));
            if b < other.len() - 1 {
                assert(other[b].precedes(other[other.len() - 1]));
            }
        }
        assert(one.last() == other.last());
        let less = one.drop_last();
        let rest = other.drop_last();
        assert(less.to_set() =~= rest.to_set()) by {
            assert forall|x: Opid| less.contains(x) == rest.contains(x) by {
                if less.contains(x) {
                    let k = choose|k: int| 0 <= k < less.len() && less[k] == x;
                    assert(one[k].precedes(one[one.len() - 1]));
                    assert(one.to_set().contains(one[k]));
                    assert(other.contains(x));
                    let m = choose|m: int| 0 <= m < other.len() && other[m] == x;
                    assert(rest[m] == x);
                }
                if rest.contains(x) {
                    let k = choose|k: int| 0 <= k < rest.len() && rest[k] == x;
                    assert(other[k].precedes(other[other.len() - 1]));
                    assert(other.to_set().contains(other[k]));
                    assert(one.contains(x));
                    let m = choose|m: int| 0 <= m < one.len() && one[m] == x;
                    assert(less[m] == x);
                }
            }
        }
        lemma_ascending_unique(less, rest);
        assert(one =~= less.push(one.last()));
        assert(other =~= rest.push(other.last()));
    }
}

/// Set of operation ids, kept in their byte order.
#[derive(Debug)]
pub struct OpidSet {
    items: Vec<Opid>,
}

impl OpidSet {
    /// The ids of the set, in ascending order.
    pub closed spec fn seq(self) -> Seq<Opid> {
        self.items@
    }

    /// The ids are strictly ascending.
    pub open spec fn well_formed(self) -> bool {
        ascending(self.seq())
    }

    /// An empty set.
    pub fn new() -> (r: OpidSet)
        ensures
            r.well_formed(),
            r.seq() == Seq::<Opid>::empty(),
    {
        OpidSet { items: Vec::new() }
    }

    /// Number of ids in the set.
    pub fn len(&self) -> (r: usize)
        ensures
            r == self.seq().len(),
    {
        self.items.len()
    }

    /// The id at the given position of the ascending order.
    pub fn get(&self, index: usize) -> (r: Opid)
        requires
            index < self.seq().len(),
        ensures
            r == self.seq()[index as int],
    {
        self.items[index]
    }

    /// Adds an id.
    pub fn insert(&mut self, opid: Opid)
        requires
            old(self).well_formed(),
        ensures
            final(self).well_formed(),
            final(self).seq().to_set() =~= old(self).seq().to_set().insert(opid),
            old(self).seq().contains(opid) ==> final(self).seq() == old(self).seq(),
    {
        let ghost before = self.seq();
        let mut at: usize = 0;
        while at < self.items.len() && self.items[at].is_before(&opid)
            invariant
                at <= self.items.len(),
                self.items@ == before,
                forall|i: int| 0 <= i < at ==> (#[trigger] self.items@[i]).precedes(opid),
            decreases self.items.len() - at,
        {
            at = at + 1;
        }
        if at < self.items.len() && self.items[at] == opid {
            assert(before[at as int] == opid);
            assert(before.to_set().insert(opid) =~= before.to_set());
        } else {
            proof {
                if before.contains(opid) {
                    let k = choose|k: int| 0 <= k < before.len() && before[k] == opid;
                    assert(before[k] == opid);
                    assert(k > at);
                    assert(before[at as int].precedes(before[k]));
                    assert(false);
                }
            }
            self.items.insert(at, opid);
            assert(self.seq() == before.insert(at as int, opid));
            assert(self.seq().to_set() =~= before.to_set().insert(opid)) by {
                assert forall|x: Opid| self.seq().contains(x) implies before.to_set().insert(
                    opid,
                ).contains(x) by {
                    let k = choose|k: int| 0 <= k < self.seq().len() && self.seq()[k] == x;
                    if k < at {
                        assert(before[k] == x);
                    } else if k > at {
                        assert(before[k - 1] == x);
                    }
                }
                assert forall|x: Opid| before.to_set().insert(opid).contains(x) implies self.seq().contains(
                    x,
                ) by {
                    if x == opid {
                        assert(self.seq()[at as int] == x);
                    } else {
                        let k = choose|k: int| 0 <= k < before.len() && before[k] == x;
                        if k < at {
                            assert(self.seq()[k] == x);
                        } else {
                            assert(self.seq()[k + 1] == x);
                        }
                    }
                }
            }
            assert forall|i: int, j: int| 0 <= i < j < self.seq().len() implies (
            #[trigger] self.seq()[i]).precedes(#[trigger] self.seq()[j]) by {
                if at < before.len() {
                    assert(!before[at as int].precedes(opid) && before[at as int] != opid);
                    assert(opid.precedes(before[at as int]));
                }
                if i < at && j < at {
                    assert(before[i].precedes(before[j]));
                } else if i < at && j > at {
                    assert(before[i].precedes(before[j - 1]));
                } else if i > at {
                    assert(before[i - 1].precedes(before[j - 1]));
                } else if i == at && j > at {
                    if j - 1 > at {
                        assert(before[at as int].precedes(before[j - 1]));
                    }
                }
            }
        }
    }

    /// Removes an id, if it is there.
    pub fn remove(&mut self, opid: Opid)
        requires
            old(self).well_formed(),
        ensures
            final(self).well_formed(),
            final(self).seq().to_set() =~= old(self).seq().to_set().remove(opid),
    {
        let ghost before = self.seq();
        let mut at: usize = 0;
        while at < self.items.len() && self.items[at] != opid
            invariant
                at <= self.items.len(),
                self.items@ == before,
                forall|i: int| 0 <= i < at ==> #[trigger] self.items@[i] != opid,
            decreases self.items.len() - at,
        {
            at = at + 1;
        }
        if at < self.items.len() {
            let _gone = self.items.remove(at);
            assert(self.seq() == before.remove(at as int));
            assert(self.seq().to_set() =~= before.to_set().remove(opid)) by {
                assert forall|x: Opid| self.seq().contains(x) implies before.to_set().remove(
                    opid,
                ).contains(x) by {
                    let k = choose|k: int| 0 <= k < self.seq().len() && self.seq()[k] == x;
                    if k < at {
                        assert(before[k] == x);
                    } else {
                        assert(before[k + 1] == x);
                        assert(before[at as int].precedes(before[k + 1]));
                    }
                }
                assert forall|x: Opid| before.to_set().remove(opid).contains(x) implies self.seq().contains(
                    x,
                ) by {
                    let k = choose|k: int| 0 <= k < before.len() && before[k] == x;
                    if k < at {
                        assert(self.seq()[k] == x);
                    } else {
                        assert(self.seq()[k - 1] == x);
                    }
                }
            }
            assert forall|i: int, j: int| 0 <= i < j < self.seq().len() implies (
            #[trigger] self.seq()[i]).precedes(#[trigger] self.seq()[j]) by {
                let a = if i < at { i } else { i + 1 };
                let b = if j < at { j } else { j + 1 };
                assert(before[a].precedes(before[b]));
            }
        } else {
            assert(!before.to_set().contains(opid));
        }
    }
}

impl Operation {
    /// The operations whose cells this operation destroys or reads, in ascending order.
    pub fn parent_opids(&self) -> (r: OpidSet)
        ensures
            r.well_formed(),
            r.seq().to_set() =~= self@.parents(),
    {
        let mut set = OpidSet::new();
        let mut i: usize = 0;
        while i < self.destructible_in.len()
            invariant
                i <= self.destructible_in.len(),
                set.well_formed(),
                forall|p: Opid|
                    set.seq().to_set().contains(p) <==> exists|k: int|
                        0 <= k < i && (#[trigger] self.destructible_in@[k]).addr.opid == p,
            decreases self.destructible_in.len() - i,
        {
            set.insert(self.destructible_in[i].addr.opid);
            i = i + 1;
        }
        let mut j: usize = 0;
        while j < self.immutable_in.len()
            invariant
                j <= self.immutable_in.len(),
                set.well_formed(),
                forall|p: Opid|
                    set.seq().to_set().contains(p) <==> {
                        ||| exists|k: int|
                            0 <= k < self.destructible_in@.len() && (
                            #[trigger] self.destructible_in@[k]).addr.opid == p
                        ||| exists|k: int|
                            0 <= k < j && (#[trigger] self.immutable_in@[k]).opid == p
                    },
            decreases self.immutable_in.len() - j,
        {
            set.insert(self.immutable_in[j].opid);
            j = j + 1;
        }
        set
    }
}

} // verus!
