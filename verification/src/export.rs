//! Selection and ordering of the operations for an export.

use crate::chain::{discovered, extended, lemma_followed};
use crate::opid_set::{ascending, lemma_ascending_unique};
use crate::types::{Operation, OperationView, Opid};
use crate::ultra::committed_opid;
use vstd::prelude::*;

verus! {

/// Content of an operation stash, in the order in which the persistence layer enumerates it.
pub type Stash = Seq<(Opid, OperationView)>;

/// The stash content behind a list of operations.
pub open spec fn stash_of(operations: Seq<(Opid, Operation)>) -> Stash {
    operations.map_values(|entry: (Opid, Operation)| (entry.0, entry.1@))
}

/// Errors which make an export impossible.
#[derive(Copy, Clone, PartialEq, Eq, Structural, Debug)]
pub enum ExportError {
    /// The key under which an operation is kept is not its id.
    KeyMismatch { stored: Opid, committed: Opid },
    /// Two operations are kept under one key.
    DuplicateOperation { opid: Opid },
    /// An operation which has to be exported is not in the stash.
    MissingOperation { opid: Opid },
    /// A parent of an exported operation is not in the stash.
    MissingParent { opid: Opid, parent: Opid },
    /// The exported operations depend on each other in a cycle.
    DependencyCycle,
    /// The number of operations does not fit 32 bits.
    TooManyOperations,
}

/// The stash holds an operation under the given key.
pub open spec fn holds(stash: Stash, opid: Opid) -> bool {
    exists|i: int| 0 <= i < stash.len() && (#[trigger] stash[i]).0 == opid
}

/// The first fault of the stash: a key which is not the id of its operation, or which repeats.
pub open spec fn stash_error(stash: Stash) -> Option<ExportError>
    decreases stash.len(),
{
    if stash.len() == 0 {
        None
    } else {
        let earlier = stash_error(stash.drop_last());
        let (stored, op) = stash.last();
        if earlier is Some {
            earlier
        } else if stored != committed_opid(op) {
            Some(ExportError::KeyMismatch { stored, committed: committed_opid(op) })
        } else if holds(stash.drop_last(), stored) {
            Some(ExportError::DuplicateOperation { opid: stored })
        } else {
            None
        }
    }
}

/// The first seed which is neither genesis nor in the stash.
pub open spec fn seed_error(stash: Stash, genesis: Opid, seeds: Seq<Opid>) -> Option<ExportError>
    decreases seeds.len(),
{
    if seeds.len() == 0 {
        None
    } else {
        let earlier = seed_error(stash, genesis, seeds.drop_last());
        if earlier is Some {
            earlier
        } else if seeds.last() != genesis && !holds(stash, seeds.last()) {
            Some(ExportError::MissingOperation { opid: seeds.last() })
        } else {
            None
        }
    }
}

/// A way from a seed to an ancestor, each step of which leads to a parent. It never meets genesis.
pub open spec fn ancestor_path(stash: Stash, genesis: Opid, seeds: Seq<Opid>, path: Seq<int>) -> bool {
    &&& path.len() > 0
    &&& seeds.contains(stash[path[0]].0)
    &&& forall|k: int|
        0 <= k < path.len() ==> 0 <= #[trigger] path[k] < stash.len() && stash[path[k]].0 != genesis
    &&& forall|k: int|
        0 < k < path.len() ==> stash[path[k - 1]].1.parents().contains(stash[#[trigger] path[k]].0)
}

/// Position `i` belongs to the ancestor closure of the seeds.
pub open spec fn included(stash: Stash, genesis: Opid, seeds: Seq<Opid>, i: int) -> bool {
    exists|path: Seq<int>| #[trigger] ancestor_path(stash, genesis, seeds, path) && path.last() == i
}

/// An operation of the ancestor closure, kept under `opid`, has a parent which is absent.
pub open spec fn dangling(
    stash: Stash,
    genesis: Opid,
    seeds: Seq<Opid>,
    opid: Opid,
    parent: Opid,
) -> bool {
    exists|i: int|
        #[trigger] included(stash, genesis, seeds, i) && stash[i].0 == opid
            && stash[i].1.parents().contains(parent) && parent != genesis && !holds(stash, parent)
}

/// The list without genesis.
pub open spec fn but_genesis(list: Seq<Opid>, genesis: Opid) -> Seq<Opid>
    decreases list.len(),
{
    if list.len() == 0 {
        list
    } else {
        let earlier = but_genesis(list.drop_last(), genesis);
        if list.last() == genesis {
            earlier
        } else {
            earlier.push(list.last())
        }
    }
}

/// The operation which the stash keeps under the given key.
pub open spec fn kept(stash: Stash, opid: Opid) -> OperationView {
    stash[choose|i: int| 0 <= i < stash.len() && (#[trigger] stash[i]).0 == opid].1
}

/// The parents of an operation in the ascending order.
pub open spec fn ordered_parents(op: OperationView) -> Seq<Opid> {
    choose|list: Seq<Opid>| #[trigger] ascending(list) && list.to_set() == op.parents()
}

/// The parents, but genesis, of the operation under the given key, in the ascending order.
pub open spec fn parent_steps(stash: Stash, genesis: Opid) -> spec_fn(Opid) -> Seq<Opid> {
    |opid: Opid| but_genesis(ordered_parents(kept(stash, opid)), genesis)
}

/// The parent of an operation is absent.
pub open spec fn lacks(stash: Stash, genesis: Opid, opid: Opid, parent: Opid) -> bool {
    kept(stash, opid).parents().contains(parent) && parent != genesis && !holds(stash, parent)
}

/// The absent parent is the first one which the walk over the ancestors of the seeds meets: the
/// operations are taken in the order in which they are discovered, and the parents of each of them
/// in the ascending order.
pub open spec fn first_lacking(
    stash: Stash,
    genesis: Opid,
    seeds: Seq<Opid>,
    opid: Opid,
    parent: Opid,
) -> bool {
    exists|chain: Seq<Opid>, cuts: Seq<int>, n: int|
        {
            &&& #[trigger] discovered(
                but_genesis(seeds, genesis),
                parent_steps(stash, genesis),
                chain,
                cuts,
                n,
            )
            &&& n < chain.len() && chain[n] == opid
            &&& forall|k: int, p: Opid|
                0 <= k < n ==> !#[trigger] lacks(stash, genesis, chain[k], p)
            &&& lacks(stash, genesis, opid, parent)
            &&& forall|p: Opid| #[trigger]
                lacks(stash, genesis, opid, p) ==> p == parent || parent.precedes(p)
        }
}

/// All the parents of the operation at `i`, but genesis, are among the positions in `done`.
pub open spec fn ready(stash: Stash, genesis: Opid, done: Seq<int>, i: int) -> bool {
    forall|p: Opid| #[trigger]
        stash[i].1.parents().contains(p) && p != genesis ==> exists|k: int|
            0 <= k < done.len() && stash[#[trigger] done[k]].0 == p
}

/// The order in which the closure is exported: each time, the earliest position of the stash
/// whose parents have all gone out.
pub open spec fn export_order(
    stash: Stash,
    genesis: Opid,
    seeds: Seq<Opid>,
    order: Seq<int>,
) -> bool {
    &&& order.no_duplicates()
    &&& forall|i: int| #[trigger] order.contains(i) <==> included(stash, genesis, seeds, i)
    &&& forall|k: int|
        0 <= k < order.len() ==> #[trigger] next_export(stash, genesis, seeds, order.take(k), order[k])
}

/// After the positions in `done`, position `i` is the next one to export.
pub open spec fn next_export(
    stash: Stash,
    genesis: Opid,
    seeds: Seq<Opid>,
    done: Seq<int>,
    i: int,
) -> bool {
    &&& included(stash, genesis, seeds, i)
    &&& !done.contains(i)
    &&& ready(stash, genesis, done, i)
    &&& forall|j: int| #[trigger]
        included(stash, genesis, seeds, j) && !done.contains(j) && ready(stash, genesis, done, j)
            ==> i <= j
}

/// A non-empty set of exported operations, each of which has a parent in the set.
pub open spec fn cyclic(stash: Stash, genesis: Opid, seeds: Seq<Opid>, knot: Set<int>) -> bool {
    &&& exists|i: int| knot.contains(i)
    &&& forall|i: int|
        knot.contains(i) ==> #[trigger] included(stash, genesis, seeds, i) && exists|j: int| #[trigger]
            knot.contains(j) && stash[j].0 != genesis && stash[i].1.parents().contains(stash[j].0)
}

/// A fully validated export snapshot.
///
/// Building the plan before writing the stream keeps persistence enumeration out of the wire
/// format contract: the stash may be returned in any order, while consumers still receive every
/// producer before the operations which read or destroy its cells.
#[derive(Debug)]
pub struct ExportPlan {
    pub operations: Vec<(Opid, Operation)>,
}

/// What a plan holds for an order of the stash positions.
pub open spec fn planned(stash: Stash, order: Seq<int>) -> Stash {
    order.map_values(|i: int| stash[i])
}

/// Outcome of [`ExportPlan::build`].
pub open spec fn build_outcome(
    stash: Stash,
    genesis: Opid,
    seeds: Seq<Opid>,
    r: Result<ExportPlan, ExportError>,
) -> bool {
    match stash_error(stash) {
        Some(e) => r == Err::<ExportPlan, ExportError>(e),
        None => match seed_error(stash, genesis, seeds) {
            Some(e) => r == Err::<ExportPlan, ExportError>(e),
            None => match r {
                Err(ExportError::MissingParent { opid, parent }) => {
                    &&& dangling(stash, genesis, seeds, opid, parent)
                    &&& first_lacking(stash, genesis, seeds, opid, parent)
                },
                Err(ExportError::DependencyCycle) => {
                    &&& forall|opid: Opid, parent: Opid| !dangling(stash, genesis, seeds, opid, parent)
                    &&& exists|knot: Set<int>| cyclic(stash, genesis, seeds, knot)
                },
                Err(_) => false,
                Ok(plan) => {
                    &&& forall|opid: Opid, parent: Opid| !dangling(stash, genesis, seeds, opid, parent)
                    &&& exists|order: Seq<int>| #[trigger]
                        export_order(stash, genesis, seeds, order) && stash_of(plan.operations@)
                            == planned(stash, order)
                },
            },
        },
    }
}

/// Every key of the stash is the id of its operation, and none repeats.
pub open spec fn sound(stash: Stash) -> bool {
    &&& forall|i: int| 0 <= i < stash.len() ==> (#[trigger] stash[i]).0 == committed_opid(stash[i].1)
    &&& forall|i: int, j: int|
        0 <= i < j < stash.len() ==> (#[trigger] stash[i]).0 != (#[trigger] stash[j]).0
}

/// A stash without faults is sound.
pub proof fn lemma_faultless_stash_is_sound(stash: Stash)
    ensures
        stash_error(stash) is None <==> sound(stash),
    decreases stash.len(),
{
    if stash.len() > 0 {
        let rest = stash.drop_last();
        let last = stash.len() - 1;
        lemma_faultless_stash_is_sound(rest);
        if stash_error(stash) is None {
            assert forall|i: int| 0 <= i < stash.len() implies (#[trigger] stash[i]).0
                == committed_opid(stash[i].1) by {
                if i < last {
                    assert(rest[i] == stash[i]);
                }
            }
            assert forall|i: int, j: int| 0 <= i < j < stash.len() implies (#[trigger] stash[i]).0 != (
            #[trigger] stash[j]).0 by {
                assert(rest[i] == stash[i]);
                if j < last {
                    assert(rest[j] == stash[j]);
                }
            }
        }
        if sound(stash) {
            assert forall|i: int| 0 <= i < rest.len() implies (#[trigger] rest[i]).0 == committed_opid(
                rest[i].1,
            ) by {
                assert(rest[i] == stash[i]);
            }
            assert forall|i: int, j: int| 0 <= i < j < rest.len() implies (#[trigger] rest[i]).0 != (
            #[trigger] rest[j]).0 by {
                assert(rest[i] == stash[i] && rest[j] == stash[j]);
            }
            if holds(rest, stash[last].0) {
                let i = choose|i: int| 0 <= i < rest.len() && (#[trigger] rest[i]).0 == stash[last].0;
                assert(stash[i].0 == stash[last].0);
            }
        }
    }
}

/// The fault of a stash is that of the prefix up to its first faulty entry.
proof fn lemma_stash_error_prefix(stash: Stash, n: int)
    requires
        0 <= n <= stash.len(),
        stash_error(stash.take(n)) is Some,
    ensures
        stash_error(stash) == stash_error(stash.take(n)),
    decreases stash.len() - n,
{
    if n < stash.len() {
        assert(stash.take(n + 1).drop_last() =~= stash.take(n));
        lemma_stash_error_prefix(stash, n + 1);
    } else {
        assert(stash.take(n) =~= stash);
    }
}

/// The missing seed is that of the prefix up to the first missing one.
proof fn lemma_seed_error_prefix(stash: Stash, genesis: Opid, seeds: Seq<Opid>, n: int)
    requires
        0 <= n <= seeds.len(),
        seed_error(stash, genesis, seeds.take(n)) is Some,
    ensures
        seed_error(stash, genesis, seeds) == seed_error(stash, genesis, seeds.take(n)),
    decreases seeds.len() - n,
{
    if n < seeds.len() {
        assert(seeds.take(n + 1).drop_last() =~= seeds.take(n));
        lemma_seed_error_prefix(stash, genesis, seeds, n + 1);
    } else {
        assert(seeds.take(n) =~= seeds);
    }
}

/// A seed is included.
proof fn lemma_seed_is_included(stash: Stash, genesis: Opid, seeds: Seq<Opid>, i: int)
    requires
        0 <= i < stash.len(),
        stash[i].0 != genesis,
        seeds.contains(stash[i].0),
    ensures
        included(stash, genesis, seeds, i),
{
    assert(ancestor_path(stash, genesis, seeds, seq![i]));
    assert(seq![i].last() == i);
}

/// A parent of an included operation is included.
proof fn lemma_parent_is_included(stash: Stash, genesis: Opid, seeds: Seq<Opid>, i: int, j: int)
    requires
        included(stash, genesis, seeds, i),
        0 <= j < stash.len(),
        stash[j].0 != genesis,
        stash[i].1.parents().contains(stash[j].0),
    ensures
        included(stash, genesis, seeds, j),
{
    let path = choose|path: Seq<int>| #[trigger]
        ancestor_path(stash, genesis, seeds, path) && path.last() == i;
    let longer = path.push(j);
    assert forall|k: int| 0 < k < longer.len() implies stash[longer[k - 1]].1.parents().contains(
        stash[#[trigger] longer[k]].0,
    ) by {
        if k < path.len() {
            assert(longer[k] == path[k]);
            assert(longer[k - 1] == path[k - 1]);
        }
    }
    assert(ancestor_path(stash, genesis, seeds, longer));
    assert(longer.last() == j);
}

/// A set of positions which holds the seeds and is closed under taking parents holds the end of
/// every way from a seed.
proof fn lemma_closed_set_holds_path(
    stash: Stash,
    genesis: Opid,
    seeds: Seq<Opid>,
    closed: Set<int>,
    path: Seq<int>,
)
    requires
        ancestor_path(stash, genesis, seeds, path),
        forall|k: int|
            0 <= k < stash.len() && (#[trigger] stash[k]).0 != genesis && seeds.contains(stash[k].0)
                ==> closed.contains(k),
        forall|k: int, m: int|
            closed.contains(k) && 0 <= m < stash.len() && stash[m].0 != genesis && (
            #[trigger] stash[k]).1.parents().contains((#[trigger] stash[m]).0) ==> closed.contains(m),
    ensures
        closed.contains(path.last()),
    decreases path.len(),
{
    if path.len() > 1 {
        let shorter = path.drop_last();
        assert(ancestor_path(stash, genesis, seeds, shorter));
        lemma_closed_set_holds_path(stash, genesis, seeds, closed, shorter);
        let k = path.len() - 1;
        assert(stash[path[k - 1]].1.parents().contains(stash[path[k]].0));
        assert(shorter.last() == path[k - 1]);
    } else {
        assert(path.last() == path[0]);
    }
}

/// `links` are the positions of the parents of the operation at `i`, but genesis.
spec fn parent_links(stash: Stash, genesis: Opid, i: int, links: Seq<usize>) -> bool {
    &&& forall|k: int|
        0 <= k < links.len() ==> {
            &&& 0 <= #[trigger] links[k] < stash.len()
            &&& stash[links[k] as int].0 != genesis
            &&& stash[i].1.parents().contains(stash[links[k] as int].0)
        }
    &&& forall|p: Opid| #[trigger]
        stash[i].1.parents().contains(p) && p != genesis ==> exists|k: int|
            0 <= k < links.len() && stash[(#[trigger] links[k]) as int].0 == p
}

/// The position of the operation kept under the given key.
fn position_of(operations: &Vec<(Opid, Operation)>, opid: Opid) -> (r: Option<usize>)
    ensures
        match r {
            Some(i) => i < operations@.len() && stash_of(operations@)[i as int].0 == opid,
            None => !holds(stash_of(operations@), opid),
        },
{
    let mut i: usize = 0;
    while i < operations.len()
        invariant
            i <= operations.len(),
            forall|k: int| 0 <= k < i ==> (#[trigger] stash_of(operations@)[k]).0 != opid,
        decreases operations.len() - i,
    {
        if operations[i].0 == opid {
            return Some(i);
        }
        assert(stash_of(operations@)[i as int].0 != opid);
        i = i + 1;
    }
    None
}

/// Checks the keys of the stash.
fn check_keys(operations: &Vec<(Opid, Operation)>) -> (r: Result<(), ExportError>)
    requires
        forall|i: int| 0 <= i < operations@.len() ==> (#[trigger] operations@[i]).1@.well_formed(),
    ensures
        match stash_error(stash_of(operations@)) {
            Some(e) => r == Err::<(), ExportError>(e),
            None => r == Ok::<(), ExportError>(()),
        },
{
    let ghost stash = stash_of(operations@);
    let mut i: usize = 0;
    while i < operations.len()
        invariant
            i <= operations.len(),
            stash == stash_of(operations@),
            stash_error(stash.take(i as int)) is None,
            forall|k: int| 0 <= k < operations@.len() ==> (#[trigger] operations@[k]).1@.well_formed(),
        decreases operations.len() - i,
    {
        let stored = operations[i].0;
        let committed = operations[i].1.opid();
        proof {
            assert(stash.take(i + 1).drop_last() =~= stash.take(i as int));
            assert(stash.take(i + 1).last() == stash[i as int]);
            assert(stash[i as int] == (stored, operations@[i as int].1@));
        }
        if stored != committed {
            proof {
                lemma_stash_error_prefix(stash, i + 1);
            }
            return Err(ExportError::KeyMismatch { stored, committed });
        }
        let mut j: usize = 0;
        while j < i
            invariant
                j <= i < operations.len(),
                stash == stash_of(operations@),
                stored == stash[i as int].0,
                stash_error(stash.take(i as int)) is None,
                stash.take(i + 1).drop_last() == stash.take(i as int),
                stash.take(i + 1).last() == stash[i as int],
                stored == committed_opid(stash[i as int].1),
                forall|k: int| 0 <= k < j ==> (#[trigger] stash[k]).0 != stored,
            decreases i - j,
        {
            if operations[j].0 == stored {
                proof {
                    assert(stash.take(i as int)[j as int].0 == stored);
                    assert(holds(stash.take(i as int), stored));
                    lemma_stash_error_prefix(stash, i + 1);
                }
                return Err(ExportError::DuplicateOperation { opid: stored });
            }
            assert(stash[j as int].0 != stored);
            j = j + 1;
        }
        proof {
            if holds(stash.take(i as int), stored) {
                let k = choose|k: int|
                    0 <= k < i && (#[trigger] stash.take(i as int)[k]).0 == stored;
                assert(stash[k].0 == stored);
            }
        }
        i = i + 1;
    }
    assert(stash.take(stash.len() as int) =~= stash);
    Ok(())
}

/// The ancestor closure of the seeds: for each position of the stash, whether it is included,
/// and the positions of its parents. The closure comes from the committed operation inputs:
/// transition traces are derived data and may be incomplete after import or recovery.
#[verifier::rlimit(40)]
fn close_over_parents(
    operations: &Vec<(Opid, Operation)>,
    genesis_opid: Opid,
    seeds: &Vec<Opid>,
) -> (r: Result<(Vec<bool>, Vec<Vec<usize>>), ExportError>)
    requires
        sound(stash_of(operations@)),
    ensures
        ({
            let stash = stash_of(operations@);
            match seed_error(stash, genesis_opid, seeds@) {
                Some(e) => r == Err::<(Vec<bool>, Vec<Vec<usize>>), ExportError>(e),
                None => match r {
                    Err(ExportError::MissingParent { opid, parent }) => {
                        &&& dangling(stash, genesis_opid, seeds@, opid, parent)
                        &&& first_lacking(stash, genesis_opid, seeds@, opid, parent)
                    },
                    Err(_) => false,
                    Ok((flags, links)) => {
                        &&& forall|opid: Opid, parent: Opid|
                            !dangling(stash, genesis_opid, seeds@, opid, parent)
                        &&& flags@.len() == stash.len()
                        &&& links@.len() == stash.len()
                        &&& forall|i: int|
                            0 <= i < stash.len() ==> (#[trigger] flags@[i] <==> included(
                                stash,
                                genesis_opid,
                                seeds@,
                                i,
                            ))
                        &&& forall|i: int|
                            0 <= i < stash.len() && #[trigger] flags@[i] ==> parent_links(
                                stash,
                                genesis_opid,
                                i,
                                links@[i]@,
                            )
                    },
                },
            }
        }),
{
    let ghost stash = stash_of(operations@);
    let mut flags: Vec<bool> = Vec::new();
    let mut links: Vec<Vec<usize>> = Vec::new();
    let mut f: usize = 0;
    while f < operations.len()
        invariant
            f <= operations.len(),
            flags@.len() == f,
            links@.len() == f,
            forall|i: int| 0 <= i < f ==> !#[trigger] flags@[i],
        decreases operations.len() - f,
    {
        flags.push(false);
        links.push(Vec::new());
        f = f + 1;
    }
    let ghost roots = but_genesis(seeds@, genesis_opid);
    let ghost steps = parent_steps(stash, genesis_opid);
    let mut pending: Vec<usize> = Vec::new();
    let mut s: usize = 0;
    assert(seeds@.take(0) =~= Seq::empty());
    assert(ids_at(stash, pending@) =~= Seq::empty());
    while s < seeds.len()
        invariant
            s <= seeds.len(),
            ids_at(stash, pending@) == extended(
                Seq::empty(),
                but_genesis(seeds@.take(s as int), genesis_opid),
            ),
            stash == stash_of(operations@),
            sound(stash),
            flags@.len() == stash.len(),
            links@.len() == stash.len(),
            seed_error(stash, genesis_opid, seeds@.take(s as int)) is None,
            pending_positions(stash, flags@, pending@),
            forall|i: int|
                0 <= i < stash.len() && #[trigger] flags@[i] ==> included(
                    stash,
                    genesis_opid,
                    seeds@,
                    i,
                ),
            forall|k: int|
                0 <= k < stash.len() && (#[trigger] stash[k]).0 != genesis_opid && seeds@.take(
                    s as int,
                ).contains(stash[k].0) ==> flags@[k],
        decreases seeds.len() - s,
    {
        let seed = seeds[s];
        proof {
            assert(seeds@.take(s + 1).drop_last() =~= seeds@.take(s as int));
            assert(seeds@.take(s + 1).last() == seed);
        }
        let ghost flags_before = flags@;
        if seed != genesis_opid {
            match position_of(operations, seed) {
                None => {
                    proof {
                        lemma_seed_error_prefix(stash, genesis_opid, seeds@, s + 1);
                    }
                    return Err(ExportError::MissingOperation { opid: seed });
                },
                Some(index) => {
                    proof {
                        assert(seeds@[s as int] == seed);
                        assert(seeds@.contains(stash[index as int].0));
                        lemma_seed_is_included(stash, genesis_opid, seeds@, index as int);
                        assert(holds(stash, seed));
                    }
                    let ghost queued = pending@;
                    proof {
                        let earlier = but_genesis(seeds@.take(s as int), genesis_opid);
                        assert(earlier.push(seed).drop_last() =~= earlier);
                        lemma_queued(stash, flags@, pending@, index as int);
                    }
                    if !flags[index] {
                        mark(Ghost(stash), &mut flags, &mut pending, index);
                        assert(ids_at(stash, pending@) =~= ids_at(stash, queued).push(seed));
                    }
                    assert(flags@[index as int]);
                    assert forall|i: int|
                        0 <= i < stash.len() && flags_before[i] implies #[trigger] flags@[i] by {}
                },
            }
        }
        proof {
            assert forall|k: int|
                0 <= k < stash.len() && (#[trigger] stash[k]).0 != genesis_opid && seeds@.take(
                    s + 1,
                ).contains(stash[k].0) implies flags@[k] by {
                let taken = seeds@.take(s + 1);
                let m = choose|m: int| 0 <= m < taken.len() && #[trigger] taken[m] == stash[k].0;
                if m < s {
                    assert(seeds@.take(s as int)[m] == stash[k].0);
                    assert(seeds@.take(s as int).contains(stash[k].0));
                    assert(flags_before[k]);
                }
            }
        }
        s = s + 1;
    }
    assert(seeds@.take(seeds@.len() as int) =~= seeds@);
    let mut next: usize = 0;
    let ghost mut cuts: Seq<int> = seq![pending@.len() as int];
    proof {
        let ids = ids_at(stash, pending@);
        assert(ids.take(ids.len() as int) =~= ids);
        assert(discovered(roots, steps, ids, cuts, 0));
    }
    while next < pending.len()
        invariant
            next <= pending.len(),
            roots == but_genesis(seeds@, genesis_opid),
            steps == parent_steps(stash, genesis_opid),
            discovered(roots, steps, ids_at(stash, pending@), cuts, next as int),
            forall|k: int, p: Opid|
                0 <= k < next ==> !#[trigger] lacks(
                    stash,
                    genesis_opid,
                    ids_at(stash, pending@)[k],
                    p,
                ),
            stash == stash_of(operations@),
            sound(stash),
            flags@.len() == stash.len(),
            links@.len() == stash.len(),
            seed_error(stash, genesis_opid, seeds@) is None,
            pending_positions(stash, flags@, pending@),
            forall|i: int|
                0 <= i < stash.len() && #[trigger] flags@[i] ==> included(
                    stash,
                    genesis_opid,
                    seeds@,
                    i,
                ),
            forall|k: int|
                0 <= k < stash.len() && (#[trigger] stash[k]).0 != genesis_opid && seeds@.contains(
                    stash[k].0,
                ) ==> flags@[k],
            forall|k: int|
                0 <= k < next ==> parent_links(
                    stash,
                    genesis_opid,
                    (#[trigger] pending@[k]) as int,
                    links@[pending@[k] as int]@,
                ),
            forall|k: int, m: int|
                #![trigger pending@[k], links@[pending@[k] as int]@[m]]
                0 <= k < next && 0 <= m < links@[pending@[k] as int]@.len()
                    ==> flags@[links@[pending@[k] as int]@[m] as int],
        decreases stash.len() - next,
    {
        let index = pending[next];
        proof {
            lemma_pending_fits(stash, flags@, pending@);
            assert(flags@[index as int]);
        }
        let parents = operations[index].1.parent_opids();
        assert(stash[index as int].1 == operations@[index as int].1@);
        let mut found: Vec<usize> = Vec::new();
        let mut p: usize = 0;
        let ghost start = pending@;
        let ghost flags_at_start = flags@;
        let ghost ids = ids_at(stash, start);
        proof {
            lemma_kept(stash, index as int);
            lemma_ascending_unique(parents.seq(), ordered_parents(stash[index as int].1));
            assert(parents.seq().take(0) =~= Seq::empty());
        }
        while p < parents.len()
            invariant
                p <= parents.seq().len(),
                parents.well_formed(),
                ids == ids_at(stash, start),
                index == start[next as int],
                kept(stash, stash[index as int].0) == stash[index as int].1,
                roots == but_genesis(seeds@, genesis_opid),
                steps == parent_steps(stash, genesis_opid),
                discovered(roots, steps, ids, cuts, next as int),
                forall|k: int, q: Opid|
                    0 <= k < next ==> !#[trigger] lacks(stash, genesis_opid, ids[k], q),
                ids_at(stash, pending@) == extended(
                    ids,
                    but_genesis(parents.seq().take(p as int), genesis_opid),
                ),
                next < pending@.len(),
                index == pending@[next as int],
                index < stash.len(),
                stash == stash_of(operations@),
                sound(stash),
                parents.seq().to_set() == stash[index as int].1.parents(),
                flags@.len() == stash.len(),
                links@.len() == stash.len(),
                pending_positions(stash, flags@, pending@),
                flags@[index as int],
                start.is_prefix_of(pending@),
                next < start.len(),
                seed_error(stash, genesis_opid, seeds@) is None,
                forall|i: int|
                    0 <= i < stash.len() && #[trigger] flags@[i] ==> included(
                        stash,
                        genesis_opid,
                        seeds@,
                        i,
                    ),
                forall|k: int|
                    0 <= k < stash.len() && (#[trigger] stash[k]).0 != genesis_opid
                        && seeds@.contains(stash[k].0) ==> flags@[k],
                forall|k: int|
                    0 <= k < next ==> parent_links(
                        stash,
                        genesis_opid,
                        (#[trigger] pending@[k]) as int,
                        links@[pending@[k] as int]@,
                    ),
                forall|k: int, m: int|
                    #![trigger pending@[k], links@[pending@[k] as int]@[m]]
                    0 <= k < next && 0 <= m < links@[pending@[k] as int]@.len()
                        ==> flags@[links@[pending@[k] as int]@[m] as int],
                forall|k: int|
                    0 <= k < found@.len() ==> {
                        &&& 0 <= #[trigger] found@[k] < stash.len()
                        &&& stash[found@[k] as int].0 != genesis_opid
                        &&& stash[index as int].1.parents().contains(stash[found@[k] as int].0)
                        &&& flags@[found@[k] as int]
                    },
                forall|q: int|
                    0 <= q < p && #[trigger] parents.seq()[q] != genesis_opid ==> exists|k: int|
                        0 <= k < found@.len() && stash[(#[trigger] found@[k]) as int].0
                            == parents.seq()[q],
            decreases parents.seq().len() - p,
        {
            let parent = parents.get(p);
            let ghost found_before = found@;
            proof {
                assert(parents.seq().contains(parent));
                assert(parents.seq().to_set().contains(parent));
                assert(stash[index as int].1.parents().contains(parent));
                assert(parents.seq().take(p + 1).drop_last() =~= parents.seq().take(p as int));
                assert(parents.seq().take(p + 1).last() == parent);
            }
            if parent != genesis_opid {
                match position_of(operations, parent) {
                    None => {
                        proof {
                            assert(included(stash, genesis_opid, seeds@, index as int));
                            assert(stash[index as int].0 == operations@[index as int].0);
                            assert(dangling(
                                stash,
                                genesis_opid,
                                seeds@,
                                operations@[index as int].0,
                                parent,
                            ));
                            let opid = stash[index as int].0;
                            assert(ids[next as int] == opid);
                            assert forall|q: Opid| #[trigger]
                                lacks(stash, genesis_opid, opid, q) implies q == parent
                                || parent.precedes(q) by {
                                assert(parents.seq().to_set().contains(q));
                                let m = choose|m: int|
                                    0 <= m < parents.seq().len() && parents.seq()[m] == q;
                                if m < p {
                                    let k = choose|k: int|
                                        0 <= k < found@.len() && stash[(
                                        #[trigger] found@[k]) as int].0 == parents.seq()[m];
                                    assert(stash[found@[k] as int].0 == q);
                                    assert(holds(stash, q));
                                }
                            }
                            assert(first_lacking(
                                stash,
                                genesis_opid,
                                seeds@,
                                operations@[index as int].0,
                                parent,
                            ));
                        }
                        return Err(
                            ExportError::MissingParent { opid: operations[index].0, parent },
                        );
                    },
                    Some(parent_index) => {
                        proof {
                            lemma_parent_is_included(
                                stash,
                                genesis_opid,
                                seeds@,
                                index as int,
                                parent_index as int,
                            );
                        }
                        let ghost flags_before = flags@;
                        let ghost queued = pending@;
                        proof {
                            let earlier = but_genesis(parents.seq().take(p as int), genesis_opid);
                            assert(earlier.push(parent).drop_last() =~= earlier);
                            lemma_queued(stash, flags@, pending@, parent_index as int);
                        }
                        if !flags[parent_index] {
                            mark(Ghost(stash), &mut flags, &mut pending, parent_index);
                            assert(ids_at(stash, pending@) =~= ids_at(stash, queued).push(parent));
                        }
                        assert forall|i: int|
                            0 <= i < stash.len() && flags_before[i] implies #[trigger] flags@[i] by {}
                        found.push(parent_index);
                        assert(found@[found@.len() - 1] == parent_index);
                    },
                }
            }
            proof {
                assert forall|q: int|
                    0 <= q < p + 1 && #[trigger] parents.seq()[q] != genesis_opid implies exists|k: int|
                    0 <= k < found@.len() && stash[(#[trigger] found@[k]) as int].0
                        == parents.seq()[q] by {
                    if q < p {
                        let k = choose|k: int|
                            0 <= k < found_before.len() && stash[(
                            #[trigger] found_before[k]) as int].0 == parents.seq()[q];
                        assert(found@[k] == found_before[k]);
                    } else {
                        assert(stash[found@[found@.len() - 1] as int].0 == parents.seq()[q]);
                    }
                }
            }
            p = p + 1;
        }
        let ghost links_before = links@;
        let ghost row = found@;
        proof {
            assert(parents.seq().take(parents.seq().len() as int) =~= parents.seq());
            assert(steps(ids[next as int]) == but_genesis(parents.seq(), genesis_opid));
            lemma_ids_differ(stash, flags_at_start, start);
            lemma_followed(roots, steps, ids, cuts, next as int, ids_at(stash, pending@));
            cuts = cuts.push(pending@.len() as int);
            assert forall|k: int, q: Opid|
                0 <= k < next + 1 implies !#[trigger] lacks(
                stash,
                genesis_opid,
                ids_at(stash, pending@)[k],
                q,
            ) by {
                assert(ids_at(stash, pending@)[k] == ids[k]);
                if k == next && lacks(stash, genesis_opid, ids[k], q) {
                    assert(parents.seq().to_set().contains(q));
                    let m = choose|m: int| 0 <= m < parents.seq().len() && parents.seq()[m] == q;
                    let j = choose|j: int|
                        0 <= j < row.len() && stash[(#[trigger] row[j]) as int].0
                            == parents.seq()[m];
                    assert(stash[row[j] as int].0 == q);
                    assert(holds(stash, q));
                }
            }
            assert forall|q: Opid| #[trigger]
                stash[index as int].1.parents().contains(q) && q != genesis_opid implies exists|k: int|
                0 <= k < row.len() && stash[(#[trigger] row[k]) as int].0 == q by {
                assert(parents.seq().to_set().contains(q));
                let m = choose|m: int| 0 <= m < parents.seq().len() && parents.seq()[m] == q;
                assert(parents.seq()[m] != genesis_opid);
            }
            assert(parent_links(stash, genesis_opid, index as int, row));
        }
        links.set(index, found);
        proof {
            assert forall|k: int| 0 <= k < next + 1 implies parent_links(
                stash,
                genesis_opid,
                (#[trigger] pending@[k]) as int,
                links@[pending@[k] as int]@,
            ) by {
                if k < next {
                    assert(pending@[k] != pending@[next as int]);
                    assert(links@[pending@[k] as int] == links_before[pending@[k] as int]);
                }
            }
            assert forall|k: int, m: int|
                #![trigger pending@[k], links@[pending@[k] as int]@[m]]
                0 <= k < next + 1 && 0 <= m < links@[pending@[k] as int]@.len() implies flags@[links@[pending@[k] as int]@[m] as int] by {
                if k < next {
                    assert(pending@[k] != pending@[next as int]);
                    assert(links@[pending@[k] as int] == links_before[pending@[k] as int]);
                }
            }
        }
        next = next + 1;
    }
    proof {
        assert forall|i: int| 0 <= i < stash.len() && #[trigger] flags@[i] implies parent_links(
            stash,
            genesis_opid,
            i,
            links@[i]@,
        ) by {
            let k = choose|k: int| 0 <= k < pending@.len() && #[trigger] pending@[k] == i;
            assert(pending@[k] == i);
        }
        let closed = Set::new(|i: int| 0 <= i < stash.len() && flags@[i]);
        assert forall|k: int, m: int|
            closed.contains(k) && 0 <= m < stash.len() && stash[m].0 != genesis_opid && (
            #[trigger] stash[k]).1.parents().contains((#[trigger] stash[m]).0) implies closed.contains(
            m,
        ) by {
            let at = choose|at: int| 0 <= at < pending@.len() && #[trigger] pending@[at] == k;
            assert(pending@[at] == k);
            assert(parent_links(stash, genesis_opid, k, links@[k]@));
            let l = choose|l: int|
                0 <= l < links@[k]@.len() && stash[(#[trigger] links@[k]@[l]) as int].0
                    == stash[m].0;
            let found = links@[pending@[at] as int]@[l] as int;
            assert(flags@[found]);
            assert(found == m);
        }
        assert forall|i: int|
            0 <= i < stash.len() && included(stash, genesis_opid, seeds@, i) implies #[trigger] flags@[i] by {
            let path = choose|path: Seq<int>| #[trigger]
                ancestor_path(stash, genesis_opid, seeds@, path) && path.last() == i;
            lemma_closed_set_holds_path(stash, genesis_opid, seeds@, closed, path);
        }
        assert forall|opid: Opid, parent: Opid|
            !dangling(stash, genesis_opid, seeds@, opid, parent) by {
            if dangling(stash, genesis_opid, seeds@, opid, parent) {
                let i = choose|i: int|
                    #[trigger] included(stash, genesis_opid, seeds@, i) && stash[i].0 == opid
                        && stash[i].1.parents().contains(parent) && parent != genesis_opid && !holds(
                        stash,
                        parent,
                    );
                let path = choose|path: Seq<int>| #[trigger]
                    ancestor_path(stash, genesis_opid, seeds@, path) && path.last() == i;
                assert(0 <= path[path.len() - 1] < stash.len());
                assert(flags@[i]);
                assert(parent_links(stash, genesis_opid, i, links@[i]@));
                let l = choose|l: int|
                    0 <= l < links@[i]@.len() && stash[(#[trigger] links@[i]@[l]) as int].0
                        == parent;
                assert(stash[links@[i]@[l] as int].0 == parent);
            }
        }
    }
    Ok((flags, links))
}

/// The keys under which the stash keeps the operations at the given positions.
spec fn ids_at(stash: Stash, positions: Seq<usize>) -> Seq<Opid> {
    positions.map_values(|i: usize| stash[i as int].0)
}

/// A key leads to its operation.
pub(crate) proof fn lemma_kept(stash: Stash, i: int)
    requires
        sound(stash),
        0 <= i < stash.len(),
    ensures
        kept(stash, stash[i].0) == stash[i].1,
{
    let k = choose|k: int| 0 <= k < stash.len() && (#[trigger] stash[k]).0 == stash[i].0;
    assert(stash[i].0 == stash[i].0);
    if k < i {
        assert(stash[k].0 != stash[i].0);
    } else if i < k {
        assert(stash[i].0 != stash[k].0);
    }
}

/// The key of a position is queued where the position is marked.
proof fn lemma_queued(stash: Stash, flags: Seq<bool>, pending: Seq<usize>, i: int)
    requires
        sound(stash),
        pending_positions(stash, flags, pending),
        0 <= i < stash.len(),
    ensures
        ids_at(stash, pending).contains(stash[i].0) <==> flags[i],
{
    let ids = ids_at(stash, pending);
    if flags[i] {
        let k = choose|k: int| 0 <= k < pending.len() && #[trigger] pending[k] == i;
        assert(ids[k] == stash[i].0);
    }
    if ids.contains(stash[i].0) {
        let k = choose|k: int| 0 <= k < ids.len() && ids[k] == stash[i].0;
        let m = pending[k] as int;
        assert(stash[m].0 == stash[i].0);
        if m < i {
            assert(stash[m].0 != stash[i].0);
        } else if i < m {
            assert(stash[i].0 != stash[m].0);
        }
    }
}

/// The keys of the marked positions differ.
proof fn lemma_ids_differ(stash: Stash, flags: Seq<bool>, pending: Seq<usize>)
    requires
        sound(stash),
        pending_positions(stash, flags, pending),
    ensures
        ids_at(stash, pending).no_duplicates(),
{
    let ids = ids_at(stash, pending);
    assert forall|a: int, b: int| 0 <= a < ids.len() && 0 <= b < ids.len() && a != b implies ids[a]
        != ids[b] by {
        let i = pending[a] as int;
        let j = pending[b] as int;
        if a < b {
            assert(pending[a] != pending[b]);
        } else {
            assert(pending[b] != pending[a]);
        }
        if i < j {
            assert(stash[i].0 != stash[j].0);
        } else {
            assert(stash[j].0 != stash[i].0);
        }
    }
}

/// The marked positions are exactly those in `pending`, each once.
spec fn pending_positions(stash: Stash, flags: Seq<bool>, pending: Seq<usize>) -> bool {
    &&& forall|k: int|
        0 <= k < pending.len() ==> 0 <= #[trigger] pending[k] < stash.len() && flags[pending[k] as int]
    &&& forall|k: int, m: int|
        0 <= k < m < pending.len() ==> #[trigger] pending[k] != #[trigger] pending[m]
    &&& forall|i: int|
        0 <= i < stash.len() && #[trigger] flags[i] ==> exists|k: int|
            0 <= k < pending.len() && #[trigger] pending[k] == i
}

/// There are no more marked positions than operations in the stash.
proof fn lemma_pending_fits(stash: Stash, flags: Seq<bool>, pending: Seq<usize>)
    requires
        pending_positions(stash, flags, pending),
    ensures
        pending.len() <= stash.len(),
{
    let positions = pending.map_values(|i: usize| i as int);
    assert(positions.no_duplicates()) by {
        assert forall|k: int, m: int|
            0 <= k < positions.len() && 0 <= m < positions.len() && k != m implies positions[k]
            != positions[m] by {
            if k < m {
                assert(pending[k] != pending[m]);
            } else {
                assert(pending[m] != pending[k]);
            }
        }
    }
    positions.unique_seq_to_set();
    let range = vstd::set_lib::set_int_range(0, stash.len() as int);
    vstd::set_lib::lemma_int_range(0, stash.len() as int);
    assert(positions.to_set().subset_of(range));
    vstd::set_lib::lemma_len_subset(positions.to_set(), range);
}

/// Marks a position and queues it.
fn mark(
    Ghost(stash): Ghost<Stash>,
    flags: &mut Vec<bool>,
    pending: &mut Vec<usize>,
    index: usize,
)
    requires
        old(flags)@.len() == stash.len(),
        index < stash.len(),
        !old(flags)@[index as int],
        pending_positions(stash, old(flags)@, old(pending)@),
    ensures
        final(flags)@ == old(flags)@.update(index as int, true),
        final(pending)@ == old(pending)@.push(index),
        pending_positions(stash, final(flags)@, final(pending)@),
{
    flags.set(index, true);
    pending.push(index);
    proof {
        let last = old(pending)@.len() as int;
        assert(pending@[last] == index);
        assert forall|i: int| 0 <= i < stash.len() && #[trigger] flags@[i] implies exists|k: int|
            0 <= k < pending@.len() && #[trigger] pending@[k] == i by {
            if i != index {
                assert(old(flags)@[i]);
                let k = choose|k: int| 0 <= k < old(pending)@.len() && #[trigger] old(pending)@[k] == i;
                assert(pending@[k] == i);
            }
        }
    }
}

/// Stash positions as mathematical integers.
spec fn positions(list: Seq<usize>) -> Seq<int> {
    list.map_values(|i: usize| i as int)
}

/// Tests whether all the parents of the operation at `i` have been emitted.
fn parents_emitted(
    Ghost(stash): Ghost<Stash>,
    Ghost(genesis): Ghost<Opid>,
    Ghost(order): Ghost<Seq<usize>>,
    i: usize,
    links: &Vec<usize>,
    emitted: &Vec<bool>,
) -> (r: bool)
    requires
        sound(stash),
        i < stash.len(),
        emitted@.len() == stash.len(),
        pending_positions(stash, emitted@, order),
        parent_links(stash, genesis, i as int, links@),
    ensures
        r == ready(stash, genesis, positions(order), i as int),
{
    let ghost done = positions(order);
    let mut l: usize = 0;
    while l < links.len()
        invariant
            l <= links.len(),
            sound(stash),
            i < stash.len(),
            done == positions(order),
            emitted@.len() == stash.len(),
            pending_positions(stash, emitted@, order),
            parent_links(stash, genesis, i as int, links@),
            forall|k: int| 0 <= k < l ==> emitted@[(#[trigger] links@[k]) as int],
        decreases links.len() - l,
    {
        let link = links[l];
        if !emitted[link] {
            proof {
                let p = stash[link as int].0;
                assert(stash[i as int].1.parents().contains(p));
                if ready(stash, genesis, done, i as int) {
                    let k = choose|k: int| 0 <= k < done.len() && stash[#[trigger] done[k]].0 == p;
                    assert(order[k] == done[k]);
                    assert(emitted@[order[k] as int]);
                    assert(order[k] == link);
                }
            }
            return false;
        }
        l = l + 1;
    }
    proof {
        assert forall|p: Opid| #[trigger]
            stash[i as int].1.parents().contains(p) && p != genesis implies exists|k: int|
            0 <= k < done.len() && stash[#[trigger] done[k]].0 == p by {
            let m = choose|m: int| 0 <= m < links@.len() && stash[(#[trigger] links@[m]) as int].0 == p;
            assert(emitted@[links@[m] as int]);
            let k = choose|k: int| 0 <= k < order.len() && #[trigger] order[k] == links@[m];
            assert(done[k] == links@[m]);
        }
    }
    true
}

/// The next position to emit: the earliest one, not emitted yet, with all the parents emitted.
fn next_position(
    Ghost(stash): Ghost<Stash>,
    Ghost(genesis): Ghost<Opid>,
    Ghost(seeds): Ghost<Seq<Opid>>,
    Ghost(order): Ghost<Seq<usize>>,
    flags: &Vec<bool>,
    links: &Vec<Vec<usize>>,
    emitted: &Vec<bool>,
) -> (r: Option<usize>)
    requires
        sound(stash),
        flags@.len() == stash.len(),
        links@.len() == stash.len(),
        emitted@.len() == stash.len(),
        forall|i: int|
            0 <= i < stash.len() ==> (#[trigger] flags@[i] <==> included(stash, genesis, seeds, i)),
        forall|i: int|
            0 <= i < stash.len() && #[trigger] flags@[i] ==> parent_links(
                stash,
                genesis,
                i,
                links@[i]@,
            ),
        pending_positions(stash, emitted@, order),
    ensures
        match r {
            Some(i) => i < stash.len() && !emitted@[i as int] && next_export(
                stash,
                genesis,
                seeds,
                positions(order),
                i as int,
            ),
            None => forall|i: int|
                0 <= i < stash.len() && #[trigger] flags@[i] && !emitted@[i] ==> !ready(
                    stash,
                    genesis,
                    positions(order),
                    i,
                ),
        },
{
    let ghost done = positions(order);
    let mut i: usize = 0;
    while i < flags.len()
        invariant
            i <= flags.len(),
            sound(stash),
            done == positions(order),
            flags@.len() == stash.len(),
            links@.len() == stash.len(),
            emitted@.len() == stash.len(),
            forall|i: int|
                0 <= i < stash.len() ==> (#[trigger] flags@[i] <==> included(
                    stash,
                    genesis,
                    seeds,
                    i,
                )),
            forall|i: int|
                0 <= i < stash.len() && #[trigger] flags@[i] ==> parent_links(
                    stash,
                    genesis,
                    i,
                    links@[i]@,
                ),
            pending_positions(stash, emitted@, order),
            forall|j: int|
                0 <= j < i && #[trigger] flags@[j] && !emitted@[j] ==> !ready(
                    stash,
                    genesis,
                    done,
                    j,
                ),
        decreases flags.len() - i,
    {
        if flags[i] && !emitted[i] && parents_emitted(
            Ghost(stash),
            Ghost(genesis),
            Ghost(order),
            i,
            &links[i],
            emitted,
        ) {
            proof {
                lemma_emitted_positions(stash, emitted@, order);
                assert(flags@[i as int]);
                assert forall|j: int| #[trigger]
                    included(stash, genesis, seeds, j) && !done.contains(j) && ready(
                        stash,
                        genesis,
                        done,
                        j,
                    ) implies i <= j by {
                    lemma_included_in_range(stash, genesis, seeds, j);
                    if j < i {
                        assert(flags@[j]);
                    }
                }
            }
            return Some(i);
        }
        i = i + 1;
    }
    None
}

/// An included position is one of the stash.
proof fn lemma_included_in_range(stash: Stash, genesis: Opid, seeds: Seq<Opid>, i: int)
    requires
        included(stash, genesis, seeds, i),
    ensures
        0 <= i < stash.len(),
        stash[i].0 != genesis,
{
    let path = choose|path: Seq<int>| #[trigger]
        ancestor_path(stash, genesis, seeds, path) && path.last() == i;
    assert(path[path.len() - 1] == i);
}

/// The marked positions are those of the order.
proof fn lemma_emitted_positions(stash: Stash, emitted: Seq<bool>, order: Seq<usize>)
    requires
        emitted.len() == stash.len(),
        pending_positions(stash, emitted, order),
    ensures
        forall|i: int| 0 <= i < stash.len() ==> (#[trigger] emitted[i] <==> positions(order).contains(i)),
        positions(order).no_duplicates(),
{
    let done = positions(order);
    assert forall|i: int| 0 <= i < stash.len() implies (#[trigger] emitted[i] <==> done.contains(i)) by {
        if emitted[i] {
            let k = choose|k: int| 0 <= k < order.len() && #[trigger] order[k] == i;
            assert(done[k] == i);
        }
        if done.contains(i) {
            let k = choose|k: int| 0 <= k < done.len() && done[k] == i;
            assert(order[k] == i);
        }
    }
    assert forall|k: int, m: int| 0 <= k < done.len() && 0 <= m < done.len() && k != m implies done[k]
        != done[m] by {
        if k < m {
            assert(order[k] != order[m]);
        } else {
            assert(order[m] != order[k]);
        }
    }
}

/// Stable topological sort. The stash position is only a tie-breaker between unrelated operations,
/// so an already dependency-ordered stash is emitted unchanged.
fn sort_positions(
    Ghost(stash): Ghost<Stash>,
    Ghost(genesis): Ghost<Opid>,
    Ghost(seeds): Ghost<Seq<Opid>>,
    flags: &Vec<bool>,
    links: &Vec<Vec<usize>>,
) -> (r: Option<Vec<usize>>)
    requires
        sound(stash),
        flags@.len() == stash.len(),
        links@.len() == stash.len(),
        forall|i: int|
            0 <= i < stash.len() ==> (#[trigger] flags@[i] <==> included(stash, genesis, seeds, i)),
        forall|i: int|
            0 <= i < stash.len() && #[trigger] flags@[i] ==> parent_links(
                stash,
                genesis,
                i,
                links@[i]@,
            ),
    ensures
        match r {
            Some(order) => export_order(stash, genesis, seeds, positions(order@)),
            None => exists|knot: Set<int>| cyclic(stash, genesis, seeds, knot),
        },
{
    let mut emitted: Vec<bool> = Vec::new();
    let mut f: usize = 0;
    while f < flags.len()
        invariant
            f <= flags.len(),
            emitted@.len() == f,
            forall|i: int| 0 <= i < f ==> !#[trigger] emitted@[i],
        decreases flags.len() - f,
    {
        emitted.push(false);
        f = f + 1;
    }
    let mut order: Vec<usize> = Vec::new();
    loop
        invariant
            sound(stash),
            flags@.len() == stash.len(),
            links@.len() == stash.len(),
            emitted@.len() == stash.len(),
            forall|i: int|
                0 <= i < stash.len() ==> (#[trigger] flags@[i] <==> included(
                    stash,
                    genesis,
                    seeds,
                    i,
                )),
            forall|i: int|
                0 <= i < stash.len() && #[trigger] flags@[i] ==> parent_links(
                    stash,
                    genesis,
                    i,
                    links@[i]@,
                ),
            pending_positions(stash, emitted@, order@),
            forall|k: int|
                0 <= k < order@.len() ==> #[trigger] next_export(
                    stash,
                    genesis,
                    seeds,
                    positions(order@).take(k),
                    positions(order@)[k],
                ),
        decreases stash.len() - order@.len(),
    {
        let ghost before = order@;
        proof {
            lemma_pending_fits(stash, emitted@, order@);
        }
        match next_position(
            Ghost(stash),
            Ghost(genesis),
            Ghost(seeds),
            Ghost(order@),
            flags,
            links,
            &emitted,
        ) {
            Some(i) => {
                mark(Ghost(stash), &mut emitted, &mut order, i);
                proof {
                    lemma_pending_fits(stash, emitted@, order@);
                    let n = before.len() as int;
                    assert(positions(order@).take(n) =~= positions(before));
                    assert forall|k: int| 0 <= k < order@.len() implies #[trigger] next_export(
                        stash,
                        genesis,
                        seeds,
                        positions(order@).take(k),
                        positions(order@)[k],
                    ) by {
                        if k < n {
                            assert(positions(order@).take(k) =~= positions(before).take(k));
                            assert(positions(order@)[k] == positions(before)[k]);
                            assert(next_export(
                                stash,
                                genesis,
                                seeds,
                                positions(before).take(k),
                                positions(before)[k],
                            ));
                        }
                    }
                }
            },
            None => {
                return if all_emitted(flags, &emitted) {
                    proof {
                        lemma_all_emitted(stash, genesis, seeds, flags@, emitted@, order@);
                    }
                    Some(order)
                } else {
                    proof {
                        lemma_stuck_is_cyclic(
                            stash,
                            genesis,
                            seeds,
                            flags@,
                            links@,
                            emitted@,
                            order@,
                        );
                    }
                    None
                };
            },
        }
    }
}

/// Tests whether every included position has been emitted.
fn all_emitted(flags: &Vec<bool>, emitted: &Vec<bool>) -> (r: bool)
    requires
        flags@.len() == emitted@.len(),
    ensures
        r <==> forall|i: int| 0 <= i < flags@.len() && #[trigger] flags@[i] ==> emitted@[i],
{
    let mut i: usize = 0;
    while i < flags.len()
        invariant
            i <= flags.len(),
            flags@.len() == emitted@.len(),
            forall|k: int| 0 <= k < i && #[trigger] flags@[k] ==> emitted@[k],
        decreases flags.len() - i,
    {
        if flags[i] && !emitted[i] {
            return false;
        }
        i = i + 1;
    }
    true
}

/// When every included position has been emitted, the order is complete.
proof fn lemma_all_emitted(
    stash: Stash,
    genesis: Opid,
    seeds: Seq<Opid>,
    flags: Seq<bool>,
    emitted: Seq<bool>,
    order: Seq<usize>,
)
    requires
        flags.len() == stash.len(),
        emitted.len() == stash.len(),
        forall|i: int|
            0 <= i < stash.len() ==> (#[trigger] flags[i] <==> included(stash, genesis, seeds, i)),
        pending_positions(stash, emitted, order),
        forall|k: int|
            0 <= k < order.len() ==> #[trigger] next_export(
                stash,
                genesis,
                seeds,
                positions(order).take(k),
                positions(order)[k],
            ),
        forall|i: int| 0 <= i < flags.len() && #[trigger] flags[i] ==> emitted[i],
    ensures
        export_order(stash, genesis, seeds, positions(order)),
{
    let done = positions(order);
    lemma_emitted_positions(stash, emitted, order);
    assert forall|i: int| #[trigger] done.contains(i) <==> included(stash, genesis, seeds, i) by {
        if done.contains(i) {
            let k = choose|k: int| 0 <= k < done.len() && done[k] == i;
            assert(next_export(stash, genesis, seeds, done.take(k), done[k]));
        }
        if included(stash, genesis, seeds, i) {
            lemma_included_in_range(stash, genesis, seeds, i);
            assert(flags[i]);
            assert(emitted[i]);
        }
    }
}

/// When something is left and nothing is ready, what is left depends on itself.
proof fn lemma_stuck_is_cyclic(
    stash: Stash,
    genesis: Opid,
    seeds: Seq<Opid>,
    flags: Seq<bool>,
    links: Seq<Vec<usize>>,
    emitted: Seq<bool>,
    order: Seq<usize>,
)
    requires
        sound(stash),
        flags.len() == stash.len(),
        links.len() == stash.len(),
        emitted.len() == stash.len(),
        forall|i: int|
            0 <= i < stash.len() ==> (#[trigger] flags[i] <==> included(stash, genesis, seeds, i)),
        forall|i: int|
            0 <= i < stash.len() && #[trigger] flags[i] ==> parent_links(
                stash,
                genesis,
                i,
                links[i]@,
            ),
        pending_positions(stash, emitted, order),
        forall|i: int|
            0 <= i < stash.len() && #[trigger] flags[i] && !emitted[i] ==> !ready(
                stash,
                genesis,
                positions(order),
                i,
            ),
        exists|i: int| 0 <= i < flags.len() && #[trigger] flags[i] && !emitted[i],
    ensures
        exists|knot: Set<int>| cyclic(stash, genesis, seeds, knot),
{
    let done = positions(order);
    lemma_emitted_positions(stash, emitted, order);
    let knot = Set::new(|i: int| 0 <= i < stash.len() && flags[i] && !emitted[i]);
    let first = choose|i: int| 0 <= i < flags.len() && #[trigger] flags[i] && !emitted[i];
    assert(knot.contains(first));
    assert forall|i: int| knot.contains(i) implies #[trigger] included(stash, genesis, seeds, i)
        && exists|j: int| #[trigger]
        knot.contains(j) && stash[j].0 != genesis && stash[i].1.parents().contains(stash[j].0) by {
        assert(flags[i]);
        assert(!ready(stash, genesis, done, i));
        let p = choose|p: Opid| #[trigger]
            stash[i].1.parents().contains(p) && p != genesis && !exists|k: int|
                0 <= k < done.len() && stash[#[trigger] done[k]].0 == p;
        assert(parent_links(stash, genesis, i, links[i]@));
        let l = choose|l: int|
            0 <= l < links[i]@.len() && stash[(#[trigger] links[i]@[l]) as int].0 == p;
        let j = links[i]@[l] as int;
        lemma_parent_is_included(stash, genesis, seeds, i, j);
        assert(flags[j]);
        if emitted[j] {
            let k = choose|k: int| 0 <= k < done.len() && done[k] == j;
            assert(stash[done[k]].0 == p);
        }
        assert(knot.contains(j));
    }
    assert(cyclic(stash, genesis, seeds, knot));
}

impl ExportPlan {
    /// Plans the export of the seeds with all their ancestors but genesis.
    pub fn build(
        operations: Vec<(Opid, Operation)>,
        genesis_opid: Opid,
        seeds: Vec<Opid>,
    ) -> (r: Result<ExportPlan, ExportError>)
        requires
            forall|i: int|
                0 <= i < operations@.len() ==> (#[trigger] operations@[i]).1@.well_formed(),
        ensures
            build_outcome(stash_of(operations@), genesis_opid, seeds@, r),
    {
        let ghost stash = stash_of(operations@);
        if let Err(e) = check_keys(&operations) {
            return Err(e);
        }
        proof {
            lemma_faultless_stash_is_sound(stash);
        }
        let (flags, links) = match close_over_parents(&operations, genesis_opid, &seeds) {
            Err(e) => {
                return Err(e);
            },
            Ok(closure) => closure,
        };
        let order = match sort_positions(
            Ghost(stash),
            Ghost(genesis_opid),
            Ghost(seeds@),
            &flags,
            &links,
        ) {
            None => {
                return Err(ExportError::DependencyCycle);
            },
            Some(order) => order,
        };
        let mut planned_operations: Vec<(Opid, Operation)> = Vec::new();
        let mut k: usize = 0;
        while k < order.len()
            invariant
                k <= order.len(),
                stash == stash_of(operations@),
                export_order(stash, genesis_opid, seeds@, positions(order@)),
                stash_of(planned_operations@) == planned(stash, positions(order@).take(k as int)),
            decreases order.len() - k,
        {
            let index = order[k];
            proof {
                assert(next_export(
                    stash,
                    genesis_opid,
                    seeds@,
                    positions(order@).take(k as int),
                    positions(order@)[k as int],
                ));
                lemma_included_in_range(stash, genesis_opid, seeds@, index as int);
            }
            let ghost before = planned_operations@;
            planned_operations.push((operations[index].0, operations[index].1.duplicate()));
            proof {
                let upto = positions(order@).take(k as int);
                assert(positions(order@).take(k + 1) =~= upto.push(index as int));
                assert(planned(stash, upto.push(index as int)) =~= planned(stash, upto).push(
                    stash[index as int],
                ));
                assert(stash_of(planned_operations@) =~= stash_of(before).push(stash[index as int]));
            }
            k = k + 1;
        }
        proof {
            assert(positions(order@).take(order@.len() as int) =~= positions(order@));
        }
        Ok(ExportPlan { operations: planned_operations })
    }
}

} // verus!
