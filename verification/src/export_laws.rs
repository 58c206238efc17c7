//! What every export plan keeps to.

use crate::chain::{discovered, extended, lemma_extended, with_link};
use crate::export::{
    ancestor_path, build_outcome, but_genesis, cyclic, export_order, first_lacking, holds, included,
    lacks, lemma_faultless_stash_is_sound, lemma_kept, next_export, parent_steps, planned, ready,
    seed_error, sound, stash_error, stash_of, ExportError, ExportPlan, Stash,
};
use crate::types::Opid;
use crate::ultra::committed_opid;
use vstd::prelude::*;

verus! {

/// The order behind a plan.
pub open spec fn is_plan(stash: Stash, genesis: Opid, seeds: Seq<Opid>, plan: Stash) -> bool {
    exists|order: Seq<int>| #[trigger]
        export_order(stash, genesis, seeds, order) && plan == planned(stash, order)
}

/// A built plan has an order behind it.
pub proof fn law_built_plan_is_ordered(
    stash: Stash,
    genesis: Opid,
    seeds: Seq<Opid>,
    plan: ExportPlan,
)
    requires
        build_outcome(stash, genesis, seeds, Ok::<ExportPlan, ExportError>(plan)),
    ensures
        is_plan(stash, genesis, seeds, stash_of(plan.operations@)),
{
}

/// Consumers receive every producer before the operations which read or destroy its cells: each
/// parent of a planned operation, but genesis, stands earlier in the plan.
pub proof fn law_producers_come_first(
    stash: Stash,
    genesis: Opid,
    seeds: Seq<Opid>,
    plan: Stash,
    k: int,
    parent: Opid,
)
    requires
        is_plan(stash, genesis, seeds, plan),
        0 <= k < plan.len(),
        plan[k].1.parents().contains(parent),
        parent != genesis,
    ensures
        exists|j: int| 0 <= j < k && (#[trigger] plan[j]).0 == parent,
{
    let order = choose|order: Seq<int>| #[trigger]
        export_order(stash, genesis, seeds, order) && plan == planned(stash, order);
    assert(next_export(stash, genesis, seeds, order.take(k), order[k]));
    assert(stash[order[k]].1.parents().contains(parent));
    let done = order.take(k);
    let j = choose|j: int| 0 <= j < done.len() && stash[#[trigger] done[j]].0 == parent;
    assert(plan[j] == stash[done[j]]);
}

/// Every seed but genesis is in the plan.
pub proof fn law_seeds_are_exported(
    stash: Stash,
    genesis: Opid,
    seeds: Seq<Opid>,
    plan: Stash,
    seed: Opid,
)
    requires
        is_plan(stash, genesis, seeds, plan),
        seeds.contains(seed),
        seed != genesis,
        holds(stash, seed),
    ensures
        holds(plan, seed),
{
    let order = choose|order: Seq<int>| #[trigger]
        export_order(stash, genesis, seeds, order) && plan == planned(stash, order);
    let i = choose|i: int| 0 <= i < stash.len() && (#[trigger] stash[i]).0 == seed;
    assert(ancestor_path(stash, genesis, seeds, seq![i]));
    assert(seq![i].last() == i);
    assert(included(stash, genesis, seeds, i));
    assert(order.contains(i));
    let k = choose|k: int| 0 <= k < order.len() && order[k] == i;
    assert(plan[k] == stash[i]);
}

/// A plan holds nothing but seeds and their ancestors, each of them once, and never genesis.
pub proof fn law_plan_holds_only_the_closure(
    stash: Stash,
    genesis: Opid,
    seeds: Seq<Opid>,
    plan: Stash,
    k: int,
)
    requires
        is_plan(stash, genesis, seeds, plan),
        0 <= k < plan.len(),
    ensures
        plan[k].0 != genesis,
        exists|i: int| #[trigger] included(stash, genesis, seeds, i) && plan[k] == stash[i],
{
    let order = choose|order: Seq<int>| #[trigger]
        export_order(stash, genesis, seeds, order) && plan == planned(stash, order);
    let i = order[k];
    assert(order.contains(i));
    assert(included(stash, genesis, seeds, i));
    let path = choose|path: Seq<int>| #[trigger]
        ancestor_path(stash, genesis, seeds, path) && path.last() == i;
    assert(path[path.len() - 1] == i);
}

/// The keys of a plan differ, and each of its operations is there for a reason: it is a seed, or it
/// is a parent of an operation which stands later in the plan.
pub proof fn law_plan_holds_only_what_is_needed(
    stash: Stash,
    genesis: Opid,
    seeds: Seq<Opid>,
    plan: Stash,
)
    requires
        is_plan(stash, genesis, seeds, plan),
        sound(stash),
    ensures
        forall|i: int, j: int|
            0 <= i < j < plan.len() ==> (#[trigger] plan[i]).0 != (#[trigger] plan[j]).0,
        forall|k: int|
            0 <= k < plan.len() ==> stash.contains(#[trigger] plan[k]) && plan[k].0 != genesis && (
            seeds.contains(plan[k].0) || exists|j: int|
                k < j < plan.len() && (#[trigger] plan[j]).1.parents().contains(plan[k].0)),
{
    let order = choose|order: Seq<int>| #[trigger]
        export_order(stash, genesis, seeds, order) && plan == planned(stash, order);
    assert forall|i: int, j: int| 0 <= i < j < plan.len() implies (#[trigger] plan[i]).0 != (
    #[trigger] plan[j]).0 by {
        assert(order.contains(order[i]) && order.contains(order[j]));
        lemma_in_range(stash, genesis, seeds, order[i]);
        lemma_in_range(stash, genesis, seeds, order[j]);
        assert(order[i] != order[j]);
    }
    assert forall|k: int| 0 <= k < plan.len() implies stash.contains(#[trigger] plan[k]) && plan[k].0
        != genesis && (seeds.contains(plan[k].0) || exists|j: int|
        k < j < plan.len() && (#[trigger] plan[j]).1.parents().contains(plan[k].0)) by {
        let i = order[k];
        assert(order.contains(i));
        assert(included(stash, genesis, seeds, i));
        let path = choose|path: Seq<int>| #[trigger]
            ancestor_path(stash, genesis, seeds, path) && path.last() == i;
        let n = path.len() as int;
        assert(path[n - 1] == i);
        assert(stash[i] == plan[k]);
        if n > 1 {
            let way = path.drop_last();
            assert forall|m: int| 0 <= m < way.len() implies way[m] == path[m] by {}
            assert(ancestor_path(stash, genesis, seeds, way));
            assert(way.last() == path[n - 2]);
            assert(included(stash, genesis, seeds, path[n - 2]));
            assert(order.contains(path[n - 2]));
            let j = choose|j: int| 0 <= j < order.len() && order[j] == path[n - 2];
            assert(stash[path[n - 2]].1.parents().contains(stash[path[n - 1]].0));
            assert(plan[j].1.parents().contains(plan[k].0));
            law_producers_come_first(stash, genesis, seeds, plan, j, plan[k].0);
            let d = choose|d: int| 0 <= d < j && (#[trigger] plan[d]).0 == plan[k].0;
            assert(d == k);
        }
    }
}

/// A plan is refused for what it says, and only then: a key which is not the id of its operation, a
/// key which repeats, a seed which is neither genesis nor in the stash, a parent which is absent, or
/// operations which depend on each other in a cycle.
pub proof fn law_refused_plan_names_its_fault(
    stash: Stash,
    genesis: Opid,
    seeds: Seq<Opid>,
    r: Result<ExportPlan, ExportError>,
)
    requires
        build_outcome(stash, genesis, seeds, r),
    ensures
        match r {
            Ok(_) => sound(stash) && forall|seed: Opid| #[trigger]
                seeds.contains(seed) ==> seed == genesis || holds(stash, seed),
            Err(ExportError::KeyMismatch { stored, committed }) => exists|i: int|
                0 <= i < stash.len() && (#[trigger] stash[i]).0 == stored && committed_opid(stash[i].1)
                    == committed && stored != committed && sound(stash.take(i)),
            Err(ExportError::DuplicateOperation { opid }) => exists|i: int, j: int|
                0 <= i < j < stash.len() && (#[trigger] stash[i]).0 == opid && (
                #[trigger] stash[j]).0 == opid && sound(stash.take(j)),
            Err(ExportError::MissingOperation { opid }) => opid != genesis && !holds(stash, opid)
                && exists|i: int|
                0 <= i < seeds.len() && #[trigger] seeds[i] == opid && forall|j: int|
                    0 <= j < i ==> #[trigger] seeds[j] == genesis || holds(stash, seeds[j]),
            Err(ExportError::MissingParent { opid, parent }) => parent != genesis && !holds(
                stash,
                parent,
            ) && exists|i: int|
                0 <= i < stash.len() && (#[trigger] stash[i]).0 == opid
                    && stash[i].1.parents().contains(parent),
            Err(ExportError::DependencyCycle) => exists|knot: Set<int>|
                cyclic(stash, genesis, seeds, knot),
            Err(ExportError::TooManyOperations) => false,
        },
        (exists|seed: Opid| #[trigger] seeds.contains(seed) && seed != genesis && !holds(stash, seed))
            ==> r is Err,
        !sound(stash) ==> r is Err,
{
    lemma_faultless_stash_is_sound(stash);
    lemma_stash_fault(stash);
    lemma_seed_fault(stash, genesis, seeds);
    if let Err(ExportError::MissingParent { opid, parent }) = r {
        let i = choose|i: int|
            #[trigger] included(stash, genesis, seeds, i) && stash[i].0 == opid
                && stash[i].1.parents().contains(parent) && parent != genesis && !holds(
                stash,
                parent,
            );
        lemma_in_range(stash, genesis, seeds, i);
        assert(stash[i].0 == opid);
    }
}

/// What a fault of the stash says.
proof fn lemma_stash_fault(stash: Stash)
    ensures
        match stash_error(stash) {
            None => true,
            Some(ExportError::KeyMismatch { stored, committed }) => exists|i: int|
                0 <= i < stash.len() && (#[trigger] stash[i]).0 == stored && committed_opid(stash[i].1)
                    == committed && stored != committed && sound(stash.take(i)),
            Some(ExportError::DuplicateOperation { opid }) => exists|i: int, j: int|
                0 <= i < j < stash.len() && (#[trigger] stash[i]).0 == opid && (
                #[trigger] stash[j]).0 == opid && sound(stash.take(j)),
            Some(_) => false,
        },
    decreases stash.len(),
{
    if stash.len() > 0 {
        let rest = stash.drop_last();
        let last = stash.len() - 1;
        lemma_stash_fault(rest);
        assert forall|i: int| 0 <= i < rest.len() implies rest[i] == stash[i] by {}
        let (stored, op) = stash.last();
        assert(stash[last] == (stored, op));
        match stash_error(rest) {
            Some(ExportError::KeyMismatch { stored, committed }) => {
                let i = choose|i: int|
                    0 <= i < rest.len() && (#[trigger] rest[i]).0 == stored && committed_opid(
                        rest[i].1,
                    ) == committed && stored != committed && sound(rest.take(i));
                assert(stash[i].0 == stored);
                assert(stash.take(i) =~= rest.take(i));
            },
            Some(ExportError::DuplicateOperation { opid }) => {
                let (i, j) = choose|i: int, j: int|
                    0 <= i < j < rest.len() && (#[trigger] rest[i]).0 == opid && (
                    #[trigger] rest[j]).0 == opid && sound(rest.take(j));
                assert(stash[i].0 == opid && stash[j].0 == opid);
                assert(stash.take(j) =~= rest.take(j));
            },
            _ => {
                lemma_faultless_stash_is_sound(rest);
                assert(stash.take(last) =~= rest);
                if holds(rest, stored) {
                    let i = choose|i: int| 0 <= i < rest.len() && (#[trigger] rest[i]).0 == stored;
                    assert(stash[i].0 == stored && stash[last].0 == stored);
                }
            },
        }
    }
}

/// What a fault of the seeds says.
proof fn lemma_seed_fault(stash: Stash, genesis: Opid, seeds: Seq<Opid>)
    ensures
        match seed_error(stash, genesis, seeds) {
            None => forall|seed: Opid| #[trigger]
                seeds.contains(seed) ==> seed == genesis || holds(stash, seed),
            Some(ExportError::MissingOperation { opid }) => opid != genesis && !holds(stash, opid)
                && exists|i: int|
                0 <= i < seeds.len() && #[trigger] seeds[i] == opid && forall|j: int|
                    0 <= j < i ==> #[trigger] seeds[j] == genesis || holds(stash, seeds[j]),
            Some(_) => false,
        },
    decreases seeds.len(),
{
    if seeds.len() > 0 {
        let rest = seeds.drop_last();
        lemma_seed_fault(stash, genesis, rest);
        assert forall|seed: Opid| #[trigger] seeds.contains(seed) implies rest.contains(seed) || seed
            == seeds.last() by {
            let i = choose|i: int| 0 <= i < seeds.len() && seeds[i] == seed;
            if i < rest.len() {
                assert(rest[i] == seed);
            }
        }
        if let Some(ExportError::MissingOperation { opid }) = seed_error(stash, genesis, rest) {
            let i = choose|i: int|
                0 <= i < rest.len() && #[trigger] rest[i] == opid && forall|j: int|
                    0 <= j < i ==> #[trigger] rest[j] == genesis || holds(stash, rest[j]);
            assert(seeds[i] == opid);
            assert forall|j: int| 0 <= j < i implies #[trigger] seeds[j] == genesis || holds(
                stash,
                seeds[j],
            ) by {
                assert(rest[j] == seeds[j]);
            }
        } else {
            assert forall|j: int| 0 <= j < rest.len() implies #[trigger] seeds[j] == genesis || holds(
                stash,
                seeds[j],
            ) by {
                assert(rest[j] == seeds[j]);
                assert(rest.contains(rest[j]));
            }
        }
        assert(seeds[seeds.len() - 1] == seeds.last());
    }
}

/// Every parent, but genesis, of an exported operation of the stash stands before it in the stash.
pub open spec fn dependency_ordered(stash: Stash, genesis: Opid, seeds: Seq<Opid>) -> bool {
    forall|i: int, p: Opid|
        #![trigger included(stash, genesis, seeds, i), stash[i].1.parents().contains(p)]
        included(stash, genesis, seeds, i) && stash[i].1.parents().contains(p) && p != genesis
            ==> exists|j: int|
            0 <= j < i && included(stash, genesis, seeds, j) && (#[trigger] stash[j]).0 == p
}

/// Of a dependency-ordered stash, the exported operations keep their order.
pub proof fn law_ordered_stash_keeps_its_order(
    stash: Stash,
    genesis: Opid,
    seeds: Seq<Opid>,
    order: Seq<int>,
    k: int,
    m: int,
)
    requires
        export_order(stash, genesis, seeds, order),
        dependency_ordered(stash, genesis, seeds),
        0 <= k < m < order.len(),
    ensures
        order[k] < order[m],
{
    // Were there a later position with a smaller number, the smallest one left at step `k` would
    // be ready there and would have gone first.
    let done = order.take(k);
    assert(next_export(stash, genesis, seeds, done, order[k]));
    assert(order.contains(order[m]));
    assert(included(stash, genesis, seeds, order[m]));
    assert(!done.contains(order[m])) by {
        if done.contains(order[m]) {
            let d = choose|d: int| 0 <= d < done.len() && done[d] == order[m];
            assert(order[d] == order[m]);
        }
    }
    lemma_nothing_smaller_is_left(stash, genesis, seeds, order, k, order[m]);
}

/// In a dependency-ordered stash nothing before the position emitted at step `k` is left.
proof fn lemma_nothing_smaller_is_left(
    stash: Stash,
    genesis: Opid,
    seeds: Seq<Opid>,
    order: Seq<int>,
    k: int,
    i: int,
)
    requires
        export_order(stash, genesis, seeds, order),
        dependency_ordered(stash, genesis, seeds),
        0 <= k < order.len(),
        included(stash, genesis, seeds, i),
        !order.take(k).contains(i),
        0 <= i,
    ensures
        order[k] <= i,
    decreases i,
{
    let done = order.take(k);
    assert(next_export(stash, genesis, seeds, done, order[k]));
    if !ready(stash, genesis, done, i) {
        let p = choose|p: Opid| #[trigger]
            stash[i].1.parents().contains(p) && p != genesis && !exists|d: int|
                0 <= d < done.len() && stash[#[trigger] done[d]].0 == p;
        let j = choose|j: int|
            0 <= j < i && included(stash, genesis, seeds, j) && (#[trigger] stash[j]).0 == p;
        if done.contains(j) {
            let d = choose|d: int| 0 <= d < done.len() && done[d] == j;
            assert(stash[done[d]].0 == p);
        }
        lemma_nothing_smaller_is_left(stash, genesis, seeds, order, k, j);
    }
}

/// Operations leave the order of the stash only for their producers: where a later one of the plan
/// stands earlier in the stash, one of its parents comes between, or is the one before which it stood.
pub proof fn law_plan_keeps_stash_order_where_it_can(
    stash: Stash,
    genesis: Opid,
    seeds: Seq<Opid>,
    order: Seq<int>,
    a: int,
    b: int,
)
    requires
        export_order(stash, genesis, seeds, order),
        0 <= a < b < order.len(),
        order[b] < order[a],
    ensures
        exists|c: int|
            a <= c < b && stash[order[b]].1.parents().contains(stash[#[trigger] order[c]].0),
{
    let early = order.take(a);
    let late = order.take(b);
    let x = order[b];
    assert(next_export(stash, genesis, seeds, order.take(a), order[a]));
    assert(next_export(stash, genesis, seeds, order.take(b), order[b]));
    assert(!early.contains(x)) by {
        if early.contains(x) {
            let d = choose|d: int| 0 <= d < early.len() && early[d] == x;
            assert(order[d] == order[b]);
        }
    }
    assert(!ready(stash, genesis, early, x));
    let p = choose|p: Opid| #[trigger]
        stash[x].1.parents().contains(p) && p != genesis && !exists|k: int|
            0 <= k < early.len() && stash[#[trigger] early[k]].0 == p;
    assert(ready(stash, genesis, late, x));
    let c = choose|c: int| 0 <= c < late.len() && stash[#[trigger] late[c]].0 == p;
    assert(late[c] == order[c]);
    if c < a {
        assert(early[c] == order[c]);
    }
    assert(stash[order[c]].0 == p);
}

/// An already dependency-ordered stash, all of which is exported, is emitted unchanged.
pub proof fn law_ordered_stash_is_emitted_unchanged(
    stash: Stash,
    genesis: Opid,
    seeds: Seq<Opid>,
    plan: Stash,
)
    requires
        is_plan(stash, genesis, seeds, plan),
        dependency_ordered(stash, genesis, seeds),
        forall|i: int| 0 <= i < stash.len() ==> #[trigger] included(stash, genesis, seeds, i),
    ensures
        plan == stash,
{
    let order = choose|order: Seq<int>| #[trigger]
        export_order(stash, genesis, seeds, order) && plan == planned(stash, order);
    assert forall|k: int, m: int| 0 <= k < m < order.len() implies order[k] < order[m] by {
        law_ordered_stash_keeps_its_order(stash, genesis, seeds, order, k, m);
    }
    assert forall|i: int| #[trigger] order.contains(i) <==> 0 <= i < stash.len() by {
        if included(stash, genesis, seeds, i) {
            let path = choose|path: Seq<int>| #[trigger]
                ancestor_path(stash, genesis, seeds, path) && path.last() == i;
            assert(path[path.len() - 1] == i);
        }
    }
    lemma_ascending_cover_is_identity(order, stash.len() as int);
    assert(plan =~= stash);
}

/// An ascending enumeration of `0..n` is the identity.
proof fn lemma_ascending_cover_is_identity(order: Seq<int>, n: int)
    requires
        0 <= n,
        forall|k: int, m: int| 0 <= k < m < order.len() ==> order[k] < order[m],
        forall|i: int| #[trigger] order.contains(i) <==> 0 <= i < n,
    ensures
        order.len() == n,
        forall|k: int| 0 <= k < n ==> #[trigger] order[k] == k,
    decreases n,
{
    if n == 0 {
        if order.len() > 0 {
            assert(order.contains(order[0]));
        }
    } else {
        assert(order.contains(n - 1));
        let last = choose|k: int| 0 <= k < order.len() && order[k] == n - 1;
        if last < order.len() - 1 {
            assert(order[last] < order[order.len() - 1]);
            assert(order.contains(order[order.len() - 1]));
        }
        let rest = order.drop_last();
        assert forall|i: int| #[trigger] rest.contains(i) <==> 0 <= i < n - 1 by {
            if rest.contains(i) {
                let k = choose|k: int| 0 <= k < rest.len() && rest[k] == i;
                assert(order.contains(order[k]));
                assert(order[k] < order[order.len() - 1]);
            }
            if 0 <= i < n - 1 {
                assert(order.contains(i));
                let k = choose|k: int| 0 <= k < order.len() && order[k] == i;
                assert(rest[k] == i);
            }
        }
        lemma_ascending_cover_is_identity(rest, n - 1);
        assert forall|k: int| 0 <= k < n implies #[trigger] order[k] == k by {
            if k < n - 1 {
                assert(rest[k] == order[k]);
            }
        }
    }
}

/// Unrelated operations keep their stash order: where no exported operation has a parent but
/// genesis, the plan goes by the stash positions.
pub proof fn law_unrelated_operations_keep_stash_order(
    stash: Stash,
    genesis: Opid,
    seeds: Seq<Opid>,
    order: Seq<int>,
    k: int,
    m: int,
)
    requires
        export_order(stash, genesis, seeds, order),
        forall|i: int, p: Opid|
            #![trigger included(stash, genesis, seeds, i), stash[i].1.parents().contains(p)]
            included(stash, genesis, seeds, i) && stash[i].1.parents().contains(p) ==> p == genesis,
        0 <= k < m < order.len(),
    ensures
        order[k] < order[m],
{
    law_ordered_stash_keeps_its_order(stash, genesis, seeds, order, k, m);
}

/// The order is unique, and so is the plan.
pub proof fn law_plan_is_unique(
    stash: Stash,
    genesis: Opid,
    seeds: Seq<Opid>,
    one: Stash,
    other: Stash,
)
    requires
        is_plan(stash, genesis, seeds, one),
        is_plan(stash, genesis, seeds, other),
    ensures
        one == other,
{
    let a = choose|order: Seq<int>| #[trigger]
        export_order(stash, genesis, seeds, order) && one == planned(stash, order);
    let b = choose|order: Seq<int>| #[trigger]
        export_order(stash, genesis, seeds, order) && other == planned(stash, order);
    assert(a.to_set() =~= b.to_set()) by {
        assert forall|i: int| a.to_set().contains(i) == b.to_set().contains(i) by {
            assert(a.contains(i) == b.contains(i));
        }
    }
    a.unique_seq_to_set();
    b.unique_seq_to_set();
    lemma_orders_agree(stash, genesis, seeds, a, b, a.len() as int);
    assert(a.take(a.len() as int) =~= a);
    assert(b.take(b.len() as int) =~= b);
}

/// Two orders agree on every prefix.
proof fn lemma_orders_agree(
    stash: Stash,
    genesis: Opid,
    seeds: Seq<Opid>,
    a: Seq<int>,
    b: Seq<int>,
    n: int,
)
    requires
        export_order(stash, genesis, seeds, a),
        export_order(stash, genesis, seeds, b),
        a.len() == b.len(),
        0 <= n <= a.len(),
    ensures
        a.take(n) == b.take(n),
    decreases n,
{
    if n > 0 {
        lemma_orders_agree(stash, genesis, seeds, a, b, n - 1);
        assert(next_export(stash, genesis, seeds, a.take(n - 1), a[n - 1]));
        assert(next_export(stash, genesis, seeds, b.take(n - 1), b[n - 1]));
        assert(a[n - 1] <= b[n - 1]);
        assert(b[n - 1] <= a[n - 1]);
        assert(a.take(n) =~= a.take(n - 1).push(a[n - 1]));
        assert(b.take(n) =~= b.take(n - 1).push(b[n - 1]));
    }
}

/// Operations which depend on each other in a cycle have no order: a stash which holds them is
/// never exported.
pub proof fn law_cycle_excludes_plan(
    stash: Stash,
    genesis: Opid,
    seeds: Seq<Opid>,
    knot: Set<int>,
    plan: Stash,
)
    requires
        cyclic(stash, genesis, seeds, knot),
        sound(stash),
    ensures
        !is_plan(stash, genesis, seeds, plan),
{
    if is_plan(stash, genesis, seeds, plan) {
        let order = choose|order: Seq<int>| #[trigger]
            export_order(stash, genesis, seeds, order) && plan == planned(stash, order);
        let i = choose|i: int| knot.contains(i);
        assert(included(stash, genesis, seeds, i));
        assert(order.contains(i));
        let k = choose|k: int| 0 <= k < order.len() && order[k] == i;
        lemma_knot_never_starts(stash, genesis, seeds, knot, order, k);
    }
}

/// No position of the knot can be emitted at any step.
proof fn lemma_knot_never_starts(
    stash: Stash,
    genesis: Opid,
    seeds: Seq<Opid>,
    knot: Set<int>,
    order: Seq<int>,
    k: int,
)
    requires
        cyclic(stash, genesis, seeds, knot),
        export_order(stash, genesis, seeds, order),
        sound(stash),
        0 <= k < order.len(),
    ensures
        !knot.contains(order[k]),
    decreases k,
{
    if knot.contains(order[k]) {
        let done = order.take(k);
        assert(next_export(stash, genesis, seeds, done, order[k]));
        let j = choose|j: int| #[trigger]
            knot.contains(j) && stash[j].0 != genesis && stash[order[k]].1.parents().contains(stash[j].0);
        assert(ready(stash, genesis, done, order[k]));
        let d = choose|d: int| 0 <= d < done.len() && stash[#[trigger] done[d]].0 == stash[j].0;
        assert(order[d] == done[d]);
        assert(order.contains(order[d]));
        assert(included(stash, genesis, seeds, order[d]));
        assert(included(stash, genesis, seeds, j));
        lemma_in_range(stash, genesis, seeds, order[d]);
        lemma_in_range(stash, genesis, seeds, j);
        assert(order[d] == j);
        lemma_knot_never_starts(stash, genesis, seeds, knot, order, d);
    }
}

/// An included position is one of the stash.
proof fn lemma_in_range(stash: Stash, genesis: Opid, seeds: Seq<Opid>, i: int)
    requires
        included(stash, genesis, seeds, i),
    ensures
        0 <= i < stash.len(),
{
    let path = choose|path: Seq<int>| #[trigger]
        ancestor_path(stash, genesis, seeds, path) && path.last() == i;
    assert(path[path.len() - 1] == i);
}

/// A stash in which every operation is under its own id, and in which the producers, but genesis, stand
/// before those which take their cells, can be exported from any seeds which are in it.
pub proof fn law_stash_in_order_is_exported(
    stash: Stash,
    genesis: Opid,
    seeds: Seq<Opid>,
    r: Result<ExportPlan, ExportError>,
)
    requires
        build_outcome(stash, genesis, seeds, r),
        sound(stash),
        forall|i: int| 0 <= i < seeds.len() ==> #[trigger] seeds[i] == genesis || holds(
            stash,
            seeds[i],
        ),
        forall|i: int, p: Opid|
            0 <= i < stash.len() && #[trigger] stash[i].1.parents().contains(p) && p != genesis
                ==> exists|j: int| 0 <= j < i && (#[trigger] stash[j]).0 == p,
    ensures
        r is Ok,
{
    law_refused_plan_names_its_fault(stash, genesis, seeds, r);
    match r {
        Err(ExportError::KeyMismatch { stored, committed }) => {
            let i = choose|i: int|
                0 <= i < stash.len() && (#[trigger] stash[i]).0 == stored && committed_opid(stash[i].1)
                    == committed && stored != committed && sound(stash.take(i));
            assert(stash[i].0 == committed_opid(stash[i].1));
        },
        Err(ExportError::DuplicateOperation { opid }) => {
            let (i, j) = choose|i: int, j: int|
                0 <= i < j < stash.len() && (#[trigger] stash[i]).0 == opid && (
                #[trigger] stash[j]).0 == opid && sound(stash.take(j));
            assert(stash[i].0 != stash[j].0);
        },
        Err(ExportError::MissingOperation { opid }) => {
            let i = choose|i: int|
                0 <= i < seeds.len() && #[trigger] seeds[i] == opid && forall|j: int|
                    0 <= j < i ==> #[trigger] seeds[j] == genesis || holds(stash, seeds[j]);
            assert(seeds[i] == genesis || holds(stash, seeds[i]));
        },
        Err(ExportError::MissingParent { opid, parent }) => {
            let i = choose|i: int|
                0 <= i < stash.len() && (#[trigger] stash[i]).0 == opid
                    && stash[i].1.parents().contains(parent);
            let j = choose|j: int| 0 <= j < i && (#[trigger] stash[j]).0 == parent;
            assert(holds(stash, parent));
        },
        Err(ExportError::DependencyCycle) => {
            let knot = choose|knot: Set<int>| cyclic(stash, genesis, seeds, knot);
            let i = choose|i: int| knot.contains(i);
            lemma_knot_goes_back(stash, genesis, seeds, knot, i);
        },
        Err(ExportError::TooManyOperations) => {},
        Ok(_) => {},
    }
}

/// In a stash in order nothing depends on itself.
proof fn lemma_knot_goes_back(
    stash: Stash,
    genesis: Opid,
    seeds: Seq<Opid>,
    knot: Set<int>,
    i: int,
)
    requires
        cyclic(stash, genesis, seeds, knot),
        sound(stash),
        forall|i: int, p: Opid|
            0 <= i < stash.len() && #[trigger] stash[i].1.parents().contains(p) && p != genesis
                ==> exists|j: int| 0 <= j < i && (#[trigger] stash[j]).0 == p,
    ensures
        !knot.contains(i),
    decreases i,
{
    if knot.contains(i) {
        assert(included(stash, genesis, seeds, i));
        lemma_in_range(stash, genesis, seeds, i);
        let j = choose|j: int| #[trigger]
            knot.contains(j) && stash[j].0 != genesis && stash[i].1.parents().contains(stash[j].0);
        assert(included(stash, genesis, seeds, j));
        lemma_in_range(stash, genesis, seeds, j);
        let d = choose|d: int| 0 <= d < i && (#[trigger] stash[d]).0 == stash[j].0;
        if d < j {
            assert(stash[d].0 != stash[j].0);
        } else if j < d {
            assert(stash[j].0 != stash[d].0);
        }
        lemma_knot_goes_back(stash, genesis, seeds, knot, j);
    }
}

/// Where parents are absent, the one which is named is the lowest of its operation. The operation is the
/// first seed which lacks a parent, if a seed does.
pub proof fn law_named_parent_is_met_first(
    stash: Stash,
    genesis: Opid,
    seeds: Seq<Opid>,
    opid: Opid,
    parent: Opid,
)
    requires
        build_outcome(
            stash,
            genesis,
            seeds,
            Err::<ExportPlan, ExportError>(ExportError::MissingParent { opid, parent }),
        ),
    ensures
        forall|i: int, p: Opid|
            0 <= i < stash.len() && (#[trigger] stash[i]).0 == opid
                && #[trigger] stash[i].1.parents().contains(p) && p != genesis && !holds(stash, p)
                ==> p == parent || parent.hi < p.hi || parent.hi == p.hi && parent.lo < p.lo,
        forall|j: int, i: int, p: Opid|
            0 <= j < seeds.len() && 0 <= i < stash.len() && #[trigger] seeds[j] == stash[i].0
                && seeds[j] != genesis && #[trigger] stash[i].1.parents().contains(p) && p != genesis
                && !holds(stash, p) ==> exists|m: int| 0 <= m <= j && #[trigger] seeds[m] == opid,
{
    let roots = but_genesis(seeds, genesis);
    lemma_stash_fault(stash);
    lemma_seed_fault(stash, genesis, seeds);
    assert(first_lacking(stash, genesis, seeds, opid, parent));
    let (chain, cuts, n) = choose|chain: Seq<Opid>, cuts: Seq<int>, n: int|
        {
            &&& #[trigger] discovered(roots, parent_steps(stash, genesis), chain, cuts, n)
            &&& n < chain.len() && chain[n] == opid
            &&& forall|k: int, p: Opid|
                0 <= k < n ==> !#[trigger] lacks(stash, genesis, chain[k], p)
            &&& lacks(stash, genesis, opid, parent)
            &&& forall|p: Opid| #[trigger]
                lacks(stash, genesis, opid, p) ==> p == parent || parent.precedes(p)
        };
    lemma_faultless_stash_is_sound(stash);
    assert forall|i: int, p: Opid|
        0 <= i < stash.len() && (#[trigger] stash[i]).0 == opid
            && #[trigger] stash[i].1.parents().contains(p) && p != genesis && !holds(
            stash,
            p,
        ) implies p == parent || parent.hi < p.hi || parent.hi == p.hi && parent.lo < p.lo by {
        lemma_kept(stash, i);
        assert(lacks(stash, genesis, opid, p));
    }
    assert forall|j: int, i: int, p: Opid|
        0 <= j < seeds.len() && 0 <= i < stash.len() && #[trigger] seeds[j] == stash[i].0 && seeds[j]
            != genesis && #[trigger] stash[i].1.parents().contains(p) && p != genesis && !holds(
            stash,
            p,
        ) implies exists|m: int| 0 <= m <= j && #[trigger] seeds[m] == opid by {
        lemma_kept(stash, i);
        let some = seeds.take(j + 1);
        let start = extended(Seq::empty(), but_genesis(some, genesis));
        lemma_roots_stand_first(seeds, genesis, j + 1);
        lemma_extended(Seq::empty(), but_genesis(some, genesis));
        lemma_but_genesis(some, genesis);
        assert(some[j] == seeds[j]);
        assert(start.contains(seeds[j]));
        let q = choose|q: int| 0 <= q < start.len() && start[q] == seeds[j];
        let front = chain.take(cuts[0]);
        assert(front == extended(Seq::empty(), roots));
        assert(start == front.subrange(0, start.len() as int));
        assert forall|k: int| 0 <= k < start.len() implies start[k] == #[trigger] chain[k] by {
            assert(start[k] == front[k]);
        }
        assert(lacks(stash, genesis, chain[q], p));
        assert(n <= q);
        assert(start[n] == opid);
        assert(start.contains(opid));
        assert(some.contains(opid));
        let m = choose|m: int| 0 <= m < some.len() && some[m] == opid;
        assert(seeds[m] == opid);
    }
}

/// The list without genesis has all the others.
proof fn lemma_but_genesis(list: Seq<Opid>, genesis: Opid)
    ensures
        forall|x: Opid| #[trigger]
            but_genesis(list, genesis).contains(x) <==> list.contains(x) && x != genesis,
    decreases list.len(),
{
    let kept = but_genesis(list, genesis);
    if list.len() > 0 {
        let less = list.drop_last();
        let last = list.last();
        let earlier = but_genesis(less, genesis);
        lemma_but_genesis(less, genesis);
        assert forall|x: Opid| #[trigger] kept.contains(x) <==> list.contains(x) && x != genesis by {
            assert(list.contains(x) <==> less.contains(x) || x == last) by {
                if list.contains(x) {
                    let i = choose|i: int| 0 <= i < list.len() && list[i] == x;
                    if i < less.len() {
                        assert(less[i] == x);
                    }
                }
                if less.contains(x) {
                    let i = choose|i: int| 0 <= i < less.len() && less[i] == x;
                    assert(list[i] == x);
                }
                assert(list[list.len() - 1] == last);
            }
            if last != genesis {
                assert(kept == earlier.push(last));
                if kept.contains(x) {
                    let i = choose|i: int| 0 <= i < kept.len() && kept[i] == x;
                    if i < earlier.len() {
                        assert(earlier[i] == x);
                    }
                }
                if earlier.contains(x) {
                    let i = choose|i: int| 0 <= i < earlier.len() && earlier[i] == x;
                    assert(kept[i] == x);
                }
                assert(kept[earlier.len() as int] == last);
            }
        }
    }
}

/// What is discovered of the first seeds stands before what is discovered of the others.
proof fn lemma_roots_stand_first(seeds: Seq<Opid>, genesis: Opid, n: int)
    requires
        0 <= n <= seeds.len(),
    ensures
        extended(Seq::empty(), but_genesis(seeds.take(n), genesis)).is_prefix_of(
            extended(Seq::empty(), but_genesis(seeds, genesis)),
        ),
    decreases seeds.len() - n,
{
    let start = extended(Seq::empty(), but_genesis(seeds.take(n), genesis));
    if n == seeds.len() {
        assert(seeds.take(n) =~= seeds);
        assert(start.subrange(0, start.len() as int) =~= start);
    } else {
        let more = seeds.take(n + 1);
        let next = extended(Seq::empty(), but_genesis(more, genesis));
        let whole = extended(Seq::empty(), but_genesis(seeds, genesis));
        lemma_roots_stand_first(seeds, genesis, n + 1);
        assert(more.drop_last() =~= seeds.take(n));
        let earlier = but_genesis(seeds.take(n), genesis);
        if more.last() != genesis {
            assert(earlier.push(more.last()).drop_last() =~= earlier);
            assert(next == with_link(start, more.last()));
        }
        assert(start =~= next.subrange(0, start.len() as int));
        assert(next == whole.subrange(0, next.len() as int));
        assert(start =~= whole.subrange(0, start.len() as int));
    }
}

} // verus!
