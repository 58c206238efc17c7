//! What every export keeps to: it holds the operations which stand behind the terminals and behind
//! the published state, with all their ancestors.

use crate::export::{
    build_outcome, holds, sound, stash_of, ExportError, ExportPlan, Stash,
};
use crate::export_laws::{
    law_built_plan_is_ordered, law_plan_holds_only_what_is_needed, law_producers_come_first,
    law_refused_plan_names_its_fault, law_seeds_are_exported, law_stash_in_order_is_exported,
};
use crate::ledger::genesis_of;
use crate::ledger_export::{
    contents, deeds_bytes, export_outcome, export_seeds, opids_of, ops_of, owns, plain_deeds_bytes,
    plain_export_outcome, publishes, publishes_custom, supplied, written,
};
use crate::stock::StockView;
use crate::types::{AuthToken, CellAddr, ContractId, Operation, Opid};
use vstd::prelude::*;

verus! {

/// A cell stands under a name which the default API publishes.
pub open spec fn published_cell(model: StockView, addr: CellAddr) -> bool {
    exists|i: int|
        {
            let name = (#[trigger] model.articles.semantics.default.published@[i])@;
            &&& 0 <= i < model.articles.semantics.default.published@.len()
            &&& model.state.main.global.contains_key(name)
            &&& model.state.main.global[name].contains_key(addr)
        }
}

/// A cell stands under a name which a custom API, of which there is a state, publishes.
pub open spec fn published_custom_cell(model: StockView, k: int, addr: CellAddr) -> bool {
    let (api_name, api) = model.articles.semantics.custom@[k];
    &&& 0 <= k < model.articles.semantics.custom@.len()
    &&& model.state.aux.contains_key(api_name@)
    &&& exists|i: int|
        {
            let name = (#[trigger] api.published@[i])@;
            &&& 0 <= i < api.published@.len()
            &&& model.state.aux[api_name@].global.contains_key(name)
            &&& model.state.aux[api_name@].global[name].contains_key(addr)
        }
}

/// Something asks for a cell: a terminal, or an API which publishes it.
pub open spec fn asked_for(model: StockView, terminals: Seq<AuthToken>, addr: CellAddr) -> bool {
    ||| exists|i: int|
        0 <= i < terminals.len() && model.state.raw.auth[#[trigger] terminals[i]] == addr
    ||| published_cell(model, addr)
    ||| exists|k: int| #[trigger] published_custom_cell(model, k, addr)
}

/// An export starts from the operation which made the cell under each of the terminals, and from
/// the one which made each cell which an API publishes, unless that is genesis; and from nothing
/// else.
pub proof fn law_export_starts_from_what_is_asked_for(model: StockView, terminals: Seq<AuthToken>)
    ensures
        forall|addr: CellAddr| #[trigger]
            asked_for(model, terminals, addr) && addr.opid != genesis_of(model) ==> export_seeds(
                model,
                terminals,
            ).contains(addr.opid),
        forall|opid: Opid| #[trigger]
            export_seeds(model, terminals).contains(opid) ==> opid != genesis_of(model)
                && exists|addr: CellAddr| #[trigger]
                asked_for(model, terminals, addr) && addr.opid == opid,
{
    let semantics = model.articles.semantics;
    assert forall|addr: CellAddr| #[trigger]
        asked_for(model, terminals, addr) && addr.opid != genesis_of(model) implies export_seeds(
        model,
        terminals,
    ).contains(addr.opid) by {
        let x = addr.opid;
        if exists|i: int|
            0 <= i < terminals.len() && model.state.raw.auth[#[trigger] terminals[i]] == addr {
            assert(owns(model.state.raw.auth, terminals, x));
        } else if published_cell(model, addr) {
            let i = choose|i: int|
                {
                    let name = (#[trigger] semantics.default.published@[i])@;
                    &&& 0 <= i < semantics.default.published@.len()
                    &&& model.state.main.global.contains_key(name)
                    &&& model.state.main.global[name].contains_key(addr)
                };
            assert(model.state.main.global[semantics.default.published@[i]@].contains_key(addr));
            assert(publishes(semantics.default.published@, model.state.main.global, x));
        } else {
            let k = choose|k: int| #[trigger] published_custom_cell(model, k, addr);
            let (api_name, api) = semantics.custom@[k];
            let global = model.state.aux[api_name@].global;
            let i = choose|i: int|
                {
                    let name = (#[trigger] api.published@[i])@;
                    &&& 0 <= i < api.published@.len()
                    &&& global.contains_key(name)
                    &&& global[name].contains_key(addr)
                };
            assert(global[api.published@[i]@].contains_key(addr));
            assert(publishes(api.published@, global, x));
            assert(publishes_custom(model, semantics.custom@.len() as int, x));
        }
    }
    assert forall|opid: Opid| #[trigger]
        export_seeds(model, terminals).contains(opid) implies opid != genesis_of(model) && exists|
        addr: CellAddr,
    | #[trigger]
        asked_for(model, terminals, addr) && addr.opid == opid by {
        if owns(model.state.raw.auth, terminals, opid) {
            let i = choose|i: int|
                0 <= i < terminals.len() && model.state.raw.auth[#[trigger] terminals[i]].opid
                    == opid;
            let addr = model.state.raw.auth[terminals[i]];
            assert(asked_for(model, terminals, addr));
        } else if publishes(semantics.default.published@, model.state.main.global, opid) {
            let published = semantics.default.published@;
            let global = model.state.main.global;
            let (i, addr) = choose|i: int, addr: CellAddr|
                {
                    &&& 0 <= i < published.len()
                    &&& global.contains_key((#[trigger] published[i])@)
                    &&& #[trigger] global[published[i]@].contains_key(addr)
                    &&& addr.opid == opid
                };
            assert(published_cell(model, addr));
            assert(asked_for(model, terminals, addr));
        } else {
            let k = choose|k: int|
                {
                    let (name, api) = #[trigger] semantics.custom@[k];
                    &&& 0 <= k < semantics.custom@.len()
                    &&& model.state.aux.contains_key(name@)
                    &&& publishes(api.published@, model.state.aux[name@].global, opid)
                };
            let (name, api) = semantics.custom@[k];
            let published = api.published@;
            let global = model.state.aux[name@].global;
            let (i, addr) = choose|i: int, addr: CellAddr|
                {
                    &&& 0 <= i < published.len()
                    &&& global.contains_key((#[trigger] published[i])@)
                    &&& #[trigger] global[published[i]@].contains_key(addr)
                    &&& addr.opid == opid
                };
            assert(published[i] == api.published@[i]);
            assert(published_custom_cell(model, k, addr));
            assert(asked_for(model, terminals, addr));
        }
    }
}

/// The exported operations hold the one which made each cell which is asked for, with all its
/// ancestors: each parent but genesis stands earlier. No operation comes twice, none is genesis,
/// each is in the stash, and each has made a cell which is asked for or is a parent of a later one.
pub open spec fn complete(model: StockView, terminals: Seq<AuthToken>, plan: Stash) -> bool {
    &&& forall|addr: CellAddr| #[trigger]
        asked_for(model, terminals, addr) && addr.opid != genesis_of(model) ==> holds(
            plan,
            addr.opid,
        )
    &&& forall|k: int, parent: Opid| #[trigger]
        plan[k].1.parents().contains(parent) && 0 <= k < plan.len() && parent != genesis_of(model)
            ==> exists|j: int| 0 <= j < k && (#[trigger] plan[j]).0 == parent
    &&& forall|i: int, j: int|
        0 <= i < j < plan.len() ==> (#[trigger] plan[i]).0 != (#[trigger] plan[j]).0
    &&& forall|k: int|
        0 <= k < plan.len() ==> model.stash.contains(#[trigger] plan[k]) && plan[k].0 != genesis_of(
            model,
        ) && (made_what_is_asked_for(model, terminals, plan[k].0) || exists|j: int|
            k < j < plan.len() && (#[trigger] plan[j]).1.parents().contains(plan[k].0))
}

/// The operation has made a cell which is asked for.
pub open spec fn made_what_is_asked_for(
    model: StockView,
    terminals: Seq<AuthToken>,
    opid: Opid,
) -> bool {
    exists|addr: CellAddr| #[trigger] asked_for(model, terminals, addr) && addr.opid == opid
}

/// A plan is complete.
proof fn lemma_plan_is_complete(
    model: StockView,
    terminals: Seq<AuthToken>,
    seeds: Seq<Opid>,
    plan: ExportPlan,
)
    requires
        seeds.to_set() == export_seeds(model, terminals),
        build_outcome(
            model.stash,
            genesis_of(model),
            seeds,
            Ok::<ExportPlan, ExportError>(plan),
        ),
    ensures
        complete(model, terminals, stash_of(plan.operations@)),
{
    let genesis = genesis_of(model);
    let ops = stash_of(plan.operations@);
    law_built_plan_is_ordered(model.stash, genesis, seeds, plan);
    law_export_starts_from_what_is_asked_for(model, terminals);
    law_refused_plan_names_its_fault(
        model.stash,
        genesis,
        seeds,
        Ok::<ExportPlan, ExportError>(plan),
    );
    assert forall|addr: CellAddr| #[trigger]
        asked_for(model, terminals, addr) && addr.opid != genesis implies holds(ops, addr.opid) by {
        assert(seeds.to_set().contains(addr.opid));
        assert(seeds.contains(addr.opid));
        law_seeds_are_exported(model.stash, genesis, seeds, ops, addr.opid);
    }
    assert forall|k: int, parent: Opid| #[trigger]
        ops[k].1.parents().contains(parent) && 0 <= k < ops.len() && parent
            != genesis implies exists|j: int| 0 <= j < k && (#[trigger] ops[j]).0 == parent by {
        law_producers_come_first(model.stash, genesis, seeds, ops, k, parent);
    }
    law_plan_holds_only_what_is_needed(model.stash, genesis, seeds, ops);
    assert forall|x: Opid| #[trigger] seeds.contains(x) implies made_what_is_asked_for(
        model,
        terminals,
        x,
    ) by {
        assert(seeds.to_set().contains(x));
    }
}

/// For every token in the list of the terminals, the operation which made the cell under that
/// token, unless it is genesis, is among the operations of an exported stream, with all its
/// ancestors; so are the producers of the published state. Nothing else is among them, and the
/// stream tells their number and holds their bytes one after another.
pub proof fn law_exported_stream_is_complete(
    model: StockView,
    id: ContractId,
    articles: Seq<u8>,
    terminals: Seq<AuthToken>,
    seeds: Seq<Opid>,
    stream: Vec<u8>,
)
    requires
        seeds.to_set() == export_seeds(model, terminals),
        plain_export_outcome(model, id, articles, seeds, Ok::<Vec<u8>, ExportError>(stream)),
    ensures
        exists|plan: Stash| #[trigger]
            complete(model, terminals, plan) && plan.len() <= u32::MAX && stream@
                == plain_deeds_bytes(id, articles, ops_of(plan)),
        forall|i: int|
            #![trigger terminals[i]]
            0 <= i < terminals.len() && model.state.raw.auth[terminals[i]].opid != genesis_of(model)
                ==> exists|plan: Stash| #[trigger]
                complete(model, terminals, plan) && holds(
                    plan,
                    model.state.raw.auth[terminals[i]].opid,
                ) && stream@ == plain_deeds_bytes(id, articles, ops_of(plan)),
{
    let genesis = genesis_of(model);
    let plan = choose|plan: Result<ExportPlan, ExportError>|
        {
            &&& #[trigger] build_outcome(model.stash, genesis, seeds, plan)
            &&& match plan {
                Err(e) => Ok::<Vec<u8>, ExportError>(stream) == Err::<Vec<u8>, ExportError>(e),
                Ok(plan) => plan.operations@.len() <= u32::MAX && stream@ == plain_deeds_bytes(
                    id,
                    articles,
                    ops_of(stash_of(plan.operations@)),
                ),
            }
        };
    let plan = plan->Ok_0;
    lemma_plan_is_complete(model, terminals, seeds, plan);
    let ops = stash_of(plan.operations@);
    assert(complete(model, terminals, ops));
    assert forall|i: int|
        #![trigger terminals[i]]
        0 <= i < terminals.len() && model.state.raw.auth[terminals[i]].opid
            != genesis implies exists|plan: Stash| #[trigger]
        complete(model, terminals, plan) && holds(
            plan,
            model.state.raw.auth[terminals[i]].opid,
        ) && stream@ == plain_deeds_bytes(id, articles, ops_of(plan)) by {
        assert(asked_for(model, terminals, model.state.raw.auth[terminals[i]]));
        assert(complete(model, terminals, ops));
    }
}

/// A stream with auxiliary data holds the same operations as one without them. After the articles it
/// has what the given function supplies for genesis, and after each operation what the function
/// supplies for that operation.
pub proof fn law_exported_stream_with_data_is_complete<F: Fn(Opid, &Operation) -> Vec<u8>>(
    model: StockView,
    id: ContractId,
    articles: Seq<u8>,
    terminals: Seq<AuthToken>,
    seeds: Seq<Opid>,
    aux: F,
    stream: Vec<u8>,
)
    requires
        seeds.to_set() == export_seeds(model, terminals),
        export_outcome(model, id, articles, seeds, aux, Ok::<Vec<u8>, ExportError>(stream)),
    ensures
        exists|plan: Seq<(Opid, Operation)>, genesis_data: Vec<u8>, data: Seq<Vec<u8>>|
            {
                &&& #[trigger] complete(model, terminals, stash_of(plan))
                &&& plan.len() <= u32::MAX
                &&& #[trigger] call_ensures(
                    aux,
                    (genesis_of(model), &model.articles.genesis),
                    genesis_data,
                )
                &&& data.len() == plan.len()
                &&& forall|i: int|
                    0 <= i < plan.len() ==> call_ensures(
                        aux,
                        (plan[i].0, &plan[i].1),
                        #[trigger] data[i],
                    )
                &&& stream@ == #[trigger] deeds_bytes(
                    id,
                    articles,
                    genesis_data@,
                    ops_of(stash_of(plan)),
                    contents(data),
                )
            },
{
    let genesis = genesis_of(model);
    let outcome = choose|plan: Result<ExportPlan, ExportError>|
        {
            &&& #[trigger] build_outcome(model.stash, genesis, seeds, plan)
            &&& match plan {
                Err(e) => Ok::<Vec<u8>, ExportError>(stream) == Err::<Vec<u8>, ExportError>(e),
                Ok(plan) => plan.operations@.len() <= u32::MAX && written(
                    model,
                    id,
                    articles,
                    plan.operations@,
                    aux,
                    stream@,
                ),
            }
        };
    let plan = outcome->Ok_0;
    lemma_plan_is_complete(model, terminals, seeds, plan);
    assert(complete(model, terminals, stash_of(plan.operations@)));
    let (genesis_data, data) = choose|genesis_data: Vec<u8>, data: Seq<Vec<u8>>|
        {
            &&& #[trigger] call_ensures(
                aux,
                (genesis_of(model), &model.articles.genesis),
                genesis_data,
            )
            &&& #[trigger] supplied(plan.operations@, aux, data)
            &&& stream@ == deeds_bytes(
                id,
                articles,
                genesis_data@,
                ops_of(stash_of(plan.operations@)),
                contents(data),
            )
        };
    assert(stream@ == deeds_bytes(
        id,
        articles,
        genesis_data@,
        ops_of(stash_of(plan.operations@)),
        contents(data),
    ));
}

/// An export of the whole contract holds every operation of the stash but genesis, each of them once,
/// and each after those whose cells it takes.
pub proof fn law_whole_export_leaves_nothing_out(
    model: StockView,
    id: ContractId,
    articles: Seq<u8>,
    stream: Vec<u8>,
)
    requires
        plain_export_outcome(
            model,
            id,
            articles,
            opids_of(model.stash),
            Ok::<Vec<u8>, ExportError>(stream),
        ),
    ensures
        exists|plan: Stash|
            {
                &&& stream@ == #[trigger] plain_deeds_bytes(id, articles, ops_of(plan))
                &&& plan.len() <= u32::MAX
                &&& forall|i: int|
                    0 <= i < model.stash.len() && (#[trigger] model.stash[i]).0 != genesis_of(model)
                        ==> plan.contains(model.stash[i])
                &&& forall|k: int|
                    0 <= k < plan.len() ==> model.stash.contains(#[trigger] plan[k]) && plan[k].0
                        != genesis_of(model)
                &&& forall|i: int, j: int|
                    0 <= i < j < plan.len() ==> (#[trigger] plan[i]).0 != (#[trigger] plan[j]).0
                &&& forall|k: int, parent: Opid| #[trigger]
                    plan[k].1.parents().contains(parent) && 0 <= k < plan.len() && parent
                        != genesis_of(model) ==> exists|j: int|
                        0 <= j < k && (#[trigger] plan[j]).0 == parent
            },
{
    let genesis = genesis_of(model);
    let seeds = opids_of(model.stash);
    let outcome = choose|plan: Result<ExportPlan, ExportError>|
        {
            &&& #[trigger] build_outcome(model.stash, genesis, seeds, plan)
            &&& match plan {
                Err(e) => Ok::<Vec<u8>, ExportError>(stream) == Err::<Vec<u8>, ExportError>(e),
                Ok(plan) => plan.operations@.len() <= u32::MAX && stream@ == plain_deeds_bytes(
                    id,
                    articles,
                    ops_of(stash_of(plan.operations@)),
                ),
            }
        };
    let plan = outcome->Ok_0;
    let ops = stash_of(plan.operations@);
    law_built_plan_is_ordered(model.stash, genesis, seeds, plan);
    law_refused_plan_names_its_fault(
        model.stash,
        genesis,
        seeds,
        Ok::<ExportPlan, ExportError>(plan),
    );
    law_plan_holds_only_what_is_needed(model.stash, genesis, seeds, ops);
    assert forall|i: int|
        0 <= i < model.stash.len() && (#[trigger] model.stash[i]).0 != genesis implies ops.contains(
        model.stash[i],
    ) by {
        let opid = model.stash[i].0;
        assert(seeds[i] == opid);
        assert(holds(model.stash, opid));
        law_seeds_are_exported(model.stash, genesis, seeds, ops, opid);
        let k = choose|k: int| 0 <= k < ops.len() && (#[trigger] ops[k]).0 == opid;
        assert(model.stash.contains(ops[k]));
        let j = choose|j: int| 0 <= j < model.stash.len() && model.stash[j] == ops[k];
        if i < j {
            assert(model.stash[i].0 != model.stash[j].0);
        } else if j < i {
            assert(model.stash[j].0 != model.stash[i].0);
        }
        assert(ops[k] == model.stash[i]);
    }
    assert forall|k: int, parent: Opid| #[trigger]
        ops[k].1.parents().contains(parent) && 0 <= k < ops.len() && parent
            != genesis implies exists|j: int| 0 <= j < k && (#[trigger] ops[j]).0 == parent by {
        law_producers_come_first(model.stash, genesis, seeds, ops, k, parent);
    }
    assert(stream@ == plain_deeds_bytes(id, articles, ops_of(ops)));
}

/// Lists of operations, of their ids and of their data have an entry for each one they are made of.
pub proof fn law_lists_keep_every_entry(
    operations: Seq<(Opid, Operation)>,
    stash: Stash,
    data: Seq<Vec<u8>>,
)
    ensures
        stash_of(operations).len() == operations.len(),
        forall|i: int|
            0 <= i < operations.len() ==> #[trigger] stash_of(operations)[i] == (
                operations[i].0,
                operations[i].1@,
            ),
        ops_of(stash).len() == stash.len() && opids_of(stash).len() == stash.len(),
        forall|i: int| 0 <= i < stash.len() ==> #[trigger] ops_of(stash)[i] == stash[i].1,
        forall|i: int| 0 <= i < stash.len() ==> #[trigger] opids_of(stash)[i] == stash[i].0,
        contents(data).len() == data.len(),
        forall|i: int| 0 <= i < data.len() ==> #[trigger] contents(data)[i] == data[i]@,
{
}

/// An export is refused for the fault which the plan names, or because there are more operations than
/// four bytes can tell. A stash in order, in which all the seeds are, is exported, unless it is so large.
pub proof fn law_stash_in_order_can_be_exported(
    model: StockView,
    id: ContractId,
    articles: Seq<u8>,
    seeds: Seq<Opid>,
    r: Result<Vec<u8>, ExportError>,
)
    requires
        plain_export_outcome(model, id, articles, seeds, r),
    ensures
        r matches Err(e) ==> e == ExportError::TooManyOperations || build_outcome(
            model.stash,
            genesis_of(model),
            seeds,
            Err::<ExportPlan, ExportError>(e),
        ),
        sound(model.stash) && (forall|i: int|
            0 <= i < seeds.len() ==> #[trigger] seeds[i] == genesis_of(model) || holds(
                model.stash,
                seeds[i],
            )) && (forall|i: int, p: Opid|
            0 <= i < model.stash.len() && #[trigger] model.stash[i].1.parents().contains(p) && p
                != genesis_of(model) ==> exists|j: int|
                0 <= j < i && (#[trigger] model.stash[j]).0 == p) && model.stash.len() <= u32::MAX
            ==> r is Ok,
{
    let genesis = genesis_of(model);
    let outcome = choose|plan: Result<ExportPlan, ExportError>|
        {
            &&& #[trigger] build_outcome(model.stash, genesis, seeds, plan)
            &&& match plan {
                Err(e) => r == Err::<Vec<u8>, ExportError>(e),
                Ok(plan) => if plan.operations@.len() > u32::MAX {
                    r == Err::<Vec<u8>, ExportError>(ExportError::TooManyOperations)
                } else {
                    r matches Ok(stream) && stream@ == plain_deeds_bytes(
                        id,
                        articles,
                        ops_of(stash_of(plan.operations@)),
                    )
                },
            }
        };
    if sound(model.stash) && (forall|i: int|
        0 <= i < seeds.len() ==> #[trigger] seeds[i] == genesis || holds(model.stash, seeds[i])) && (
    forall|i: int, p: Opid|
        0 <= i < model.stash.len() && #[trigger] model.stash[i].1.parents().contains(p) && p
            != genesis ==> exists|j: int| 0 <= j < i && (#[trigger] model.stash[j]).0 == p)
        && model.stash.len() <= u32::MAX {
        law_stash_in_order_is_exported(model.stash, genesis, seeds, outcome);
        let plan = outcome->Ok_0;
        let ops = stash_of(plan.operations@);
        law_built_plan_is_ordered(model.stash, genesis, seeds, plan);
        law_plan_holds_only_what_is_needed(model.stash, genesis, seeds, ops);
        lemma_no_more_than(ops, model.stash);
    }
}

/// Different entries of a list are no more than the list has.
proof fn lemma_no_more_than(some: Stash, all: Stash)
    requires
        forall|i: int, j: int|
            0 <= i < j < some.len() ==> (#[trigger] some[i]).0 != (#[trigger] some[j]).0,
        forall|k: int| 0 <= k < some.len() ==> all.contains(#[trigger] some[k]),
    ensures
        some.len() <= all.len(),
{
    assert(some.no_duplicates()) by {
        assert forall|i: int, j: int| 0 <= i < some.len() && 0 <= j < some.len() && i != j implies some[i]
            != some[j] by {
            if i < j {
                assert(some[i].0 != some[j].0);
            } else {
                assert(some[j].0 != some[i].0);
            }
        }
    }
    some.unique_seq_to_set();
    all.lemma_cardinality_of_set();
    assert(some.to_set().subset_of(all.to_set()));
    vstd::set_lib::lemma_len_subset(some.to_set(), all.to_set());
}

} // verus!
