//! Export of a contract as a stream of deeds.

use crate::bytes::{little_endian, write_little_endian};
use crate::export::{
    build_outcome, export_order, planned, stash_of, ExportError, ExportPlan, Stash,
};
use crate::ledger::{genesis_of, Ledger};
use crate::opid_set::{ascending, OpidSet};
use crate::processed::{ProcessedState, StateAtom};
use crate::stock::{Stock, StockSession, StockView};
use crate::stream::{header_bytes, operation_bytes, operations_bytes, write_header};
use crate::types::{AuthToken, CellAddr, ContractId, Operation, OperationView, Opid};
use vstd::prelude::*;

verus! {

/// The bytes of operations, each of which is followed by its auxiliary data.
pub open spec fn entries_bytes(ops: Seq<OperationView>, aux: Seq<Seq<u8>>) -> Seq<u8>
    decreases ops.len(),
{
    if ops.len() == 0 {
        Seq::empty()
    } else {
        entries_bytes(ops.drop_last(), aux.drop_last()) + operation_bytes(ops.last()) + aux.last()
    }
}

/// The operations of a stash.
pub open spec fn ops_of(stash: Stash) -> Seq<OperationView> {
    stash.map_values(|entry: (Opid, OperationView)| entry.1)
}

/// The ids of the operations of a stash.
pub open spec fn opids_of(stash: Stash) -> Seq<Opid> {
    stash.map_values(|entry: (Opid, OperationView)| entry.0)
}

/// A stream of deeds with auxiliary data after the articles and after each operation.
pub open spec fn deeds_bytes(
    id: ContractId,
    articles: Seq<u8>,
    genesis_aux: Seq<u8>,
    ops: Seq<OperationView>,
    aux: Seq<Seq<u8>>,
) -> Seq<u8> {
    header_bytes(id) + articles + genesis_aux + little_endian(ops.len(), 4) + entries_bytes(ops, aux)
}

/// A stream of deeds without auxiliary data.
pub open spec fn plain_deeds_bytes(
    id: ContractId,
    articles: Seq<u8>,
    ops: Seq<OperationView>,
) -> Seq<u8> {
    header_bytes(id) + articles + little_endian(ops.len(), 4) + operations_bytes(ops)
}

/// Models of byte vectors.
pub open spec fn contents(list: Seq<Vec<u8>>) -> Seq<Seq<u8>> {
    list.map_values(|bytes: Vec<u8>| bytes@)
}

/// The stream holds the operations of a plan, with the auxiliary data which the given function
/// supplies for them.
pub open spec fn written<F: Fn(Opid, &Operation) -> Vec<u8>>(
    model: StockView,
    id: ContractId,
    articles: Seq<u8>,
    plan: Seq<(Opid, Operation)>,
    aux: F,
    stream: Seq<u8>,
) -> bool {
    exists|genesis_aux: Vec<u8>, list: Seq<Vec<u8>>|
        {
            &&& #[trigger] call_ensures(
                aux,
                (genesis_of(model), &model.articles.genesis),
                genesis_aux,
            )
            &&& #[trigger] supplied(plan, aux, list)
            &&& stream == deeds_bytes(
                id,
                articles,
                genesis_aux@,
                ops_of(stash_of(plan)),
                contents(list),
            )
        }
}

/// The auxiliary data are those which the given function supplies for the operations of a plan.
pub open spec fn supplied<F: Fn(Opid, &Operation) -> Vec<u8>>(
    plan: Seq<(Opid, Operation)>,
    aux: F,
    list: Seq<Vec<u8>>,
) -> bool {
    &&& list.len() == plan.len()
    &&& forall|i: int|
        0 <= i < list.len() ==> call_ensures(aux, (plan[i].0, &plan[i].1), #[trigger] list[i])
}

/// Outcome of an export.
pub open spec fn export_outcome<F: Fn(Opid, &Operation) -> Vec<u8>>(
    model: StockView,
    id: ContractId,
    articles: Seq<u8>,
    seeds: Seq<Opid>,
    aux: F,
    r: Result<Vec<u8>, ExportError>,
) -> bool {
    exists|plan: Result<ExportPlan, ExportError>|
        {
            &&& #[trigger] build_outcome(model.stash, genesis_of(model), seeds, plan)
            &&& match plan {
                Err(e) => r == Err::<Vec<u8>, ExportError>(e),
                Ok(plan) => if plan.operations@.len() > u32::MAX {
                    r == Err::<Vec<u8>, ExportError>(ExportError::TooManyOperations)
                } else {
                    r matches Ok(stream) && written(
                        model,
                        id,
                        articles,
                        plan.operations@,
                        aux,
                        stream@,
                    )
                },
            }
        }
}

/// Outcome of an export without auxiliary data.
pub open spec fn plain_export_outcome(
    model: StockView,
    id: ContractId,
    articles: Seq<u8>,
    seeds: Seq<Opid>,
    r: Result<Vec<u8>, ExportError>,
) -> bool {
    exists|plan: Result<ExportPlan, ExportError>|
        {
            &&& #[trigger] build_outcome(model.stash, genesis_of(model), seeds, plan)
            &&& match plan {
                Err(e) => r == Err::<Vec<u8>, ExportError>(e),
                Ok(plan) => if plan.operations@.len() > u32::MAX {
                    r == Err::<Vec<u8>, ExportError>(ExportError::TooManyOperations)
                } else {
                    r matches Ok(stream) && stream@ == plain_deeds_bytes(
                        id,
                        articles,
                        ops_of(stash_of(plan.operations@)),
                    )
                },
            }
        }
}

/// A producer of the published state.
pub open spec fn publishes(
    published: Seq<String>,
    global: Map<Seq<char>, Map<CellAddr, StateAtom>>,
    opid: Opid,
) -> bool {
    exists|i: int, addr: CellAddr|
        {
            &&& 0 <= i < published.len()
            &&& global.contains_key((#[trigger] published[i])@)
            &&& #[trigger] global[published[i]@].contains_key(addr)
            &&& addr.opid == opid
        }
}

/// A producer of the cells which the given tokens of authority control.
pub open spec fn owns(auth: Map<AuthToken, CellAddr>, terminals: Seq<AuthToken>, opid: Opid) -> bool {
    exists|i: int| 0 <= i < terminals.len() && auth[#[trigger] terminals[i]].opid == opid
}

/// A producer of the state which one of the first custom APIs publishes.
pub open spec fn publishes_custom(model: StockView, n: int, opid: Opid) -> bool {
    exists|k: int|
        {
            let (name, api) = #[trigger] model.articles.semantics.custom@[k];
            &&& 0 <= k < n
            &&& model.state.aux.contains_key(name@)
            &&& publishes(api.published@, model.state.aux[name@].global, opid)
        }
}

/// The operations from which an export starts: the producers of the terminals and of the published
/// state, but genesis.
pub open spec fn export_seeds(model: StockView, terminals: Seq<AuthToken>) -> Set<Opid> {
    Set::new(
        |opid: Opid|
            {
                &&& opid != genesis_of(model)
                &&& {
                    ||| owns(model.state.raw.auth, terminals, opid)
                    ||| publishes(
                        model.articles.semantics.default.published@,
                        model.state.main.global,
                        opid,
                    )
                    ||| publishes_custom(
                        model,
                        model.articles.semantics.custom@.len() as int,
                        opid,
                    )
                }
            },
    )
}

/// One of the cells is an output of an operation.
spec fn has_output(cells: Map<CellAddr, StateAtom>, opid: Opid) -> bool {
    exists|addr: CellAddr| #[trigger] cells.contains_key(addr) && addr.opid == opid
}

/// One of the first cells is an output of an operation.
spec fn output_among(items: Seq<(CellAddr, StateAtom)>, n: int, opid: Opid) -> bool {
    exists|k: int| 0 <= k < n && (#[trigger] items[k]).0.opid == opid
}

/// Adds the producers of the state which an API publishes.
fn collect(seeds: &mut OpidSet, published: &Vec<String>, state: &ProcessedState)
    requires
        old(seeds).well_formed(),
        state.well_formed(),
    ensures
        final(seeds).well_formed(),
        forall|opid: Opid|
            final(seeds).seq().contains(opid) <==> old(seeds).seq().contains(opid) || publishes(
                published@,
                state@.global,
                opid,
            ),
{
    let ghost before = seeds.seq();
    let ghost global = state@.global;
    let mut i: usize = 0;
    while i < published.len()
        invariant
            i <= published@.len(),
            state.well_formed(),
            global == state@.global,
            seeds.well_formed(),
            forall|opid: Opid|
                #[trigger] seeds.seq().contains(opid) <==> before.contains(opid) || publishes(
                    published@.take(i as int),
                    global,
                    opid,
                ),
        decreases published@.len() - i,
    {
        let ghost earlier = seeds.seq();
        let ghost name = published@[i as int]@;
        match state.global(&published[i]) {
            None => {},
            Some(cells) => {
                let mut j: usize = 0;
                while j < cells.len()
                    invariant
                        j <= cells.items().len(),
                        cells.well_formed(),
                        cells.content() == global[name],
                        seeds.well_formed(),
                        forall|opid: Opid|
                            #[trigger] seeds.seq().contains(opid) <==> earlier.contains(opid) || output_among(
                                cells.items(),
                                j as int,
                                opid,
                            ),
                    decreases cells.items().len() - j,
                {
                    let ghost prior = seeds.seq();
                    let opid = cells.at(j).0.opid;
                    seeds.insert(opid);
                    proof {
                        assert forall|x: Opid| #[trigger]
                            seeds.seq().contains(x) <==> earlier.contains(x) || output_among(
                                cells.items(),
                                j + 1,
                                x,
                            ) by {
                            assert(seeds.seq().to_set().contains(x) == prior.to_set().insert(
                                opid,
                            ).contains(x));
                            assert(prior.contains(x) <==> earlier.contains(x) || output_among(
                                cells.items(),
                                j as int,
                                x,
                            ));
                            lemma_among_step(cells.items(), j as int, x);
                        }
                    }
                    j = j + 1;
                }
                proof {
                    assert forall|x: Opid| #[trigger]
                        seeds.seq().contains(x) <==> earlier.contains(x) || has_output(
                            global[name],
                            x,
                        ) by {
                        if output_among(cells.items(), cells.items().len() as int, x) {
                            let k = choose|k: int|
                                0 <= k < cells.items().len() && (#[trigger] cells.items()[k]).0.opid
                                    == x;
                            cells.lemma_entry(k);
                            assert(global[name].contains_key(cells.items()[k].0));
                        }
                        if has_output(global[name], x) {
                            let addr = choose|addr: CellAddr| #[trigger]
                                global[name].contains_key(addr) && addr.opid == x;
                            let k = choose|k: int| #[trigger] cells.has_at(addr, k);
                            assert(cells.items()[k].0.opid == x);
                        }
                    }
                }
            },
        }
        proof {
            assert forall|x: Opid| #[trigger]
                seeds.seq().contains(x) <==> before.contains(x) || publishes(
                    published@.take(i + 1),
                    global,
                    x,
                ) by {
                lemma_publishes_step(published@, global, i as int, x);
                assert(earlier.contains(x) <==> before.contains(x) || publishes(
                    published@.take(i as int),
                    global,
                    x,
                ));
                if global.contains_key(name) {
                    assert(seeds.seq().contains(x) <==> earlier.contains(x) || has_output(
                        global[name],
                        x,
                    ));
                }
            }
        }
        i = i + 1;
    }
    assert(published@.take(published@.len() as int) =~= published@);
}

/// One more cell adds its producer.
proof fn lemma_among_step(items: Seq<(CellAddr, StateAtom)>, j: int, x: Opid)
    requires
        0 <= j < items.len(),
    ensures
        output_among(items, j + 1, x) == (output_among(items, j, x) || x == items[j].0.opid),
{
    if output_among(items, j + 1, x) {
        let k = choose|k: int| 0 <= k < j + 1 && (#[trigger] items[k]).0.opid == x;
        if k < j {
            assert(items[k].0.opid == x);
        }
    }
    if output_among(items, j, x) {
        let k = choose|k: int| 0 <= k < j && (#[trigger] items[k]).0.opid == x;
        assert(items[k].0.opid == x);
    }
    assert(items[j].0.opid == items[j].0.opid);
}

/// One more published name adds the producers of its cells.
proof fn lemma_publishes_step(
    published: Seq<String>,
    global: Map<Seq<char>, Map<CellAddr, StateAtom>>,
    i: int,
    x: Opid,
)
    requires
        0 <= i < published.len(),
    ensures
        publishes(published.take(i + 1), global, x) == (publishes(published.take(i), global, x) || (
        global.contains_key(published[i]@) && has_output(global[published[i]@], x))),
{
    let more = published.take(i + 1);
    let less = published.take(i);
    if publishes(more, global, x) {
        let (k, addr) = choose|k: int, addr: CellAddr|
            {
                &&& 0 <= k < more.len()
                &&& global.contains_key((#[trigger] more[k])@)
                &&& #[trigger] global[more[k]@].contains_key(addr)
                &&& addr.opid == x
            };
        if k < i {
            assert(less[k] == more[k]);
            assert(global[less[k]@].contains_key(addr));
        }
    }
    if publishes(less, global, x) {
        let (k, addr) = choose|k: int, addr: CellAddr|
            {
                &&& 0 <= k < less.len()
                &&& global.contains_key((#[trigger] less[k])@)
                &&& #[trigger] global[less[k]@].contains_key(addr)
                &&& addr.opid == x
            };
        assert(less[k] == more[k]);
        assert(global[more[k]@].contains_key(addr));
    }
    assert(more[i] == published[i]);
}

/// One more custom API adds the producers of the state which it publishes.
proof fn lemma_custom_step(model: StockView, k: int, x: Opid)
    requires
        0 <= k < model.articles.semantics.custom@.len(),
    ensures
        publishes_custom(model, k + 1, x) == (publishes_custom(model, k, x) || {
            let (name, api) = model.articles.semantics.custom@[k];
            &&& model.state.aux.contains_key(name@)
            &&& publishes(api.published@, model.state.aux[name@].global, x)
        }),
{
    let custom = model.articles.semantics.custom@;
    if publishes_custom(model, k + 1, x) {
        let m = choose|m: int|
            {
                let (name, api) = #[trigger] custom[m];
                &&& 0 <= m < k + 1
                &&& model.state.aux.contains_key(name@)
                &&& publishes(api.published@, model.state.aux[name@].global, x)
            };
        if m < k {
            assert(custom[m].0@ == custom[m].0@);
        }
    }
    if publishes_custom(model, k, x) {
        let m = choose|m: int|
            {
                let (name, api) = #[trigger] custom[m];
                &&& 0 <= m < k
                &&& model.state.aux.contains_key(name@)
                &&& publishes(api.published@, model.state.aux[name@].global, x)
            };
        assert(custom[m].0@ == custom[m].0@);
    }
    assert(custom[k].0@ == custom[k].0@);
}

/// The operations of a plan are well-formed, as those of the stash are.
proof fn lemma_plan_well_formed(
    stash: Stash,
    genesis: Opid,
    seeds: Seq<Opid>,
    operations: Seq<(Opid, Operation)>,
)
    requires
        forall|i: int| 0 <= i < stash.len() ==> (#[trigger] stash[i]).1.well_formed(),
        exists|order: Seq<int>| #[trigger]
            export_order(stash, genesis, seeds, order) && stash_of(operations) == planned(
                stash,
                order,
            ),
    ensures
        forall|i: int| 0 <= i < operations.len() ==> (#[trigger] operations[i]).1@.well_formed(),
{
    let order = choose|order: Seq<int>| #[trigger]
        export_order(stash, genesis, seeds, order) && stash_of(operations) == planned(stash, order);
    assert forall|i: int| 0 <= i < operations.len() implies (
    #[trigger] operations[i]).1@.well_formed() by {
        assert(stash_of(operations).len() == operations.len());
        assert(planned(stash, order).len() == order.len());
        assert(stash_of(operations)[i] == (operations[i].0, operations[i].1@));
        assert(planned(stash, order)[i] == stash[order[i]]);
        assert(order.contains(order[i]));
        assert(0 <= order[i] < stash.len());
    }
}

/// Without auxiliary data only the operations are left.
proof fn lemma_plain_entries(ops: Seq<OperationView>, aux: Seq<Seq<u8>>)
    requires
        ops.len() == aux.len(),
        forall|i: int| 0 <= i < aux.len() ==> (#[trigger] aux[i]).len() == 0,
    ensures
        entries_bytes(ops, aux) == operations_bytes(ops),
    decreases ops.len(),
{
    if ops.len() > 0 {
        lemma_plain_entries(ops.drop_last(), aux.drop_last());
        let last = operation_bytes(ops.last());
        assert(aux[aux.len() - 1].len() == 0);
        assert(operations_bytes(ops.drop_last()) + last + aux.last() =~= operations_bytes(
            ops.drop_last(),
        ) + last);
    }
}

impl<S: Stock> Ledger<S> {
    /// The operations from which an export starts, in the ascending order: the producers of the
    /// terminals and of the published state, but genesis.
    fn roots(&self, terminals: &Vec<AuthToken>) -> (r: Vec<Opid>)
        requires
            forall|i: int|
                0 <= i < terminals@.len() ==> self.model().state.raw.auth.contains_key(
                    #[trigger] terminals@[i],
                ),
        ensures
            ascending(r@),
            r@.to_set() =~= export_seeds(self.model(), terminals@),
    {
        let ghost model = self.model();
        let articles = self.articles();
        let state = self.state();
        let ghost custom = articles.semantics.custom@;
        let mut seeds = OpidSet::new();
        let mut i: usize = 0;
        while i < terminals.len()
            invariant
                i <= terminals@.len(),
                state@ == model.state,
                forall|k: int|
                    0 <= k < terminals@.len() ==> model.state.raw.auth.contains_key(
                        #[trigger] terminals@[k],
                    ),
                seeds.well_formed(),
                forall|x: Opid| #[trigger]
                    seeds.seq().contains(x) <==> owns(
                        model.state.raw.auth,
                        terminals@.take(i as int),
                        x,
                    ),
            decreases terminals@.len() - i,
        {
            let ghost prior = seeds.seq();
            let opid = state.addr(terminals[i]).opid;
            seeds.insert(opid);
            proof {
                let less = terminals@.take(i as int);
                let more = terminals@.take(i + 1);
                let auth = model.state.raw.auth;
                assert forall|x: Opid| #[trigger] seeds.seq().contains(x) <==> owns(auth, more, x) by {
                    assert(seeds.seq().to_set().contains(x) == prior.to_set().insert(opid).contains(x));
                    assert(prior.contains(x) <==> owns(auth, less, x));
                    if owns(auth, more, x) {
                        let k = choose|k: int| 0 <= k < more.len() && auth[#[trigger] more[k]].opid == x;
                        if k < i {
                            assert(less[k] == more[k]);
                        }
                    }
                    if owns(auth, less, x) {
                        let k = choose|k: int| 0 <= k < less.len() && auth[#[trigger] less[k]].opid == x;
                        assert(less[k] == more[k]);
                    }
                    assert(more[i as int] == terminals@[i as int]);
                }
            }
            i = i + 1;
        }
        let ghost first = seeds.seq();
        assert(terminals@.take(terminals@.len() as int) =~= terminals@);
        collect(&mut seeds, &articles.semantics.default.published, &state.main);
        let ghost base = seeds.seq();
        let mut k: usize = 0;
        while k < articles.semantics.custom.len()
            invariant
                k <= custom.len(),
                custom == articles.semantics.custom@,
                *articles == model.articles,
                state@ == model.state,
                state.well_formed(),
                seeds.well_formed(),
                forall|x: Opid| #[trigger]
                    seeds.seq().contains(x) <==> base.contains(x) || publishes_custom(
                        model,
                        k as int,
                        x,
                    ),
            decreases custom.len() - k,
        {
            let ghost prior = seeds.seq();
            match state.aux.get(&articles.semantics.custom[k].0) {
                None => {},
                Some(aux) => {
                    proof {
                        let j = choose|j: int| #[trigger] state.aux.has_at(custom[k as int].0@, j);
                        state.aux.lemma_entry(j);
                        assert(state.aux.items()[j].1.well_formed());
                    }
                    collect(&mut seeds, &articles.semantics.custom[k].1.published, aux);
                },
            }
            proof {
                assert forall|x: Opid| #[trigger]
                    seeds.seq().contains(x) <==> base.contains(x) || publishes_custom(
                        model,
                        k + 1,
                        x,
                    ) by {
                    lemma_custom_step(model, k as int, x);
                    assert(prior.contains(x) <==> base.contains(x) || publishes_custom(
                        model,
                        k as int,
                        x,
                    ));
                }
            }
            k = k + 1;
        }
        let ghost whole = seeds.seq();
        let genesis = articles.genesis_opid();
        seeds.remove(genesis);
        let mut list: Vec<Opid> = Vec::new();
        let mut n: usize = 0;
        while n < seeds.len()
            invariant
                n <= seeds.seq().len(),
                list@ == seeds.seq().take(n as int),
            decreases seeds.seq().len() - n,
        {
            list.push(seeds.get(n));
            n = n + 1;
            assert(list@ =~= seeds.seq().take(n as int));
        }
        proof {
            assert(list@ =~= seeds.seq());
            assert forall|x: Opid| list@.to_set().contains(x) == export_seeds(
                model,
                terminals@,
            ).contains(x) by {
                assert(seeds.seq().to_set().contains(x) == whole.to_set().remove(genesis).contains(x));
                assert(whole.contains(x) <==> base.contains(x) || publishes_custom(
                    model,
                    custom.len() as int,
                    x,
                ));
                assert(first.contains(x) <==> owns(model.state.raw.auth, terminals@, x));
            }
        }
        list
    }

    /// Writes the operations of a plan as a stream of deeds.
    fn export_ordered<F: Fn(Opid, &Operation) -> Vec<u8>>(
        &self,
        plan: ExportPlan,
        articles: &Vec<u8>,
        aux: &F,
    ) -> (r: Result<Vec<u8>, ExportError>)
        requires
            forall|i: int|
                0 <= i < plan.operations@.len() ==> (
                #[trigger] plan.operations@[i]).1@.well_formed(),
            forall|opid: Opid, op: Operation| #[trigger] call_requires(*aux, (opid, &op)),
        ensures
            if plan.operations@.len() > u32::MAX {
                r == Err::<Vec<u8>, ExportError>(ExportError::TooManyOperations)
            } else {
                r matches Ok(stream) && written(
                    self.model(),
                    self.id(),
                    articles@,
                    plan.operations@,
                    *aux,
                    stream@,
                )
            },
    {
        let ghost model = self.model();
        let operations = plan.operations;
        if operations.len() > u32::MAX as usize {
            return Err(ExportError::TooManyOperations);
        }
        let genesis_opid = self.articles().genesis_opid();
        let mut stream: Vec<u8> = Vec::new();
        write_header(&mut stream, self.contract_id());
        let mut copy = articles.clone();
        stream.append(&mut copy);
        let mut extra = aux(genesis_opid, &self.articles().genesis);
        let ghost genesis_aux = extra;
        stream.append(&mut extra);
        write_little_endian(&mut stream, operations.len() as u128, 4);
        let ghost start = stream@;
        let ghost mut list: Seq<Vec<u8>> = Seq::empty();
        let ghost ops = ops_of(stash_of(operations@));
        let mut i: usize = 0;
        proof {
            assert(start =~= header_bytes(self.id()) + articles@ + genesis_aux@ + little_endian(
                ops.len(),
                4,
            ));
            assert(start + entries_bytes(ops.take(0), contents(list)) =~= start);
        }
        while i < operations.len()
            invariant
                i <= operations@.len(),
                ops == ops_of(stash_of(operations@)),
                forall|k: int|
                    0 <= k < operations@.len() ==> (#[trigger] operations@[k]).1@.well_formed(),
                forall|opid: Opid, op: Operation| #[trigger] call_requires(*aux, (opid, &op)),
                list.len() == i,
                forall|k: int|
                    0 <= k < list.len() ==> call_ensures(
                        *aux,
                        (operations@[k].0, &operations@[k].1),
                        #[trigger] list[k],
                    ),
                stream@ == start + entries_bytes(ops.take(i as int), contents(list)),
            decreases operations@.len() - i,
        {
            let ghost before = stream@;
            let mut bytes = operations[i].1.to_bytes();
            let ghost written = bytes@;
            stream.append(&mut bytes);
            let mut extra = aux(operations[i].0, &operations[i].1);
            let ghost given = extra;
            stream.append(&mut extra);
            proof {
                let longer = list.push(given);
                assert(contents(longer).drop_last() =~= contents(list));
                assert(contents(longer).last() == given@);
                assert(ops.take(i + 1).drop_last() =~= ops.take(i as int));
                assert(stash_of(operations@)[i as int].1 == operations@[i as int].1@);
                assert(ops.take(i + 1).last() == operations@[i as int].1@);
                let earlier = entries_bytes(ops.take(i as int), contents(list));
                assert(start + (earlier + written + given@) =~= (start + earlier) + written + given@);
                list = longer;
            }
            i = i + 1;
        }
        proof {
            assert(ops.take(ops.len() as int) =~= ops);
            assert(supplied(operations@, *aux, list));
            assert(call_ensures(*aux, (genesis_of(model), &model.articles.genesis), genesis_aux));
        }
        Ok(stream)
    }

    /// Exports all the operations, with auxiliary data.
    pub fn export_all_aux<F: Fn(Opid, &Operation) -> Vec<u8>>(
        &mut self,
        articles: &Vec<u8>,
        aux: &F,
    ) -> (r: Result<Vec<u8>, ExportError>)
        requires
            forall|opid: Opid, op: Operation| #[trigger] call_requires(*aux, (opid, &op)),
        ensures
            final(self).model() == old(self).model(),
            final(self).id() == old(self).id(),
            final(self).configuration() == old(self).configuration(),
            export_outcome(
                old(self).model(),
                old(self).id(),
                articles@,
                opids_of(old(self).model().stash),
                *aux,
                r,
            ),
    {
        let operations = self.session().operations();
        let mut seeds: Vec<Opid> = Vec::new();
        let ghost stash = self.model().stash;
        let mut i: usize = 0;
        while i < operations.len()
            invariant
                i <= operations@.len(),
                stash_of(operations@) == stash,
                seeds@ == opids_of(stash).take(i as int),
            decreases operations@.len() - i,
        {
            seeds.push(operations[i].0);
            assert(stash[i as int].0 == operations@[i as int].0);
            assert(seeds@ =~= opids_of(stash).take(i + 1));
            i = i + 1;
        }
        assert(seeds@ =~= opids_of(stash));
        self.export_seeds(operations, seeds, articles, aux)
    }

    /// Exports the seeds with all their ancestors, with auxiliary data.
    fn export_seeds<F: Fn(Opid, &Operation) -> Vec<u8>>(
        &self,
        operations: Vec<(Opid, Operation)>,
        seeds: Vec<Opid>,
        articles: &Vec<u8>,
        aux: &F,
    ) -> (r: Result<Vec<u8>, ExportError>)
        requires
            stash_of(operations@) == self.model().stash,
            forall|i: int|
                0 <= i < operations@.len() ==> (#[trigger] operations@[i]).1@.well_formed(),
            forall|opid: Opid, op: Operation| #[trigger] call_requires(*aux, (opid, &op)),
        ensures
            export_outcome(self.model(), self.id(), articles@, seeds@, *aux, r),
    {
        let ghost stash = self.model().stash;
        let genesis_opid = self.articles().genesis_opid();
        proof {
            assert forall|i: int| 0 <= i < stash.len() implies (
            #[trigger] stash[i]).1.well_formed() by {
                assert(operations@[i].1@.well_formed());
            }
        }
        let outcome = ExportPlan::build(operations, genesis_opid, seeds);
        let ghost built = outcome;
        assert(build_outcome(self.model().stash, genesis_of(self.model()), seeds@, built));
        match outcome {
            Err(e) => {
                assert(built == Err::<ExportPlan, ExportError>(e));
                Err(e)
            },
            Ok(plan) => {
                proof {
                    lemma_plan_well_formed(stash, genesis_opid, seeds@, plan.operations@);
                }
                self.export_ordered(plan, articles, aux)
            },
        }
    }

    /// Exports all the operations.
    pub fn export_all(&mut self, articles: &Vec<u8>) -> (r: Result<Vec<u8>, ExportError>)
        ensures
            final(self).model() == old(self).model(),
            final(self).id() == old(self).id(),
            final(self).configuration() == old(self).configuration(),
            plain_export_outcome(
                old(self).model(),
                old(self).id(),
                articles@,
                opids_of(old(self).model().stash),
                r,
            ),
    {
        let aux = |opid: Opid, op: &Operation| -> (bytes: Vec<u8>)
            ensures
                bytes@.len() == 0,
            { Vec::new() };
        let r = self.export_all_aux(articles, &aux);
        proof {
            lemma_plain_outcome(
                self.model(),
                self.id(),
                articles@,
                opids_of(self.model().stash),
                aux,
                r,
            );
        }
        r
    }

    /// Exports the operations which the terminals and the published state depend on, with auxiliary
    /// data.
    pub fn export_aux<F: Fn(Opid, &Operation) -> Vec<u8>>(
        &mut self,
        terminals: &Vec<AuthToken>,
        articles: &Vec<u8>,
        aux: &F,
    ) -> (r: Result<Vec<u8>, ExportError>)
        requires
            forall|i: int|
                0 <= i < terminals@.len() ==> old(self).model().state.raw.auth.contains_key(
                    #[trigger] terminals@[i],
                ),
            forall|opid: Opid, op: Operation| #[trigger] call_requires(*aux, (opid, &op)),
        ensures
            final(self).model() == old(self).model(),
            final(self).id() == old(self).id(),
            final(self).configuration() == old(self).configuration(),
            exists|seeds: Seq<Opid>|
                {
                    &&& #[trigger] ascending(seeds)
                    &&& seeds.to_set() == export_seeds(old(self).model(), terminals@)
                    &&& export_outcome(
                        old(self).model(),
                        old(self).id(),
                        articles@,
                        seeds,
                        *aux,
                        r,
                    )
                },
    {
        let seeds = self.roots(terminals);
        assert(ascending(seeds@));
        let operations = self.session().operations();
        self.export_seeds(operations, seeds, articles, aux)
    }

    /// Exports the operations which the terminals and the published state depend on.
    pub fn export(&mut self, terminals: &Vec<AuthToken>, articles: &Vec<u8>) -> (r: Result<
        Vec<u8>,
        ExportError,
    >)
        requires
            forall|i: int|
                0 <= i < terminals@.len() ==> old(self).model().state.raw.auth.contains_key(
                    #[trigger] terminals@[i],
                ),
        ensures
            final(self).model() == old(self).model(),
            final(self).id() == old(self).id(),
            final(self).configuration() == old(self).configuration(),
            exists|seeds: Seq<Opid>|
                {
                    &&& #[trigger] ascending(seeds)
                    &&& seeds.to_set() == export_seeds(old(self).model(), terminals@)
                    &&& plain_export_outcome(
                        old(self).model(),
                        old(self).id(),
                        articles@,
                        seeds,
                        r,
                    )
                },
    {
        let aux = |opid: Opid, op: &Operation| -> (bytes: Vec<u8>)
            ensures
                bytes@.len() == 0,
            { Vec::new() };
        let r = self.export_aux(terminals, articles, &aux);
        proof {
            let seeds = choose|seeds: Seq<Opid>|
                {
                    &&& #[trigger] ascending(seeds)
                    &&& seeds.to_set() == export_seeds(self.model(), terminals@)
                    &&& export_outcome(self.model(), self.id(), articles@, seeds, aux, r)
                };
            lemma_plain_outcome(self.model(), self.id(), articles@, seeds, aux, r);
        }
        r
    }
}

/// Where no auxiliary data are supplied, the stream holds the operations alone.
proof fn lemma_plain_outcome<F: Fn(Opid, &Operation) -> Vec<u8>>(
    model: StockView,
    id: ContractId,
    articles: Seq<u8>,
    seeds: Seq<Opid>,
    aux: F,
    r: Result<Vec<u8>, ExportError>,
)
    requires
        export_outcome(model, id, articles, seeds, aux, r),
        forall|opid: Opid, op: Operation, bytes: Vec<u8>| #[trigger]
            call_ensures(aux, (opid, &op), bytes) ==> bytes@.len() == 0,
    ensures
        plain_export_outcome(model, id, articles, seeds, r),
{
    let outcome = choose|plan: Result<ExportPlan, ExportError>|
        {
            &&& #[trigger] build_outcome(model.stash, genesis_of(model), seeds, plan)
            &&& match plan {
                Err(e) => r == Err::<Vec<u8>, ExportError>(e),
                Ok(plan) => if plan.operations@.len() > u32::MAX {
                    r == Err::<Vec<u8>, ExportError>(ExportError::TooManyOperations)
                } else {
                    r matches Ok(stream) && written(
                        model,
                        id,
                        articles,
                        plan.operations@,
                        aux,
                        stream@,
                    )
                },
            }
        };
    if let Ok(plan) = outcome {
        if plan.operations@.len() <= u32::MAX {
            let stream = r->Ok_0@;
            let (genesis_aux, list) = choose|genesis_aux: Vec<u8>, list: Seq<Vec<u8>>|
                {
                    &&& #[trigger] call_ensures(
                        aux,
                        (genesis_of(model), &model.articles.genesis),
                        genesis_aux,
                    )
                    &&& #[trigger] supplied(plan.operations@, aux, list)
                    &&& stream == deeds_bytes(
                        id,
                        articles,
                        genesis_aux@,
                        ops_of(stash_of(plan.operations@)),
                        contents(list),
                    )
                };
            let ops = ops_of(stash_of(plan.operations@));
            assert forall|i: int| 0 <= i < contents(list).len() implies (
            #[trigger] contents(list)[i]).len() == 0 by {
                assert(call_ensures(aux, (plan.operations@[i].0, &plan.operations@[i].1), list[i]));
            }
            lemma_plain_entries(ops, contents(list));
            assert(stream =~= plain_deeds_bytes(id, articles, ops));
        }
    }
}

} // verus!
