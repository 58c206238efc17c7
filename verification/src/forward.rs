//! Return of rolled back operations.

use crate::apply::{
    applied_by, apply_failure, has_distinct_inputs, pending, recorded, verifiable, AcceptError,
    SemanticError,
};
use crate::articles::{has_reads, lemma_applied_grows, lemma_has_room};
use crate::cells::MAX_STATE;
use crate::chain::{law_chain_holds_the_reached, law_chain_is_unique, reached, walk};
use crate::field::lemma_stays_in_field;
use crate::ledger::{
    all_known, ancestor_links, descendant_links, genesis_of, has_ancestors, has_descendants,
    law_ancestors_are_known, law_descendants_are_known, Ledger, MultiError,
};
use crate::processed::{Conversion, StateAtom};
use crate::raw::{input_addrs, lemma_few_inputs, RawView, VerifiedOperation};
use crate::reader::{readings_by, usable, ApiReader};
use crate::state::Readings;
use crate::stock::{commit_answer, committed, readers, Stock, StockSession, StockView};
use crate::types::{CellAddr, Operation, OperationView, Opid};
use crate::ultra::committed_opid;
use strict_types::StrictVal;
use ultrasonic::StateData;
use ultrasonic::StateValue;
use vstd::prelude::*;

verus! {

/// All the ancestors of an operation are valid.
pub open spec fn eligible(model: StockView, opid: Opid) -> bool {
    forall|id: Opid| #[trigger]
        reached(seq![opid], ancestor_links(model), id) && id != opid ==> model.valid.contains(id)
}

/// The contract does not accept an operation, for the given reason.
pub open spec fn refused(model: StockView, op: OperationView, reason: AcceptError) -> bool {
    if op.contract_id != model.articles.contract_id {
        reason matches AcceptError::Articles(SemanticError::ContractMismatch)
    } else {
        reason matches AcceptError::Verify(e) && model.articles.verdict(op, model.state.raw) == Err::<
            (),
            _,
        >(e)
    }
}

/// The contract accepts an operation.
pub open spec fn accepted(model: StockView, op: OperationView) -> bool {
    &&& op.contract_id == model.articles.contract_id
    &&& model.articles.verdict(op, model.state.raw) is Ok
}

/// The data after one operation was brought back, if its ancestors allow for it.
pub open spec fn redone<
    G: Fn(usize, &StateData) -> Conversion<StateAtom>,
    O: Fn(usize, StateValue) -> Conversion<StrictVal>,
>(before: StockView, after: StockView, opid: Opid, reader: ApiReader<G, O>) -> bool {
    if eligible(before, opid) {
        exists|op: Operation|
            {
                &&& op@ == before.ops[opid]
                &&& accepted(before, op@)
                &&& before.state.raw.has_inputs(op@)
                &&& has_reads(before.state.raw, op@)
                &&& #[trigger] applied_by(before, after, opid, op, false, reader)
            }
    } else {
        after == before
    }
}

/// The data after the operations of a list were brought back, one by one.
pub open spec fn redone_all<
    G: Fn(usize, &StateData) -> Conversion<StateAtom>,
    O: Fn(usize, StateValue) -> Conversion<StrictVal>,
>(before: StockView, after: StockView, opids: Seq<Opid>, reader: ApiReader<G, O>) -> bool
    decreases opids.len(),
{
    if opids.len() == 0 {
        after == before
    } else {
        exists|mid: StockView|
            redone_all(before, mid, opids.drop_last(), reader) && #[trigger] redone(
                mid,
                after,
                opids.last(),
                reader,
            )
    }
}

/// The storage fails to bring one of the operations of a list back, or to persist that all of them
/// were.
pub open spec fn forward_failure<
    Z: StockSession,
    G: Fn(usize, &StateData) -> Conversion<StateAtom>,
    O: Fn(usize, StateValue) -> Conversion<StrictVal>,
>(
    before: StockView,
    opids: Seq<Opid>,
    reader: ApiReader<G, O>,
    after: StockView,
    e: Z::Error,
) -> bool {
    ||| exists|n: int, mid: StockView, operation: Operation|
        {
            &&& 0 <= n < opids.len()
            &&& #[trigger] redone_all(before, mid, opids.take(n), reader)
            &&& eligible(mid, opids[n])
            &&& operation@ == mid.ops[opids[n]]
            &&& accepted(mid, operation@)
            &&& #[trigger] apply_failure::<Z, G, O>(
                mid,
                VerifiedOperation { opid: opids[n], operation },
                false,
                reader,
                after,
                e,
            )
        }
    ||| redone_all(before, after, opids, reader) && commit_answer::<Z>(after, Err(e))
}

/// The numbers of the destructible and of the immutable outputs of the operations of a list.
pub open spec fn output_counts(model: StockView, opids: Seq<Opid>) -> (nat, nat)
    decreases opids.len(),
{
    if opids.len() == 0 {
        (0, 0)
    } else {
        let earlier = output_counts(model, opids.drop_last());
        let op = model.ops[opids.last()];
        (earlier.0 + op.destructible_out.len(), earlier.1 + op.immutable_out.len())
    }
}

/// The state has place for so many outputs.
pub open spec fn has_places(raw: RawView, counts: (nat, nat)) -> bool {
    &&& raw.auth.dom().finite() && raw.auth.len() + counts.0 <= MAX_STATE
    &&& raw.owned.dom().finite() && raw.owned.len() + counts.0 <= MAX_STATE
    &&& raw.global.dom().finite() && raw.global.len() + counts.1 <= MAX_STATE
}

/// Each operation of a list, which is to be brought back when its turn comes, can be verified then, and
/// applied if it is accepted.
pub open spec fn ready_in_turn<
    G: Fn(usize, &StateData) -> Conversion<StateAtom>,
    O: Fn(usize, StateValue) -> Conversion<StrictVal>,
>(model: StockView, opids: Seq<Opid>, reader: ApiReader<G, O>) -> bool {
    forall|i: int, mid: StockView|
        0 <= i < opids.len() && #[trigger] redone_all(model, mid, opids.take(i), reader) && eligible(
            mid,
            opids[i],
        ) && pending(mid, mid.ops[opids[i]], true) ==> verifiable(mid, mid.ops[opids[i]])
}

/// The operations can be brought back with all their descendants.
pub open spec fn forwardable<
    G: Fn(usize, &StateData) -> Conversion<StateAtom>,
    O: Fn(usize, StateValue) -> Conversion<StrictVal>,
>(model: StockView, opids: Seq<Opid>, reader: ApiReader<G, O>) -> bool {
    forall|chain: Seq<Opid>| #[trigger]
        walk(opids, descendant_links(model), chain) ==> ready_in_turn(model, chain, reader)
}

/// The operations of a list can be brought back in any case: none of them destroys a cell twice, the
/// verification of each runs through, whichever of the others come before it, and there is place for
/// their outputs.
pub open spec fn returnable(model: StockView, opids: Seq<Opid>) -> bool {
    &&& has_places(model.state.raw, output_counts(model, opids))
    &&& forall|i: int|
        0 <= i < opids.len() ==> {
            &&& model.ops[#[trigger] opids[i]].well_formed()
            &&& model.ops[opids[i]].distinct_inputs()
            &&& model.articles.runs_anyway(model.ops[opids[i]], model.state.raw)
        }
}

/// The operation is in a stock under its id, with all its ancestors.
pub open spec fn has_lineage(model: StockView, opid: Opid) -> bool {
    &&& model.known(opid)
    &&& committed_opid(model.ops[opid]) == opid
    &&& has_ancestors(model, seq![opid])
}

/// All the descendants of the operations are in a stock under their ids, with all their ancestors.
pub open spec fn has_family(model: StockView, opids: Seq<Opid>) -> bool {
    forall|opid: Opid| #[trigger]
        reached(opids, descendant_links(model), opid) ==> has_lineage(model, opid)
}

/// In a consistent contract, which has the operations whose cells others take, all the descendants of
/// operations which are in the stock are in it, with all their ancestors.
pub proof fn law_families_are_known(model: StockView, opids: Seq<Opid>)
    requires
        model.consistent(),
        model.parents_known(genesis_of(model)),
        all_known(model, opids),
    ensures
        has_family(model, opids),
{
    law_descendants_are_known(model, opids);
    assert forall|opid: Opid| #[trigger] reached(
        opids,
        descendant_links(model),
        opid,
    ) implies has_lineage(model, opid) by {
        assert(model.known(opid));
        assert(model.ops.contains_key(opid));
        law_ancestors_are_known(model, seq![opid]);
    }
}

/// All the descendants of the operations can be brought back in any case.
pub open spec fn chain_returnable(model: StockView, opids: Seq<Opid>) -> bool {
    forall|chain: Seq<Opid>| #[trigger]
        walk(opids, descendant_links(model), chain) ==> returnable(model, chain)
}

/// All the operations of a list are in a stock under their ids.
spec fn all_in_place(model: StockView, opids: Seq<Opid>) -> bool {
    forall|i: int|
        0 <= i < opids.len() ==> model.known(#[trigger] opids[i]) && committed_opid(
            model.ops[opids[i]],
        ) == opids[i]
}

/// Operations which can be brought back in any case can be when their turn comes.
proof fn lemma_returnable<
    G: Fn(usize, &StateData) -> Conversion<StateAtom>,
    O: Fn(usize, StateValue) -> Conversion<StrictVal>,
>(before: StockView, mid: StockView, opids: Seq<Opid>, i: int, reader: ApiReader<G, O>)
    requires
        all_in_place(before, opids),
        returnable(before, opids),
        0 <= i <= opids.len(),
        redone_all(before, mid, opids.take(i), reader),
    ensures
        mid.ops == before.ops,
        mid.articles == before.articles,
        has_places(
            mid.state.raw,
            (
                (output_counts(before, opids).0 - output_counts(before, opids.take(i)).0) as nat,
                (output_counts(before, opids).1 - output_counts(before, opids.take(i)).1) as nat,
            ),
        ),
        forall|k: int|
            0 <= k < opids.len() ==> before.articles.runs_anyway(
                before.ops[#[trigger] opids[k]],
                mid.state.raw,
            ),
        i < opids.len() ==> verifiable(mid, mid.ops[opids[i]]),
    decreases i,
{
    if i == 0 {
        assert(opids.take(0) =~= Seq::empty());
    } else {
        let x = opids[i - 1];
        assert(opids.take(i).drop_last() =~= opids.take(i - 1));
        assert(opids.take(i).last() == x);
        let prior = choose|prior: StockView|
            redone_all(before, prior, opids.take(i).drop_last(), reader) && #[trigger] redone(
                prior,
                mid,
                opids.take(i).last(),
                reader,
            );
        lemma_returnable(before, prior, opids, i - 1, reader);
        lemma_counts_step(before, opids, i - 1);
        assert(before.known(opids[i - 1]));
        let op = before.ops[x];
        assert(op.well_formed());
        if eligible(prior, x) {
            let given = choose|given: Operation|
                {
                    &&& given@ == prior.ops[x]
                    &&& accepted(prior, given@)
                    &&& prior.state.raw.has_inputs(given@)
                    &&& has_reads(prior.state.raw, given@)
                    &&& #[trigger] applied_by(prior, mid, x, given, false, reader)
                };
            assert(mid.ops =~= prior.ops);
            assert(mid.state.raw == prior.state.raw.applied(x, op));
            lemma_applied_grows(prior.state.raw, x, op);
            assert forall|k: int| 0 <= k < opids.len() implies before.articles.runs_anyway(
                before.ops[#[trigger] opids[k]],
                mid.state.raw,
            ) by {
                lemma_stays_in_field(
                    before.articles.codex,
                    before.articles.codex_libs@,
                    prior.state.raw,
                    x,
                    op,
                    before.ops[opids[k]],
                );
            }
        }
    }
    if i < opids.len() {
        lemma_counts_step(before, opids, i);
        assert(before.known(opids[i]));
        let op = before.ops[opids[i]];
        assert(op.well_formed() && op.distinct_inputs());
        lemma_has_room(mid.state.raw, opids[i], op);
    }
}

/// Outcome of bringing operations back with all their descendants, as far as their ancestors allow for
/// it.
pub open spec fn forward_outcome<
    S: Stock,
    G: Fn(usize, &StateData) -> Conversion<StateAtom>,
    O: Fn(usize, StateValue) -> Conversion<StrictVal>,
>(
    before: StockView,
    after: StockView,
    opids: Seq<Opid>,
    reader: ApiReader<G, O>,
    r: Result<(), MultiError<AcceptError, S::Error>>,
) -> bool {
    exists|chain: Seq<Opid>|
        {
            &&& #[trigger] walk(opids, descendant_links(before), chain)
            &&& match r {
                Ok(()) => redone_all(before, after, chain, reader) && committed::<S::Session>(after),
                Err(MultiError::A(reason)) => exists|n: int|
                    {
                        &&& 0 <= n < chain.len()
                        &&& redone_all(before, after, #[trigger] chain.take(n), reader)
                        &&& eligible(after, chain[n])
                        &&& refused(after, after.ops[chain[n]], reason)
                    },
                Err(MultiError::B(e)) => forward_failure::<S::Session, G, O>(
                    before,
                    chain,
                    reader,
                    after,
                    e,
                ),
            }
        }
}

/// The contract data stay consistent when an operation is recorded.
pub proof fn lemma_recorded_is_consistent(
    before: StockView,
    after: StockView,
    opid: Opid,
    op: OperationView,
    present: bool,
    readings: Option<Readings>,
)
    requires
        before.consistent(),
        recorded(before, after, opid, op, present, readings),
        present ==> before.ops.contains_key(opid),
        op.well_formed(),
        op.distinct_inputs(),
        committed_opid(op) == opid,
    ensures
        after.consistent(),
{
    let inputs = input_addrs(op.destructible_in);
    lemma_few_inputs(op.destructible_in);
    let destroyed = before.state.raw.owned.restrict(inputs);
    vstd::set_lib::lemma_len_subset(destroyed.dom(), inputs);
    assert(after.known(opid));
    assert forall|id: Opid| #[trigger] before.known(id) implies after.known(id) by {}
    assert forall|addr: CellAddr| #[trigger] after.spent.contains_key(addr) implies after.known(
        after.spent[addr],
    ) by {
        if !inputs.contains(addr) {
            assert(before.spent.contains_key(addr));
            assert(before.known(before.spent[addr]));
        }
    }
    assert forall|addr: CellAddr, id: Opid| #[trigger]
        readers(after.read, addr).contains(id) implies after.known(id) by {
        if readers(before.read, addr).contains(id) {
            assert(before.known(id));
        }
    }
}

/// A longer list has no fewer outputs.
proof fn lemma_counts_step(model: StockView, opids: Seq<Opid>, i: int)
    requires
        0 <= i < opids.len(),
    ensures
        output_counts(model, opids.take(i + 1)).0 == output_counts(model, opids.take(i)).0
            + model.ops[opids[i]].destructible_out.len(),
        output_counts(model, opids.take(i + 1)).1 == output_counts(model, opids.take(i)).1
            + model.ops[opids[i]].immutable_out.len(),
        output_counts(model, opids.take(i + 1)).0 <= output_counts(model, opids).0,
        output_counts(model, opids.take(i + 1)).1 <= output_counts(model, opids).1,
    decreases opids.len() - i,
{
    assert(opids.take(i + 1).drop_last() =~= opids.take(i));
    if i + 1 < opids.len() {
        lemma_counts_step(model, opids, i + 1);
    } else {
        assert(opids.take(i + 1) =~= opids);
    }
}

/// A copy of a list of operations.
pub(crate) fn copy_opids(opids: &Vec<Opid>) -> (r: Vec<Opid>)
    ensures
        r@ == opids@,
{
    let mut copy: Vec<Opid> = Vec::new();
    let mut k: usize = 0;
    while k < opids.len()
        invariant
            k <= opids@.len(),
            copy@ == opids@.take(k as int),
        decreases opids@.len() - k,
    {
        copy.push(opids[k]);
        assert(copy@ =~= opids@.take(k + 1));
        k = k + 1;
    }
    assert(opids@.take(k as int) =~= opids@);
    copy
}

impl<S: Stock> Ledger<S> {
    /// Tests whether all the ancestors of an operation are valid.
    fn is_eligible(&mut self, opid: Opid) -> (r: bool)
        requires
            has_ancestors(old(self).model(), seq![opid]),
        ensures
            r == eligible(old(self).model(), opid),
            final(self).model() == old(self).model(),
            final(self).id() == old(self).id(),
            final(self).configuration() == old(self).configuration(),
    {
        let ghost model = self.model();
        let mut seeds: Vec<Opid> = Vec::new();
        seeds.push(opid);
        assert(seeds@ =~= seq![opid]);
        let chain = self.ancestors(seeds);
        let ghost links = ancestor_links(model);
        proof {
            law_chain_holds_the_reached(seq![opid], links, chain@);
        }
        let mut i: usize = 0;
        while i < chain.len()
            invariant
                i <= chain@.len(),
                links == ancestor_links(model),
                self.model() == model,
                self.id() == old(self).id(),
                self.configuration() == old(self).configuration(),
                model == old(self).model(),
                forall|id: Opid|
                    #[trigger] chain@.contains(id) <==> reached(seq![opid], links, id),
                forall|k: int|
                    0 <= k < i ==> #[trigger] chain@[k] == opid || model.valid.contains(chain@[k]),
            decreases chain@.len() - i,
        {
            if chain[i] != opid && !self.is_valid(chain[i]) {
                assert(chain@.contains(chain@[i as int]));
                return false;
            }
            i = i + 1;
        }
        proof {
            assert forall|id: Opid| #[trigger] reached(seq![opid], links, id) && id != opid implies model.valid.contains(
                id,
            ) by {
                assert(chain@.contains(id));
                let k = choose|k: int| 0 <= k < chain@.len() && chain@[k] == id;
                assert(chain@[k] == id);
            }
        }
        true
    }

    /// Tests whether all the descendants of operations are known under their ids, with all their
    /// ancestors.
    pub fn knows_family(&mut self, opids: &Vec<Opid>) -> (r: bool)
        ensures
            r == has_family(old(self).model(), opids@),
            final(self).model() == old(self).model(),
            final(self).id() == old(self).id(),
            final(self).configuration() == old(self).configuration(),
    {
        let ghost model = self.model();
        let ghost links = descendant_links(model);
        let seeds = copy_opids(opids);
        let desc = match self.try_descendants(seeds) {
            Some(desc) => desc,
            None => {
                proof {
                    let opid = choose|opid: Opid| #[trigger]
                        reached(opids@, links, opid) && !model.known(opid);
                    assert(reached(opids@, links, opid) && !has_lineage(model, opid));
                }
                return false;
            },
        };
        proof {
            law_chain_holds_the_reached(opids@, links, desc@);
        }
        let mut i: usize = 0;
        while i < desc.len()
            invariant
                i <= desc@.len(),
                links == descendant_links(model),
                self.model() == model,
                self.id() == old(self).id(),
                self.configuration() == old(self).configuration(),
                model == old(self).model(),
                all_known(model, desc@),
                forall|id: Opid| #[trigger] desc@.contains(id) <==> reached(opids@, links, id),
                forall|k: int| 0 <= k < i ==> has_lineage(model, #[trigger] desc@[k]),
            decreases desc@.len() - i,
        {
            let opid = desc[i];
            proof {
                assert(model.known(desc@[i as int]));
                assert(desc@.contains(opid));
            }
            let op = self.operation(opid);
            if op.opid() != opid {
                assert(!has_lineage(model, opid));
                return false;
            }
            let mut seeds: Vec<Opid> = Vec::new();
            seeds.push(opid);
            assert(seeds@ =~= seq![opid]);
            if self.try_ancestors(seeds).is_none() {
                assert(!has_lineage(model, opid));
                return false;
            }
            i = i + 1;
        }
        proof {
            assert forall|id: Opid| #[trigger] reached(opids@, links, id) implies has_lineage(
                model,
                id,
            ) by {
                assert(desc@.contains(id));
                let k = choose|k: int| 0 <= k < desc@.len() && desc@[k] == id;
                assert(has_lineage(model, desc@[k]));
            }
        }
        true
    }

    /// Tests whether operations can be brought back with all their descendants in any case.
    pub fn has_place_to_forward(&mut self, opids: &Vec<Opid>) -> (r: bool)
        requires
            has_descendants(old(self).model(), opids@),
        ensures
            r == chain_returnable(old(self).model(), opids@),
            final(self).model() == old(self).model(),
            final(self).id() == old(self).id(),
            final(self).configuration() == old(self).configuration(),
    {
        let ghost model = self.model();
        let seeds = copy_opids(opids);
        let desc = self.descendants(seeds);
        let ghost chain = desc@;
        proof {
            assert(chain_returnable(model, opids@) == returnable(model, chain)) by {
                if returnable(model, chain) {
                    assert forall|other: Seq<Opid>| #[trigger]
                        walk(opids@, descendant_links(model), other) implies returnable(model, other) by {
                        law_chain_is_unique(opids@, descendant_links(model), other, chain);
                    }
                }
            }
            assert(chain.take(0) =~= Seq::empty());
        }
        let mut owned: u128 = 0;
        let mut global: u128 = 0;
        let mut i: usize = 0;
        while i < desc.len()
            invariant
                i <= desc@.len() <= usize::MAX,
                chain == desc@,
                self.model() == model,
                self.id() == old(self).id(),
                self.configuration() == old(self).configuration(),
                model == old(self).model(),
                all_known(model, chain),
                chain_returnable(model, opids@) == returnable(model, chain),
                owned == output_counts(model, chain.take(i as int)).0,
                global == output_counts(model, chain.take(i as int)).1,
                owned <= i * 65535,
                global <= i * 65535,
                forall|k: int|
                    0 <= k < i ==> {
                        &&& model.ops[#[trigger] chain[k]].well_formed()
                        &&& model.ops[chain[k]].distinct_inputs()
                        &&& model.articles.runs_anyway(model.ops[chain[k]], model.state.raw)
                    },
            decreases desc@.len() - i,
        {
            let opid = desc[i];
            proof {
                assert(model.known(chain[i as int]));
                lemma_counts_step(model, chain, i as int);
            }
            let op = self.operation(opid);
            if !has_distinct_inputs(&op) || !self.articles().fits_anyway(&op, &self.state().raw) {
                assert(model.ops[chain[i as int]] == op@);
                assert(!returnable(model, chain));
                return false;
            }
            owned = owned + op.destructible_out.len() as u128;
            global = global + op.immutable_out.len() as u128;
            i = i + 1;
        }
        assert(chain.take(chain.len() as int) =~= chain);
        let raw = &self.state().raw;
        let limit: u128 = MAX_STATE as u128;
        raw.auth.len() as u128 + owned <= limit && raw.owned.len() as u128 + owned <= limit
            && raw.global.len() as u128 + global <= limit
    }

    /// Brings rolled back operations and their descendants back, those whose ancestors all are
    /// valid.
    pub fn forward<
        G: Fn(usize, &StateData) -> Conversion<StateAtom>,
        O: Fn(usize, StateValue) -> Conversion<StrictVal>,
    >(&mut self, opids: Vec<Opid>, reader: &ApiReader<G, O>) -> (r: Result<
        (),
        MultiError<AcceptError, S::Error>,
    >)
        requires
            old(self).well_formed(),
            has_family(old(self).model(), opids@),
            forwardable(old(self).model(), opids@, *reader),
            usable(*reader),
        ensures
            final(self).id() == old(self).id(),
            final(self).configuration() == old(self).configuration(),
            forward_outcome::<S, G, O>(
                old(self).model(),
                final(self).model(),
                opids@,
                *reader,
                r,
            ),
    {
        let ghost before = self.model();
        let desc = self.descendants(opids);
        let ghost chain = desc@;
        proof {
            law_chain_holds_the_reached(opids@, descendant_links(before), chain);
            assert forall|k: int| 0 <= k < chain.len() implies has_lineage(
                before,
                #[trigger] chain[k],
            ) by {
                assert(chain.contains(chain[k]));
            }
            assert(chain.take(0) =~= Seq::empty());
        }
        let mut i: usize = 0;
        while i < desc.len()
            invariant
                i <= desc@.len(),
                chain == desc@,
                chain.no_duplicates(),
                before == old(self).model(),
                walk(opids@, descendant_links(before), chain),
                forall|k: int| 0 <= k < chain.len() ==> has_lineage(before, #[trigger] chain[k]),
                usable(*reader),
                self.well_formed(),
                self.id() == old(self).id(),
                self.configuration() == old(self).configuration(),
                self.model().ops == before.ops,
                self.model().articles == before.articles,
                redone_all(before, self.model(), chain.take(i as int), *reader),
                ready_in_turn(before, chain, *reader),
            decreases desc@.len() - i,
        {
            let ghost mid = self.model();
            let opid = desc[i];
            proof {
                assert(has_lineage(before, chain[i as int]));
                assert(ancestor_links(mid) =~= ancestor_links(before));
                assert(chain.take(i + 1).drop_last() =~= chain.take(i as int));
                assert(chain.take(i + 1).last() == opid);
            }
            if self.is_eligible(opid) {
                let op = self.operation(opid);
                let ghost given = op;
                match self.apply_verify(op, true, reader) {
                    Ok(_) => {},
                    Err(MultiError::A(reason)) => {
                        proof {
                            assert(refused(mid, mid.ops[opid], reason));
                            assert(redone_all(before, mid, chain.take(i as int), *reader));
                        }
                        return Err(MultiError::A(reason));
                    },
                    Err(MultiError::B(e)) => {
                        proof {
                            assert(redone_all(before, mid, chain.take(i as int), *reader));
                            assert(apply_failure::<S::Session, G, O>(
                                mid,
                                VerifiedOperation { opid: chain[i as int], operation: given },
                                false,
                                *reader,
                                self.model(),
                                e,
                            ));
                            assert(forward_failure::<S::Session, G, O>(
                                before,
                                chain,
                                *reader,
                                self.model(),
                                e,
                            ));
                        }
                        return Err(MultiError::B(e));
                    },
                }
                proof {
                    let after = self.model();
                    assert(applied_by(mid, after, opid, given, false, *reader));
                    let readings = choose|readings: Option<Readings>| #[trigger]
                        readings_by(*reader, mid.articles.semantics, given, readings) && recorded(
                            mid,
                            after,
                            opid,
                            given@,
                            false,
                            readings,
                        );
                    assert(after.ops =~= mid.ops);
                }
            }
            proof {
                assert(redone(mid, self.model(), opid, *reader));
            }
            i = i + 1;
        }
        assert(chain.take(chain.len() as int) =~= chain);
        let done = self.commit_transaction();
        let ghost answer = done;
        match done {
            Ok(()) => {
                assert(commit_answer::<S::Session>(self.model(), answer));
                Ok(())
            },
            Err(e) => Err(MultiError::B(e)),
        }
    }

    /// Brings rolled back operations and their descendants back, unless one of them or of their ancestors
    /// is not known, or it is not sure that they have their place in the state. Nothing is done then.
    pub fn try_forward<
        G: Fn(usize, &StateData) -> Conversion<StateAtom>,
        O: Fn(usize, StateValue) -> Conversion<StrictVal>,
    >(&mut self, opids: Vec<Opid>, reader: &ApiReader<G, O>) -> (r: Option<
        Result<(), MultiError<AcceptError, S::Error>>,
    >)
        requires
            old(self).well_formed(),
            usable(*reader),
        ensures
            final(self).id() == old(self).id(),
            final(self).configuration() == old(self).configuration(),
            r is None <==> !(has_family(old(self).model(), opids@) && chain_returnable(
                old(self).model(),
                opids@,
            )),
            match r {
                None => final(self).model() == old(self).model(),
                Some(result) => forward_outcome::<S, G, O>(
                    old(self).model(),
                    final(self).model(),
                    opids@,
                    *reader,
                    result,
                ),
            },
    {
        if !self.knows_family(&opids) || !self.has_place_to_forward(&opids) {
            return None;
        }
        proof {
            let model = self.model();
            assert forall|chain: Seq<Opid>| #[trigger]
                walk(opids@, descendant_links(model), chain) implies ready_in_turn(
                model,
                chain,
                *reader,
            ) by {
                law_chain_holds_the_reached(opids@, descendant_links(model), chain);
                assert forall|k: int| 0 <= k < chain.len() implies model.known(#[trigger] chain[k])
                    && committed_opid(model.ops[chain[k]]) == chain[k] by {
                    assert(chain.contains(chain[k]));
                    assert(has_lineage(model, chain[k]));
                }
                assert forall|i: int, mid: StockView|
                    0 <= i < chain.len() && #[trigger] redone_all(
                        model,
                        mid,
                        chain.take(i),
                        *reader,
                    ) && eligible(mid, chain[i]) && pending(
                        mid,
                        mid.ops[chain[i]],
                        true,
                    ) implies verifiable(mid, mid.ops[chain[i]]) by {
                    lemma_returnable(model, mid, chain, i, *reader);
                }
            }
        }
        Some(self.forward(opids, reader))
    }
}

} // verus!
