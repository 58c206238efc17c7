//! Contract ledger: the history of the operations of a contract and its state.

use crate::articles::Articles;
use crate::chain::{
    law_chain_holds_the_reached, lemma_complete, lemma_content_is_reached, lemma_extended, link_path,
    reached, walk, Chain,
};
use crate::export::stash_of;
use crate::processed::ProcessedView;
use crate::raw::{RawView, Transition};
use crate::state::{given_readings, EffectiveState, EffectiveView, Readings, ReadingsView};
use crate::stock::{
    commit_answer, committed, parent_list, readers, valid_of, IssueError, Stock, StockSession,
    StockView,
};
use crate::types::{CellAddr, ContractId, Operation, OperationView, Opid};
use crate::ultra::committed_opid;
use std::sync::Arc;
use vstd::prelude::*;

verus! {

/// One of two errors.
#[derive(Debug)]
pub enum MultiError<A, B> {
    A(A),
    B(B),
}

/// Contract ledger.
#[derive(Debug)]
pub struct Ledger<S: Stock>(pub(crate) S, pub(crate) ContractId);

/// Genesis of the contract in a stock.
pub open spec fn genesis_of(model: StockView) -> Opid {
    committed_opid(model.articles.genesis@)
}

/// The links from an operation to those whose cells it takes.
pub open spec fn ancestor_links(model: StockView) -> spec_fn(Opid) -> Seq<Opid> {
    |opid: Opid|
        if opid == genesis_of(model) {
            Seq::empty()
        } else {
            parent_list(model.ops[opid])
        }
}

/// The operations which have read the first immutable outputs of an operation.
pub open spec fn reading_children(model: StockView, opid: Opid, n: nat) -> Seq<Opid>
    decreases n,
{
    if n == 0 {
        Seq::empty()
    } else {
        reading_children(model, opid, (n - 1) as nat) + readers(
            model.read,
            CellAddr { opid, pos: (n - 1) as u16 },
        )
    }
}

/// The operations which have destroyed the first outputs of an operation.
pub open spec fn spending_children(model: StockView, opid: Opid, n: nat) -> Seq<Opid>
    decreases n,
{
    if n == 0 {
        Seq::empty()
    } else {
        let earlier = spending_children(model, opid, (n - 1) as nat);
        let addr = CellAddr { opid, pos: (n - 1) as u16 };
        if model.spent.contains_key(addr) {
            earlier.push(model.spent[addr])
        } else {
            earlier
        }
    }
}

/// The links from an operation to those which take its cells: first the readers of the immutable
/// outputs, then the spenders of the destructible ones.
pub open spec fn descendant_links(model: StockView) -> spec_fn(Opid) -> Seq<Opid> {
    |opid: Opid|
        reading_children(model, opid, model.ops[opid].immutable_out.len()) + spending_children(
            model,
            opid,
            model.ops[opid].destructible_out.len(),
        )
}

/// All the operations of a list are in a stock.
pub open spec fn all_known(model: StockView, opids: Seq<Opid>) -> bool {
    forall|i: int| 0 <= i < opids.len() ==> model.known(#[trigger] opids[i])
}

/// All the descendants of the operations are in a stock.
pub open spec fn has_descendants(model: StockView, opids: Seq<Opid>) -> bool {
    forall|opid: Opid| #[trigger]
        reached(opids, descendant_links(model), opid) ==> model.known(opid)
}

/// All the ancestors of the operations are in a stock.
pub open spec fn has_ancestors(model: StockView, opids: Seq<Opid>) -> bool {
    forall|opid: Opid| #[trigger]
        reached(opids, ancestor_links(model), opid) ==> opid == genesis_of(model) || model.known(
            opid,
        )
}

/// A child which a stock knows of is in it.
pub(crate) proof fn lemma_children_known(model: StockView, opid: Opid, child: Opid)
    requires
        model.consistent(),
        descendant_links(model)(opid).contains(child),
    ensures
        model.known(child),
{
    let reads = reading_children(model, opid, model.ops[opid].immutable_out.len());
    let spends = spending_children(model, opid, model.ops[opid].destructible_out.len());
    let k = choose|k: int| 0 <= k < (reads + spends).len() && (reads + spends)[k] == child;
    if k < reads.len() {
        assert(reads[k] == child);
        lemma_reader_known(model, opid, model.ops[opid].immutable_out.len(), child);
    } else {
        assert(spends[k - reads.len()] == child);
        lemma_spender_known(model, opid, model.ops[opid].destructible_out.len(), child);
    }
}

/// In a consistent contract, the descendants of operations which are in the stock are in it.
pub proof fn law_descendants_are_known(model: StockView, opids: Seq<Opid>)
    requires
        model.consistent(),
        all_known(model, opids),
    ensures
        has_descendants(model, opids),
{
    let links = descendant_links(model);
    assert forall|opid: Opid| #[trigger] reached(opids, links, opid) implies model.known(opid) by {
        let path = choose|path: Seq<Opid>| #[trigger]
            link_path(opids, links, path) && path.last() == opid;
        let k = path.len() - 1;
        if k == 0 {
            let j = choose|j: int| 0 <= j < opids.len() && opids[j] == path[0];
            assert(model.known(opids[j]));
        } else {
            assert(links(path[k - 1]).contains(path[k]));
            lemma_children_known(model, path[k - 1], path[k]);
        }
    }
}

/// In a contract which has the operations, whose cells others take, the ancestors of operations which
/// are in the stock are in it.
pub proof fn law_ancestors_are_known(model: StockView, opids: Seq<Opid>)
    requires
        model.parents_known(genesis_of(model)),
        forall|i: int|
            0 <= i < opids.len() ==> #[trigger] opids[i] == genesis_of(model) || model.known(opids[i]),
    ensures
        has_ancestors(model, opids),
{
    let links = ancestor_links(model);
    assert forall|opid: Opid| #[trigger] reached(opids, links, opid) implies opid == genesis_of(model)
        || model.known(opid) by {
        let path = choose|path: Seq<Opid>| #[trigger]
            link_path(opids, links, path) && path.last() == opid;
        lemma_ancestor_path(model, opids, path);
    }
}

/// The end of a path from known operations to their ancestors is known.
proof fn lemma_ancestor_path(model: StockView, opids: Seq<Opid>, path: Seq<Opid>)
    requires
        model.parents_known(genesis_of(model)),
        forall|i: int|
            0 <= i < opids.len() ==> #[trigger] opids[i] == genesis_of(model) || model.known(opids[i]),
        link_path(opids, ancestor_links(model), path),
    ensures
        path.last() == genesis_of(model) || model.known(path.last()),
    decreases path.len(),
{
    let k = path.len() - 1;
    if k == 0 {
        let j = choose|j: int| 0 <= j < opids.len() && opids[j] == path[0];
        assert(opids[j] == path[0]);
    } else {
        let shorter = path.drop_last();
        assert(link_path(opids, ancestor_links(model), shorter));
        lemma_ancestor_path(model, opids, shorter);
        assert(ancestor_links(model)(path[k - 1]).contains(path[k]));
        assert(shorter.last() == path[k - 1]);
        lemma_parent_list(model.ops[path[k - 1]], path[k]);
    }
}

/// A reader is in the stock.
proof fn lemma_reader_known(model: StockView, opid: Opid, n: nat, child: Opid)
    requires
        model.consistent(),
        reading_children(model, opid, n).contains(child),
    ensures
        model.known(child),
    decreases n,
{
    if n > 0 {
        let earlier = reading_children(model, opid, (n - 1) as nat);
        let addr = CellAddr { opid, pos: (n - 1) as u16 };
        let last = readers(model.read, addr);
        let k = choose|k: int| 0 <= k < (earlier + last).len() && (earlier + last)[k] == child;
        if k < earlier.len() {
            assert(earlier[k] == child);
            lemma_reader_known(model, opid, (n - 1) as nat, child);
        } else {
            assert(last[k - earlier.len()] == child);
            assert(readers(model.read, addr).contains(child));
        }
    }
}

/// A spender is in the stock.
proof fn lemma_spender_known(model: StockView, opid: Opid, n: nat, child: Opid)
    requires
        model.consistent(),
        spending_children(model, opid, n).contains(child),
    ensures
        model.known(child),
    decreases n,
{
    if n > 0 {
        let earlier = spending_children(model, opid, (n - 1) as nat);
        let whole = spending_children(model, opid, n);
        let k = choose|k: int| 0 <= k < whole.len() && whole[k] == child;
        if k < earlier.len() {
            assert(earlier[k] == child);
            lemma_spender_known(model, opid, (n - 1) as nat, child);
        }
    }
}

/// Operations of a chain without repetitions are not more than those they are taken from.
proof fn lemma_chain_fits(chain: Seq<Opid>, known: Set<Opid>)
    requires
        chain.no_duplicates(),
        known.finite(),
        forall|i: int| 0 <= i < chain.len() ==> known.contains(#[trigger] chain[i]),
    ensures
        chain.len() <= known.len(),
{
    chain.unique_seq_to_set();
    assert(chain.to_set().subset_of(known));
    vstd::set_lib::lemma_len_subset(chain.to_set(), known);
}

/// Every parent in the list of an operation is one of its parents.
proof fn lemma_parent_list(op: OperationView, parent: Opid)
    requires
        parent_list(op).contains(parent),
    ensures
        op.parents().contains(parent),
{
    let list = parent_list(op);
    let k = choose|k: int| 0 <= k < list.len() && list[k] == parent;
    if k < op.immutable_in.len() {
        assert(op.immutable_in[k].opid == parent);
    } else {
        assert(op.destructible_in[k - op.immutable_in.len()].addr.opid == parent);
    }
}

/// The operations which take the cells of an operation.
fn children<S: StockSession>(session: &mut S, opid: Opid) -> (r: Vec<Opid>)
    requires
        old(session).model().ops.contains_key(opid),
    ensures
        final(session).model() == old(session).model(),
        r@ == descendant_links(old(session).model())(opid),
{
    let ghost model = session.model();
    let op = session.operation(opid);
    assert(op@.well_formed());
    let mut list: Vec<Opid> = Vec::new();
    let mut no: usize = 0;
    while no < op.immutable_out.len()
        invariant
            no <= op.immutable_out@.len(),
            op@.well_formed(),
            session.model() == model,
            list@ == reading_children(model, opid, no as nat),
        decreases op.immutable_out@.len() - no,
    {
        let mut reads = session.read_by(CellAddr::new(opid, no as u16));
        list.append(&mut reads);
        no = no + 1;
    }
    let ghost reads = list@;
    let mut no: usize = 0;
    assert(reads + Seq::empty() =~= reads);
    while no < op.destructible_out.len()
        invariant
            no <= op.destructible_out@.len(),
            op@.well_formed(),
            session.model() == model,
            list@ == reads + spending_children(model, opid, no as nat),
        decreases op.destructible_out@.len() - no,
    {
        let ghost earlier = spending_children(model, opid, no as nat);
        if let Some(spent) = session.spent_by(CellAddr::new(opid, no as u16)) {
            list.push(spent);
            assert(list@ =~= reads + earlier.push(spent));
        }
        no = no + 1;
    }
    list
}

/// Walks from the given operations to their ancestors, as long as all of them are known.
fn walk_up<S: StockSession>(session: &mut S, opids: &Vec<Opid>, genesis: Opid) -> (r: Option<
    Vec<Opid>,
>)
    requires
        genesis == genesis_of(old(session).model()),
        old(session).model().ops.dom().finite(),
    ensures
        final(session).model() == old(session).model(),
        r is Some <==> has_ancestors(old(session).model(), opids@),
        r matches Some(chain) ==> {
            &&& walk(opids@, ancestor_links(old(session).model()), chain@)
            &&& chain@.no_duplicates()
        },
{
    let ghost model = session.model();
    let ghost links = ancestor_links(model);
    let ghost known = model.ops.dom().insert(genesis);
    let mut chain = Chain::new(opids, Ghost(links));
    proof {
        lemma_extended(Seq::empty(), opids@);
    }
    loop
        invariant
            genesis == genesis_of(model),
            model == old(session).model(),
            session.model() == model,
            model.ops.dom().finite(),
            links == ancestor_links(model),
            known == model.ops.dom().insert(genesis),
            chain.well_formed(opids@, links),
            chain.content().no_duplicates(),
            0 <= chain.cursor() <= chain.content().len(),
            forall|i: int| 0 <= i < chain.cursor() ==> known.contains(#[trigger] chain.content()[i]),
        decreases known.len() - chain.cursor(),
    {
        let ghost before = chain.content();
        let ghost at = chain.cursor();
        match chain.next() {
            Some(opid) => {
                let list: Vec<Opid> = if opid == genesis {
                    Vec::new()
                } else if session.has_operation(opid) {
                    session.operation(opid).parent_list()
                } else {
                    proof {
                        lemma_content_is_reached(chain, opids@, links, at);
                    }
                    return None;
                };
                assert(list@ =~= links(opid));
                chain.follow(&list, Ghost(opids@), Ghost(links));
                proof {
                    lemma_extended(before, list@);
                    lemma_followed_stay(before, chain.content());
                    assert(known.contains(before[at]));
                    lemma_chain_fits(chain.content().take(at + 1), known);
                }
            },
            None => {
                proof {
                    lemma_complete(chain, opids@, links);
                    law_chain_holds_the_reached(opids@, links, chain.content());
                    assert forall|opid: Opid| #[trigger] reached(opids@, links, opid) implies opid
                        == genesis_of(model) || model.known(opid) by {
                        assert(chain.content().contains(opid));
                        let i = choose|i: int|
                            0 <= i < chain.content().len() && chain.content()[i] == opid;
                        assert(known.contains(chain.content()[i]));
                    }
                }
                return Some(chain.into_list());
            },
        }
    }
}

/// The operations discovered before keep their places.
proof fn lemma_followed_stay(before: Seq<Opid>, after: Seq<Opid>)
    requires
        before.len() <= after.len(),
        after.take(before.len() as int) == before,
    ensures
        forall|i: int| 0 <= i < before.len() ==> #[trigger] after[i] == before[i],
{
    assert forall|i: int| 0 <= i < before.len() implies #[trigger] after[i] == before[i] by {
        assert(after.take(before.len() as int)[i] == after[i]);
    }
}

/// Walks from the given operations to their descendants, as long as all of them are known.
fn walk_down<S: StockSession>(session: &mut S, opids: &Vec<Opid>) -> (r: Option<Vec<Opid>>)
    requires
        old(session).model().ops.dom().finite(),
    ensures
        final(session).model() == old(session).model(),
        r is Some <==> has_descendants(old(session).model(), opids@),
        r matches Some(chain) ==> {
            &&& walk(opids@, descendant_links(old(session).model()), chain@)
            &&& all_known(old(session).model(), chain@)
            &&& chain@.no_duplicates()
        },
{
    let ghost model = session.model();
    let ghost links = descendant_links(model);
    let ghost known = model.ops.dom();
    let mut chain = Chain::new(opids, Ghost(links));
    proof {
        lemma_extended(Seq::empty(), opids@);
    }
    loop
        invariant
            model == old(session).model(),
            session.model() == model,
            known == model.ops.dom(),
            known.finite(),
            links == descendant_links(model),
            chain.well_formed(opids@, links),
            chain.content().no_duplicates(),
            0 <= chain.cursor() <= chain.content().len(),
            forall|i: int| 0 <= i < chain.cursor() ==> known.contains(#[trigger] chain.content()[i]),
        decreases known.len() - chain.cursor(),
    {
        let ghost before = chain.content();
        let ghost at = chain.cursor();
        match chain.next() {
            Some(opid) => {
                if !session.has_operation(opid) {
                    proof {
                        lemma_content_is_reached(chain, opids@, links, at);
                    }
                    return None;
                }
                let list = children(session, opid);
                chain.follow(&list, Ghost(opids@), Ghost(links));
                proof {
                    lemma_extended(before, list@);
                    lemma_followed_stay(before, chain.content());
                    assert(known.contains(before[at]));
                    lemma_chain_fits(chain.content().take(at + 1), known);
                }
            },
            None => {
                proof {
                    lemma_complete(chain, opids@, links);
                    law_chain_holds_the_reached(opids@, links, chain.content());
                    assert forall|opid: Opid| #[trigger] reached(opids@, links, opid) implies model.known(
                        opid,
                    ) by {
                        assert(chain.content().contains(opid));
                        let i = choose|i: int|
                            0 <= i < chain.content().len() && chain.content()[i] == opid;
                        assert(known.contains(chain.content()[i]));
                    }
                    assert forall|i: int| 0 <= i < chain.content().len() implies model.known(
                        #[trigger] chain.content()[i],
                    ) by {
                        assert(known.contains(chain.content()[i]));
                    }
                }
                return Some(chain.into_list());
            },
        }
    }
}

impl<S: Stock> Ledger<S> {
    /// The data of the contract.
    pub closed spec fn model(self) -> StockView {
        self.0.model()
    }

    /// The stock with the data.
    pub closed spec fn data(self) -> S {
        self.0
    }

    /// The id of the contract.
    pub closed spec fn id(self) -> ContractId {
        self.1
    }

    /// The configuration of the stock.
    pub closed spec fn configuration(self) -> S::Conf {
        self.0.configuration()
    }

    /// The id of the contract is that in the articles.
    pub open spec fn well_formed(self) -> bool {
        self.id() == self.model().articles.contract_id
    }

    /// Ancestors include the original operations.
    pub fn ancestors(&mut self, opids: Vec<Opid>) -> (r: Vec<Opid>)
        requires
            has_ancestors(old(self).model(), opids@),
        ensures
            final(self).model() == old(self).model(),
            final(self).id() == old(self).id(),
            final(self).configuration() == old(self).configuration(),
            walk(opids@, ancestor_links(old(self).model()), r@),
            r@.no_duplicates(),
    {
        match self.try_ancestors(opids) {
            Some(chain) => chain,
            None => Vec::new(),
        }
    }

    /// Ancestors include the original operations. There are none, unless the data of each of them
    /// are there.
    pub fn try_ancestors(&mut self, opids: Vec<Opid>) -> (r: Option<Vec<Opid>>)
        ensures
            final(self).model() == old(self).model(),
            final(self).id() == old(self).id(),
            final(self).configuration() == old(self).configuration(),
            r is Some <==> has_ancestors(old(self).model(), opids@),
            r matches Some(chain) ==> {
                &&& walk(opids@, ancestor_links(old(self).model()), chain@)
                &&& chain@.no_duplicates()
            },
    {
        let genesis = self.0.articles().genesis_opid();
        walk_up(self.0.session(), &opids, genesis)
    }

    /// Descendants include the original operations.
    pub fn descendants(&mut self, opids: Vec<Opid>) -> (r: Vec<Opid>)
        requires
            has_descendants(old(self).model(), opids@),
        ensures
            final(self).model() == old(self).model(),
            final(self).id() == old(self).id(),
            final(self).configuration() == old(self).configuration(),
            walk(opids@, descendant_links(old(self).model()), r@),
            all_known(old(self).model(), r@),
            r@.no_duplicates(),
    {
        match self.try_descendants(opids) {
            Some(chain) => chain,
            None => Vec::new(),
        }
    }

    /// Descendants include the original operations. There are none, unless the data of each of them
    /// are there.
    pub fn try_descendants(&mut self, opids: Vec<Opid>) -> (r: Option<Vec<Opid>>)
        ensures
            final(self).model() == old(self).model(),
            final(self).id() == old(self).id(),
            final(self).configuration() == old(self).configuration(),
            r is Some <==> has_descendants(old(self).model(), opids@),
            r matches Some(chain) ==> {
                &&& walk(opids@, descendant_links(old(self).model()), chain@)
                &&& all_known(old(self).model(), chain@)
                &&& chain@.no_duplicates()
            },
    {
        walk_down(self.0.session(), &opids)
    }
}

/// The data of a contract right after it was issued.
pub open spec fn issued(articles: Articles, readings: Option<ReadingsView>) -> StockView {
    StockView {
        ops: Map::empty(),
        stash: Seq::empty(),
        trace: Map::empty(),
        valid: Set::empty().insert(committed_opid(articles.genesis@)),
        spent: Map::empty(),
        read: Map::empty(),
        articles,
        state: (EffectiveView {
            raw: RawView::empty(),
            main: ProcessedView::empty(),
            aux: Map::empty(),
        }).applied(committed_opid(articles.genesis@), articles.genesis@, readings),
    }
}

impl<S: Stock> Ledger<S> {
    /// Opens a session.
    pub(crate) fn session(&mut self) -> (s: &mut S::Session)
        ensures
            s.model() == old(self).model(),
            s.model().ops.dom().finite(),
            final(self).model() == final(s).model(),
            final(self).id() == old(self).id(),
            final(self).configuration() == old(self).configuration(),
    {
        self.0.session()
    }

    /// Opens a session and runs `f` with it, returning the result.
    pub fn with_session<T, E, F: FnOnce(&mut S::Session) -> Result<T, E>>(&mut self, f: F) -> (r: Result<
        T,
        E,
    >)
        requires
            forall|s: &mut S::Session|
                s.model() == old(self).model() ==> #[trigger] call_requires(f, (s,)),
        ensures
            exists|s: &mut S::Session|
                {
                    &&& s.model() == old(self).model()
                    &&& final(s).model() == final(self).model()
                    &&& #[trigger] call_ensures(f, (s,), r)
                },
            final(self).id() == old(self).id(),
            final(self).configuration() == old(self).configuration(),
    {
        let s = self.0.session();
        f(s)
    }

    /// Issues a contract: its ledger starts with the state after the genesis.
    pub fn new(articles: Articles, conf: S::Conf, readings: Option<Readings>) -> (r: Result<
        Self,
        MultiError<IssueError, S::Error>,
    >)
        requires
            articles.well_formed(),
            articles.runs_through(articles.genesis@, RawView::empty()),
            readings matches Some(readings) ==> readings@.reads_outputs(articles.genesis@),
        ensures
            match articles.verdict(articles.genesis@, RawView::empty()) {
                Err(e) => r matches Err(MultiError::A(IssueError::Genesis(name, fault))) && name@
                    == articles.name@ && fault == e,
                Ok(()) => match r {
                    Ok(ledger) => {
                        &&& ledger.well_formed()
                        &&& ledger.model().consistent()
                        &&& ledger.model() == issued(articles, given_readings(readings))
                        &&& articles.genesis@.destructible_in.len() == 0
                        &&& articles.genesis@.immutable_in.len() == 0
                        &&& ledger.configuration() == conf
                        &&& committed::<S::Session>(ledger.model())
                    },
                    Err(MultiError::A(_)) => false,
                    Err(MultiError::B(e)) => {
                        ||| exists|state: EffectiveState|
                            {
                                &&& state.well_formed()
                                &&& state@ == issued(articles, given_readings(readings)).state
                                &&& #[trigger] call_ensures(S::new, (articles, state, conf), Err(e))
                            }
                        ||| commit_answer::<S::Session>(
                            issued(articles, given_readings(readings)),
                            Err(e),
                        )
                    },
                },
            },
    {
        let contract_id = articles.contract_id;
        let state = match EffectiveState::with_articles(&articles, readings) {
            Ok(state) => state,
            Err(e) => {
                return Err(MultiError::A(IssueError::Genesis(articles.name.clone(), e)));
            },
        };
        let ghost start = state;
        let mut stock = match S::new(articles, state, conf) {
            Ok(stock) => stock,
            Err(e) => {
                assert(call_ensures(S::new, (articles, start, conf), Err(e)));
                return Err(MultiError::B(e));
            },
        };
        let genesis_opid = stock.articles().genesis_opid();
        let s = stock.session();
        s.mark_valid(genesis_opid);
        let ghost start = s.model();
        let done = s.commit_transaction();
        let ghost answer = done;
        proof {
            assert(start =~= issued(articles, given_readings(readings)));
            assert(commit_answer::<S::Session>(start, answer));
        }
        match done {
            Ok(()) => Ok(Ledger(stock, contract_id)),
            Err(e) => Err(MultiError::B(e)),
        }
    }

    /// Opens the ledger of a contract which was issued before.
    pub fn load(conf: S::Conf) -> (r: Result<Self, S::Error>)
        ensures
            r matches Ok(ledger) ==> {
                &&& ledger.well_formed()
                &&& ledger.model() == ledger.data().model()
                &&& ledger.configuration() == ledger.data().configuration()
                &&& call_ensures(S::load, (conf,), Ok(ledger.data()))
            },
            r matches Err(e) ==> call_ensures(S::load, (conf,), Err(e)),
    {
        match S::load(conf) {
            Ok(stock) => {
                let contract_id = stock.articles().contract_id;
                Ok(Ledger(stock, contract_id))
            },
            Err(e) => Err(e),
        }
    }

    pub fn config(&self) -> (r: S::Conf)
        ensures
            r == self.configuration(),
    {
        self.0.config()
    }

    pub fn stock(&self) -> (r: &S)
        ensures
            *r == self.data(),
            r.model() == self.model(),
            r.configuration() == self.configuration(),
    {
        &self.0
    }

    pub fn contract_id(&self) -> (r: ContractId)
        ensures
            r == self.id(),
    {
        self.1
    }

    pub fn articles(&self) -> (r: &Articles)
        ensures
            *r == self.model().articles,
            r.well_formed(),
    {
        self.0.articles()
    }

    pub fn state(&self) -> (r: &EffectiveState)
        ensures
            r@ == self.model().state,
            r.well_formed(),
    {
        self.0.state()
    }

    pub fn is_valid(&mut self, opid: Opid) -> (r: bool)
        ensures
            r == old(self).model().valid.contains(opid),
            final(self).model() == old(self).model(),
            final(self).id() == old(self).id(),
            final(self).configuration() == old(self).configuration(),
    {
        self.0.session().is_valid(opid)
    }

    pub fn has_operation(&mut self, opid: Opid) -> (r: bool)
        ensures
            r == old(self).model().ops.contains_key(opid),
            final(self).model() == old(self).model(),
            final(self).id() == old(self).id(),
            final(self).configuration() == old(self).configuration(),
    {
        self.0.session().has_operation(opid)
    }

    pub fn operation(&mut self, opid: Opid) -> (r: Operation)
        requires
            old(self).model().ops.contains_key(opid),
        ensures
            r@ == old(self).model().ops[opid],
            r@.well_formed(),
            final(self).model() == old(self).model(),
            final(self).id() == old(self).id(),
            final(self).configuration() == old(self).configuration(),
    {
        self.0.session().operation(opid)
    }

    /// Shared-ownership variant of [`Self::operation`].
    pub fn operation_arc(&mut self, opid: Opid) -> (r: Arc<Operation>)
        requires
            old(self).model().ops.contains_key(opid),
        ensures
            r@ == old(self).model().ops[opid],
            final(self).model() == old(self).model(),
            final(self).id() == old(self).id(),
            final(self).configuration() == old(self).configuration(),
    {
        Arc::new(self.0.session().operation(opid))
    }

    pub fn operations(&mut self) -> (r: Vec<(Opid, Operation)>)
        ensures
            stash_of(r@) == old(self).model().stash,
            final(self).model() == old(self).model(),
            final(self).id() == old(self).id(),
            final(self).configuration() == old(self).configuration(),
    {
        self.0.session().operations()
    }

    pub fn valid_opids(&mut self) -> (r: Vec<Opid>)
        ensures
            r@ == valid_of(old(self).model().stash, old(self).model().valid),
            final(self).model() == old(self).model(),
            final(self).id() == old(self).id(),
            final(self).configuration() == old(self).configuration(),
    {
        self.0.session().valid_opids()
    }

    pub fn operation_parent_ops(&mut self) -> (r: Vec<(Opid, Vec<Opid>)>)
        ensures
            r@.len() == old(self).model().stash.len(),
            forall|i: int|
                0 <= i < r@.len() ==> (#[trigger] r@[i]).0 == old(self).model().stash[i].0 && r@[i].1@
                    == parent_list(old(self).model().stash[i].1),
            final(self).model() == old(self).model(),
            final(self).id() == old(self).id(),
            final(self).configuration() == old(self).configuration(),
    {
        self.0.session().operation_parent_ops()
    }

    /// Numbers of outputs of the operations; which outputs are counted is up to the stock.
    pub fn operation_output_counts(&mut self) -> (r: Vec<(Opid, u16)>)
        ensures
            exists|s: &mut S::Session|
                {
                    &&& s.model() == old(self).model()
                    &&& final(s).model() == final(self).model()
                    &&& #[trigger] call_ensures(S::Session::operation_output_counts, (s,), r)
                },
            final(self).model() == old(self).model(),
            final(self).id() == old(self).id(),
            final(self).configuration() == old(self).configuration(),
    {
        self.0.session().operation_output_counts()
    }

    pub fn trace_iter(&mut self) -> (r: Vec<(Opid, Transition)>)
        ensures
            forall|i: int|
                0 <= i < r@.len() ==> old(self).model().trace.contains_key((#[trigger] r@[i]).0)
                    && old(self).model().trace[r@[i].0] == r@[i].1@ && r@[i].1@.well_formed(),
            forall|opid: Opid| #[trigger]
                old(self).model().trace.contains_key(opid) ==> exists|i: int|
                    0 <= i < r@.len() && (#[trigger] r@[i]).0 == opid,
            final(self).model() == old(self).model(),
            final(self).id() == old(self).id(),
            final(self).configuration() == old(self).configuration(),
    {
        self.0.session().trace()
    }

    pub fn read_by(&mut self, addr: CellAddr) -> (r: Vec<Opid>)
        ensures
            r@ == readers(old(self).model().read, addr),
            final(self).model() == old(self).model(),
            final(self).id() == old(self).id(),
            final(self).configuration() == old(self).configuration(),
    {
        self.0.session().read_by(addr)
    }

    pub fn spent_by(&mut self, addr: CellAddr) -> (r: Option<Opid>)
        ensures
            match r {
                Some(opid) => old(self).model().spent.contains_key(addr) && old(self).model().spent[addr] == opid,
                None => !old(self).model().spent.contains_key(addr),
            },
            final(self).model() == old(self).model(),
            final(self).id() == old(self).id(),
            final(self).configuration() == old(self).configuration(),
    {
        self.0.session().spent_by(addr)
    }

    pub fn operation_count(&mut self) -> (r: u64)
        ensures
            r == old(self).model().stash.len(),
            final(self).model() == old(self).model(),
            final(self).id() == old(self).id(),
            final(self).configuration() == old(self).configuration(),
    {
        self.0.session().operation_count()
    }

    pub fn transition(&mut self, opid: Opid) -> (r: Transition)
        requires
            old(self).model().trace.contains_key(opid),
        ensures
            r@ == old(self).model().trace[opid],
            r@.well_formed(),
            final(self).model() == old(self).model(),
            final(self).id() == old(self).id(),
            final(self).configuration() == old(self).configuration(),
    {
        self.0.session().transition(opid)
    }

    /// Announces the operations which are about to be applied.
    pub fn preload_apply_insert_lookups(&mut self, operations: &Vec<Operation>)
        ensures
            exists|s: &mut S::Session|
                {
                    &&& s.model() == old(self).model()
                    &&& final(s).model() == final(self).model()
                    &&& #[trigger] call_ensures(
                        S::Session::preload_apply_insert_lookups,
                        (s, operations),
                        (),
                    )
                },
            final(self).model() == old(self).model(),
            final(self).id() == old(self).id(),
            final(self).configuration() == old(self).configuration(),
    {
        self.0.session().preload_apply_insert_lookups(operations)
    }

    /// Persists what has been done.
    pub fn commit_transaction(&mut self) -> (r: Result<(), S::Error>)
        ensures
            commit_answer::<S::Session>(old(self).model(), r),
            final(self).model() == old(self).model(),
            final(self).id() == old(self).id(),
            final(self).configuration() == old(self).configuration(),
    {
        self.0.session().commit_transaction()
    }
}

} // verus!
