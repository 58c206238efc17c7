//! Chains of operations: the operations reached from the given ones, in the order of the discovery.

use crate::types::Opid;
use indexmap::IndexSet;
use vstd::prelude::*;

verus! {

/// Set which keeps the order of insertion.
#[verifier::external_type_specification]
#[verifier::external_body]
#[verifier::reject_recursive_types(T)]
#[verifier::reject_recursive_types(S)]
pub struct ExIndexSet<T, S>(IndexSet<T, S>);

/// The operations in the set, in the order of insertion.
pub uninterp spec fn chain_content(set: IndexSet<(u128, u128)>) -> Seq<Opid>;

/// The chain with one more operation, unless it is there.
pub open spec fn with_link(chain: Seq<Opid>, opid: Opid) -> Seq<Opid> {
    if chain.contains(opid) {
        chain
    } else {
        chain.push(opid)
    }
}

/// The chain with the operations of a list, but those which are there.
pub open spec fn extended(chain: Seq<Opid>, list: Seq<Opid>) -> Seq<Opid>
    decreases list.len(),
{
    if list.len() == 0 {
        chain
    } else {
        with_link(extended(chain, list.drop_last()), list.last())
    }
}

/// `indexmap::IndexSet::new`: an empty set.
#[verifier::external_body]
fn chain_new() -> (r: IndexSet<(u128, u128)>)
    ensures
        chain_content(r) == Seq::<Opid>::empty(),
{
    IndexSet::new()
}

/// `indexmap::IndexSet::insert`: an item which is not in the set comes last.
#[verifier::external_body]
fn chain_insert(set: &mut IndexSet<(u128, u128)>, opid: Opid)
    ensures
        chain_content(*final(set)) == with_link(chain_content(*old(set)), opid),
{
    set.insert((opid.hi, opid.lo));
}

/// `indexmap::IndexSet::get_index`: the item at a position. The number of the items, as that of any
/// collection in memory, fits the address space.
#[verifier::external_body]
fn chain_get(set: &IndexSet<(u128, u128)>, index: usize) -> (r: Option<Opid>)
    ensures
        match r {
            Some(opid) => index < chain_content(*set).len() <= usize::MAX && opid
                == chain_content(*set)[index as int],
            None => index >= chain_content(*set).len(),
        },
{
    set.get_index(index).map(|item| Opid { hi: item.0, lo: item.1 })
}

/// Chain of operations under construction: those before the cursor have been followed.
pub struct Chain {
    set: IndexSet<(u128, u128)>,
    cursor: usize,
    cuts: Ghost<Seq<int>>,
}

/// The chain is what following the links from the seeds discovers: first the seeds, then, for each
/// operation of the chain in turn, those of its links which were not there before. The cuts are the
/// lengths of the chain before and after each of these steps.
pub open spec fn discovered(
    seeds: Seq<Opid>,
    links: spec_fn(Opid) -> Seq<Opid>,
    chain: Seq<Opid>,
    cuts: Seq<int>,
    upto: int,
) -> bool {
    &&& cuts.len() == upto + 1
    &&& 0 <= upto <= chain.len()
    &&& forall|i: int| 0 <= i <= upto ==> i <= #[trigger] cuts[i] <= chain.len()
    &&& forall|i: int| 0 <= i < upto ==> i < #[trigger] cuts[i]
    &&& cuts[upto] == chain.len()
    &&& chain.take(cuts[0]) == extended(Seq::empty(), seeds)
    &&& forall|i: int|
        0 <= i < upto ==> chain.take(cuts[i + 1]) == extended(
            #[trigger] chain.take(cuts[i]),
            links(chain[i]),
        )
}

/// The complete chain from the seeds.
pub open spec fn walk(seeds: Seq<Opid>, links: spec_fn(Opid) -> Seq<Opid>, chain: Seq<Opid>) -> bool {
    exists|cuts: Seq<int>| #[trigger]
        discovered(seeds, links, chain, cuts, chain.len() as int)
}

/// Extension keeps the beginning, repeats nothing, and holds what was there and the list.
pub proof fn lemma_extended(chain: Seq<Opid>, list: Seq<Opid>)
    requires
        chain.no_duplicates(),
    ensures
        extended(chain, list).no_duplicates(),
        chain.len() <= extended(chain, list).len(),
        extended(chain, list).take(chain.len() as int) == chain,
        forall|opid: Opid| #[trigger]
            extended(chain, list).contains(opid) <==> chain.contains(opid) || list.contains(opid),
    decreases list.len(),
{
    if list.len() == 0 {
        assert(chain.take(chain.len() as int) =~= chain);
    } else {
        let less = list.drop_last();
        let earlier = extended(chain, less);
        let last = list.last();
        lemma_extended(chain, less);
        let whole = extended(chain, list);
        assert(whole == with_link(earlier, last));
        assert(whole.take(chain.len() as int) =~= earlier.take(chain.len() as int));
        assert forall|opid: Opid| #[trigger] whole.contains(opid) <==> chain.contains(opid)
            || list.contains(opid) by {
            if list.contains(opid) {
                let k = choose|k: int| 0 <= k < list.len() && list[k] == opid;
                if k < less.len() {
                    assert(less[k] == opid);
                    assert(earlier.contains(opid));
                    let m = choose|m: int| 0 <= m < earlier.len() && earlier[m] == opid;
                    assert(whole[m] == opid);
                } else if !earlier.contains(last) {
                    assert(whole[earlier.len() as int] == opid);
                }
            }
            if chain.contains(opid) {
                assert(earlier.contains(opid));
                let m = choose|m: int| 0 <= m < earlier.len() && earlier[m] == opid;
                assert(whole[m] == opid);
            }
            if whole.contains(opid) {
                let m = choose|m: int| 0 <= m < whole.len() && whole[m] == opid;
                if m < earlier.len() {
                    assert(earlier.contains(opid));
                    if less.contains(opid) {
                        let k = choose|k: int| 0 <= k < less.len() && less[k] == opid;
                        assert(list[k] == opid);
                    }
                } else {
                    assert(list[list.len() - 1] == opid);
                }
            }
        }
    }
}

impl Chain {
    /// The operations discovered so far.
    pub closed spec fn content(self) -> Seq<Opid> {
        chain_content(self.set)
    }

    /// The number of operations which have been followed.
    pub closed spec fn cursor(self) -> int {
        self.cursor as int
    }

    /// The chain is what has been discovered so far.
    pub closed spec fn well_formed(self, seeds: Seq<Opid>, links: spec_fn(Opid) -> Seq<Opid>) -> bool {
        &&& self.content().no_duplicates()
        &&& discovered(seeds, links, self.content(), self.cuts@, self.cursor as int)
    }

    /// A chain with the seeds, none of which has been followed.
    pub fn new(seeds: &Vec<Opid>, Ghost(links): Ghost<spec_fn(Opid) -> Seq<Opid>>) -> (r: Chain)
        ensures
            r.well_formed(seeds@, links),
            r.content() == extended(Seq::empty(), seeds@),
            r.cursor() == 0,
    {
        let mut set = chain_new();
        let mut i: usize = 0;
        assert(seeds@.take(0) =~= Seq::empty());
        while i < seeds.len()
            invariant
                i <= seeds@.len(),
                chain_content(set) == extended(Seq::empty(), seeds@.take(i as int)),
            decreases seeds@.len() - i,
        {
            chain_insert(&mut set, seeds[i]);
            proof {
                assert(seeds@.take(i + 1).drop_last() =~= seeds@.take(i as int));
            }
            i = i + 1;
        }
        assert(seeds@.take(seeds@.len() as int) =~= seeds@);
        let ghost content = chain_content(set);
        let ghost first = seq![content.len() as int];
        proof {
            lemma_extended(Seq::empty(), seeds@);
            assert(content.take(content.len() as int) =~= content);
        }
        Chain { set, cursor: 0, cuts: Ghost(first) }
    }

    /// The next operation to follow.
    pub fn next(&self) -> (r: Option<Opid>)
        ensures
            match r {
                Some(opid) => self.cursor() < self.content().len() <= usize::MAX && opid
                    == self.content()[self.cursor()],
                None => self.cursor() >= self.content().len(),
            },
    {
        chain_get(&self.set, self.cursor)
    }

    /// Follows the links of the next operation.
    pub fn follow(
        &mut self,
        list: &Vec<Opid>,
        Ghost(seeds): Ghost<Seq<Opid>>,
        Ghost(links): Ghost<spec_fn(Opid) -> Seq<Opid>>,
    )
        requires
            old(self).well_formed(seeds, links),
            old(self).cursor() < old(self).content().len() <= usize::MAX,
            list@ == links(old(self).content()[old(self).cursor()]),
        ensures
            final(self).well_formed(seeds, links),
            final(self).cursor() == old(self).cursor() + 1,
            final(self).content() == extended(old(self).content(), list@),
    {
        let ghost before = *self;
        let mut i: usize = 0;
        assert(list@.take(0) =~= Seq::empty());
        while i < list.len()
            invariant
                i <= list@.len(),
                self.cursor == before.cursor,
                self.cuts == before.cuts,
                self.content() == extended(before.content(), list@.take(i as int)),
            decreases list@.len() - i,
        {
            chain_insert(&mut self.set, list[i]);
            proof {
                assert(list@.take(i + 1).drop_last() =~= list@.take(i as int));
            }
            i = i + 1;
        }
        assert(list@.take(list@.len() as int) =~= list@);
        self.cuts = Ghost(self.cuts@.push(self.content().len() as int));
        self.cursor = self.cursor + 1;
        proof {
            lemma_extended(before.content(), list@);
            lemma_followed(
                seeds,
                links,
                before.content(),
                before.cuts@,
                before.cursor as int,
                self.content(),
            );
        }
    }

    /// The operations of the chain.
    pub fn into_list(self) -> (r: Vec<Opid>)
        ensures
            r@ == self.content(),
    {
        let mut list: Vec<Opid> = Vec::new();
        loop
            invariant
                list@.len() <= self.content().len(),
                list@ == self.content().take(list@.len() as int),
            decreases self.content().len() - list@.len(),
        {
            match chain_get(&self.set, list.len()) {
                Some(opid) => {
                    let ghost before = list@;
                    list.push(opid);
                    assert(list@ =~= self.content().take(before.len() as int + 1));
                },
                None => {
                    assert(self.content().take(self.content().len() as int) =~= self.content());
                    return list;
                },
            }
        }
    }
}

/// The chain stays what has been discovered when one more operation is followed.
pub proof fn lemma_followed(
    seeds: Seq<Opid>,
    links: spec_fn(Opid) -> Seq<Opid>,
    chain: Seq<Opid>,
    cuts: Seq<int>,
    upto: int,
    longer: Seq<Opid>,
)
    requires
        chain.no_duplicates(),
        discovered(seeds, links, chain, cuts, upto),
        upto < chain.len(),
        longer == extended(chain, links(chain[upto])),
    ensures
        discovered(seeds, links, longer, cuts.push(longer.len() as int), upto + 1),
{
    lemma_extended(chain, links(chain[upto]));
    let more = cuts.push(longer.len() as int);
    assert forall|i: int| 0 <= i <= upto implies longer.take(#[trigger] more[i]) == chain.take(cuts[i]) by {
        assert(longer.take(cuts[i]) =~= longer.take(chain.len() as int).take(cuts[i]));
    }
    assert forall|i: int| 0 <= i < chain.len() implies longer[i] == chain[i] by {
        assert(longer.take(chain.len() as int)[i] == longer[i]);
    }
    assert(longer.take(longer.len() as int) =~= longer);
    assert(chain.take(chain.len() as int) =~= chain);
    assert forall|i: int| 0 <= i < upto + 1 implies longer.take(more[i + 1]) == extended(
        #[trigger] longer.take(more[i]),
        links(longer[i]),
    ) by {
        if i < upto {
            assert(more[i + 1] == cuts[i + 1]);
            assert(chain.take(cuts[i + 1]) == extended(chain.take(cuts[i]), links(chain[i])));
        }
    }
    assert(more[0] == cuts[0]);
}

/// A chain, every operation of which has been followed, is complete.
pub proof fn lemma_complete(
    chain: Chain,
    seeds: Seq<Opid>,
    links: spec_fn(Opid) -> Seq<Opid>,
)
    requires
        chain.well_formed(seeds, links),
        chain.cursor() >= chain.content().len(),
    ensures
        walk(seeds, links, chain.content()),
        chain.content().no_duplicates(),
{
    assert(discovered(seeds, links, chain.content(), chain.cuts@, chain.content().len() as int));
}

/// Whatever has been discovered so far is reached.
pub proof fn lemma_content_is_reached(
    chain: Chain,
    seeds: Seq<Opid>,
    links: spec_fn(Opid) -> Seq<Opid>,
    i: int,
)
    requires
        chain.well_formed(seeds, links),
        0 <= i < chain.content().len(),
    ensures
        reached(seeds, links, chain.content()[i]),
{
    let n = chain.cursor as int;
    let content = chain.content();
    assert(content.take(chain.cuts@[n]) =~= content);
    assert(content.take(chain.cuts@[n]).contains(content[i]));
    lemma_prefix_reached(seeds, links, content, chain.cuts@, n, n, content[i]);
}

/// Following the links leads from a seed to the end of the path.
pub open spec fn link_path(
    seeds: Seq<Opid>,
    links: spec_fn(Opid) -> Seq<Opid>,
    path: Seq<Opid>,
) -> bool {
    &&& path.len() > 0
    &&& seeds.contains(path[0])
    &&& forall|k: int| 0 < k < path.len() ==> links(path[k - 1]).contains(#[trigger] path[k])
}

/// An operation is reached from the seeds.
pub open spec fn reached(seeds: Seq<Opid>, links: spec_fn(Opid) -> Seq<Opid>, opid: Opid) -> bool {
    exists|path: Seq<Opid>| #[trigger] link_path(seeds, links, path) && path.last() == opid
}

/// A chain holds exactly the operations which following the links reaches, each of them once.
pub proof fn law_chain_holds_the_reached(
    seeds: Seq<Opid>,
    links: spec_fn(Opid) -> Seq<Opid>,
    chain: Seq<Opid>,
)
    requires
        walk(seeds, links, chain),
    ensures
        chain.no_duplicates(),
        forall|opid: Opid| #[trigger] chain.contains(opid) <==> reached(seeds, links, opid),
{
    let cuts = choose|cuts: Seq<int>| #[trigger]
        discovered(seeds, links, chain, cuts, chain.len() as int);
    let n = chain.len() as int;
    lemma_prefix_unique(seeds, links, chain, cuts, n, n);
    assert(chain.take(cuts[n]) =~= chain);
    assert forall|opid: Opid| #[trigger] chain.contains(opid) implies reached(seeds, links, opid) by {
        lemma_prefix_reached(seeds, links, chain, cuts, n, n, opid);
    }
    assert forall|opid: Opid| reached(seeds, links, opid) implies #[trigger] chain.contains(opid) by {
        let path = choose|path: Seq<Opid>| #[trigger]
            link_path(seeds, links, path) && path.last() == opid;
        lemma_path_in_chain(seeds, links, chain, cuts, path);
    }
}

/// A chain holds the seeds and, with each operation, those to which its links lead. Everything in it
/// has its reason: an operation is a seed, or a link leads to it from one which stands earlier.
pub proof fn law_chain_is_closed(
    seeds: Seq<Opid>,
    links: spec_fn(Opid) -> Seq<Opid>,
    chain: Seq<Opid>,
)
    requires
        walk(seeds, links, chain),
    ensures
        forall|opid: Opid| #[trigger] seeds.contains(opid) ==> chain.contains(opid),
        forall|i: int, opid: Opid|
            0 <= i < chain.len() && #[trigger] links(chain[i]).contains(opid) ==> chain.contains(opid),
        forall|i: int|
            0 <= i < chain.len() ==> seeds.contains(#[trigger] chain[i]) || exists|j: int|
                0 <= j < i && #[trigger] links(chain[j]).contains(chain[i]),
{
    let n = chain.len() as int;
    let cuts = choose|cuts: Seq<int>| #[trigger] discovered(seeds, links, chain, cuts, n);
    law_chain_holds_the_reached(seeds, links, chain);
    assert forall|opid: Opid| #[trigger] seeds.contains(opid) implies chain.contains(opid) by {
        let path = seq![opid];
        assert(link_path(seeds, links, path));
        assert(path.last() == opid);
        assert(reached(seeds, links, opid));
    }
    assert forall|i: int, opid: Opid|
        0 <= i < chain.len() && #[trigger] links(chain[i]).contains(opid) implies chain.contains(
        opid,
    ) by {
        lemma_chain_is_closed(seeds, links, chain, cuts, i, opid);
    }
    assert forall|i: int| 0 <= i < chain.len() implies seeds.contains(#[trigger] chain[i])
        || exists|j: int| 0 <= j < i && #[trigger] links(chain[j]).contains(chain[i]) by {
        lemma_reason(seeds, links, chain, cuts, n, i);
    }
}

/// A chain starts with the seeds, in their order, and goes on in the order of the discovery: what comes
/// earlier was found by following no later one.
pub proof fn law_chain_is_discovered_in_order(
    seeds: Seq<Opid>,
    links: spec_fn(Opid) -> Seq<Opid>,
    chain: Seq<Opid>,
)
    requires
        walk(seeds, links, chain),
    ensures
        seeds.no_duplicates() ==> seeds.is_prefix_of(chain),
        forall|i: int, k: int, j: int|
            0 <= i < k < chain.len() && 0 <= j < chain.len() && #[trigger] links(chain[j]).contains(
                chain[k],
            ) ==> seeds.contains(#[trigger] chain[i]) || exists|d: int|
                0 <= d <= j && #[trigger] links(chain[d]).contains(chain[i]),
{
    let n = chain.len() as int;
    let cuts = choose|cuts: Seq<int>| #[trigger] discovered(seeds, links, chain, cuts, n);
    if seeds.no_duplicates() {
        lemma_extended_apart(Seq::empty(), seeds);
        assert(Seq::<Opid>::empty() + seeds =~= seeds);
        assert(chain.take(cuts[0]) == seeds);
        assert(chain.subrange(0, seeds.len() as int) =~= seeds);
    }
    assert forall|i: int, k: int, j: int|
        0 <= i < k < chain.len() && 0 <= j < chain.len() && #[trigger] links(chain[j]).contains(
            chain[k],
        ) implies seeds.contains(#[trigger] chain[i]) || exists|d: int|
        0 <= d <= j && #[trigger] links(chain[d]).contains(chain[i]) by {
        lemma_in_turn(seeds, links, chain, cuts, i, k, j);
    }
}

/// What stands before an operation, to which a link leads, is found no later.
proof fn lemma_in_turn(
    seeds: Seq<Opid>,
    links: spec_fn(Opid) -> Seq<Opid>,
    chain: Seq<Opid>,
    cuts: Seq<int>,
    i: int,
    k: int,
    j: int,
)
    requires
        discovered(seeds, links, chain, cuts, chain.len() as int),
        0 <= i < k < chain.len(),
        0 <= j < chain.len(),
        links(chain[j]).contains(chain[k]),
    ensures
        seeds.contains(chain[i]) || exists|d: int|
            0 <= d <= j && #[trigger] links(chain[d]).contains(chain[i]),
{
    let n = chain.len() as int;
    lemma_prefix_unique(seeds, links, chain, cuts, n, j);
    lemma_prefix_unique(seeds, links, chain, cuts, n, n);
    assert(chain.take(cuts[n]) =~= chain);
    lemma_extended(chain.take(cuts[j]), links(chain[j]));
    assert(j + 1 <= cuts[j + 1] <= n);
    let later = chain.take(cuts[j + 1]);
    assert(later == extended(chain.take(cuts[j]), links(chain[j])));
    assert(later.contains(chain[k]));
    let m = choose|m: int| 0 <= m < later.len() && later[m] == chain[k];
    assert(later[m] == chain[m]);
    assert(m == k);
    lemma_reason(seeds, links, chain, cuts, j + 1, i);
}

/// Different operations, none of which is in the chain, come one after another.
proof fn lemma_extended_apart(chain: Seq<Opid>, list: Seq<Opid>)
    requires
        list.no_duplicates(),
        chain.no_duplicates(),
        forall|i: int| 0 <= i < list.len() ==> !chain.contains(#[trigger] list[i]),
    ensures
        extended(chain, list) == chain + list,
    decreases list.len(),
{
    if list.len() == 0 {
        assert(chain + list =~= chain);
    } else {
        let less = list.drop_last();
        let last = list.last();
        let n = list.len() - 1;
        assert forall|i: int| 0 <= i < less.len() implies !chain.contains(#[trigger] less[i]) by {
            assert(less[i] == list[i]);
        }
        lemma_extended_apart(chain, less);
        lemma_extended(chain, less);
        assert(!chain.contains(list[n]));
        if less.contains(last) {
            let i = choose|i: int| 0 <= i < less.len() && less[i] == last;
            assert(list[i] == list[n]);
        }
        assert(!extended(chain, less).contains(last));
        assert((chain + less).push(last) =~= chain + list);
    }
}

/// An operation discovered in the first steps is a seed, or an earlier one leads to it.
proof fn lemma_reason(
    seeds: Seq<Opid>,
    links: spec_fn(Opid) -> Seq<Opid>,
    chain: Seq<Opid>,
    cuts: Seq<int>,
    m: int,
    i: int,
)
    requires
        discovered(seeds, links, chain, cuts, chain.len() as int),
        0 <= m <= chain.len(),
        0 <= i < cuts[m],
    ensures
        seeds.contains(chain[i]) || exists|j: int|
            0 <= j < i && j < m && #[trigger] links(chain[j]).contains(chain[i]),
    decreases m,
{
    let n = chain.len() as int;
    assert(m <= cuts[m] <= n);
    if m == 0 {
        lemma_extended(Seq::empty(), seeds);
        assert(chain.take(cuts[0])[i] == chain[i]);
        assert(chain.take(cuts[0]).contains(chain[i]));
    } else if i < cuts[m - 1] {
        lemma_reason(seeds, links, chain, cuts, m - 1, i);
    } else {
        let k = m - 1;
        assert(k < cuts[k]);
        let earlier = chain.take(cuts[k]);
        let later = chain.take(cuts[k + 1]);
        assert(later == extended(chain.take(cuts[k]), links(chain[k])));
        lemma_prefix_unique(seeds, links, chain, cuts, n, k);
        lemma_prefix_unique(seeds, links, chain, cuts, n, m);
        lemma_extended(earlier, links(chain[k]));
        assert(later[i] == chain[i]);
        assert(later.contains(chain[i]));
        if earlier.contains(chain[i]) {
            let d = choose|d: int| 0 <= d < earlier.len() && earlier[d] == chain[i];
            assert(later[d] == chain[d]);
            assert(later[d] == later[i]);
        }
        assert(links(chain[k]).contains(chain[i]));
    }
}

/// The steps of two discoveries are the same.
proof fn lemma_same_steps(
    seeds: Seq<Opid>,
    links: spec_fn(Opid) -> Seq<Opid>,
    one: Seq<Opid>,
    other: Seq<Opid>,
    one_cuts: Seq<int>,
    other_cuts: Seq<int>,
    i: int,
)
    requires
        discovered(seeds, links, one, one_cuts, one.len() as int),
        discovered(seeds, links, other, other_cuts, other.len() as int),
        0 <= i <= one.len(),
        i <= other.len(),
    ensures
        one_cuts[i] == other_cuts[i],
        one.take(one_cuts[i]) == other.take(other_cuts[i]),
    decreases i,
{
    if i == 0 {
        assert(one.take(one_cuts[0]).len() == other.take(other_cuts[0]).len());
    } else {
        lemma_same_steps(seeds, links, one, other, one_cuts, other_cuts, i - 1);
        let k = one_cuts[i - 1];
        assert(i - 1 < one_cuts[i - 1]);
        assert(one.take(k)[i - 1] == other.take(k)[i - 1]);
        assert(one.take(one_cuts[i - 1 + 1]) == extended(one.take(one_cuts[i - 1]), links(one[i - 1])));
        assert(other.take(other_cuts[i - 1 + 1]) == extended(
            other.take(other_cuts[i - 1]),
            links(other[i - 1]),
        ));
        assert(0 <= one_cuts[i] <= one.len() && 0 <= other_cuts[i] <= other.len());
        assert(one.take(one_cuts[i]).len() == other.take(other_cuts[i]).len());
    }
}

/// Following the links from the same seeds discovers the same chain.
pub proof fn law_chain_is_unique(
    seeds: Seq<Opid>,
    links: spec_fn(Opid) -> Seq<Opid>,
    one: Seq<Opid>,
    other: Seq<Opid>,
)
    requires
        walk(seeds, links, one),
        walk(seeds, links, other),
    ensures
        one == other,
{
    let one_cuts = choose|cuts: Seq<int>| #[trigger]
        discovered(seeds, links, one, cuts, one.len() as int);
    let other_cuts = choose|cuts: Seq<int>| #[trigger]
        discovered(seeds, links, other, cuts, other.len() as int);
    let n = if one.len() <= other.len() {
        one.len() as int
    } else {
        other.len() as int
    };
    lemma_same_steps(seeds, links, one, other, one_cuts, other_cuts, n);
    if n < one.len() {
        assert(n < one_cuts[n]);
    }
    if n < other.len() {
        assert(n < other_cuts[n]);
    }
    assert(one.take(one.len() as int) =~= one);
    assert(other.take(other.len() as int) =~= other);
}

/// No operation repeats in the part of the chain discovered by a step.
proof fn lemma_prefix_unique(
    seeds: Seq<Opid>,
    links: spec_fn(Opid) -> Seq<Opid>,
    chain: Seq<Opid>,
    cuts: Seq<int>,
    upto: int,
    i: int,
)
    requires
        discovered(seeds, links, chain, cuts, upto),
        0 <= i <= upto,
    ensures
        chain.take(cuts[i]).no_duplicates(),
    decreases i,
{
    if i == 0 {
        lemma_extended(Seq::empty(), seeds);
    } else {
        lemma_prefix_unique(seeds, links, chain, cuts, upto, i - 1);
        let earlier = chain.take(cuts[i - 1]);
        lemma_extended(earlier, links(chain[i - 1]));
        assert(chain.take(cuts[(i - 1) + 1]) == extended(
            chain.take(cuts[i - 1]),
            links(chain[i - 1]),
        ));
    }
}

/// Everything in the part of the chain discovered by a step is reached.
proof fn lemma_prefix_reached(
    seeds: Seq<Opid>,
    links: spec_fn(Opid) -> Seq<Opid>,
    chain: Seq<Opid>,
    cuts: Seq<int>,
    upto: int,
    i: int,
    opid: Opid,
)
    requires
        discovered(seeds, links, chain, cuts, upto),
        0 <= i <= upto,
        chain.take(cuts[i]).contains(opid),
    ensures
        reached(seeds, links, opid),
    decreases i,
{
    if i == 0 {
        lemma_extended(Seq::empty(), seeds);
        assert(seeds.contains(opid));
        assert(link_path(seeds, links, seq![opid]));
        assert(seq![opid].last() == opid);
    } else {
        let earlier = chain.take(cuts[i - 1]);
        lemma_prefix_unique(seeds, links, chain, cuts, upto, i - 1);
        lemma_extended(earlier, links(chain[i - 1]));
        assert(chain.take(cuts[(i - 1) + 1]) == extended(
            chain.take(cuts[i - 1]),
            links(chain[i - 1]),
        ));
        if earlier.contains(opid) {
            lemma_prefix_reached(seeds, links, chain, cuts, upto, i - 1, opid);
        } else {
            let from = chain[i - 1];
            assert(earlier[i - 1] == from);
            lemma_prefix_reached(seeds, links, chain, cuts, upto, i - 1, from);
            let path = choose|path: Seq<Opid>| #[trigger]
                link_path(seeds, links, path) && path.last() == from;
            let longer = path.push(opid);
            assert forall|k: int| 0 < k < longer.len() implies links(longer[k - 1]).contains(
                #[trigger] longer[k],
            ) by {
                if k < path.len() {
                    assert(longer[k] == path[k]);
                    assert(longer[k - 1] == path[k - 1]);
                }
            }
            assert(link_path(seeds, links, longer));
            assert(longer.last() == opid);
        }
    }
}

/// The links of an operation of the chain are in the chain.
pub proof fn lemma_chain_is_closed(
    seeds: Seq<Opid>,
    links: spec_fn(Opid) -> Seq<Opid>,
    chain: Seq<Opid>,
    cuts: Seq<int>,
    i: int,
    opid: Opid,
)
    requires
        discovered(seeds, links, chain, cuts, chain.len() as int),
        0 <= i < chain.len(),
        links(chain[i]).contains(opid),
    ensures
        chain.contains(opid),
{
    lemma_prefix_unique(seeds, links, chain, cuts, chain.len() as int, i);
    lemma_extended(chain.take(cuts[i]), links(chain[i]));
    let later = chain.take(cuts[i + 1]);
    assert(later == extended(chain.take(cuts[i]), links(chain[i])));
    assert(later.contains(opid));
    let k = choose|k: int| 0 <= k < later.len() && later[k] == opid;
    assert(chain[k] == opid);
}

/// A path along the links stays in the chain.
proof fn lemma_path_in_chain(
    seeds: Seq<Opid>,
    links: spec_fn(Opid) -> Seq<Opid>,
    chain: Seq<Opid>,
    cuts: Seq<int>,
    path: Seq<Opid>,
)
    requires
        discovered(seeds, links, chain, cuts, chain.len() as int),
        link_path(seeds, links, path),
    ensures
        chain.contains(path.last()),
    decreases path.len(),
{
    if path.len() == 1 {
        lemma_extended(Seq::empty(), seeds);
        let first = chain.take(cuts[0]);
        assert(first.contains(path[0]));
        let k = choose|k: int| 0 <= k < first.len() && first[k] == path[0];
        assert(chain[k] == path[0]);
    } else {
        let shorter = path.drop_last();
        assert(link_path(seeds, links, shorter));
        lemma_path_in_chain(seeds, links, chain, cuts, shorter);
        let from = shorter.last();
        let i = choose|i: int| 0 <= i < chain.len() && chain[i] == from;
        let k = path.len() - 1;
        assert(links(path[k - 1]).contains(path[k]));
        lemma_chain_is_closed(seeds, links, chain, cuts, i, path.last());
    }
}

} // verus!
