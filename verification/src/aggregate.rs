//! Computed state: values which aggregators make of the global state and of each other.

use crate::processed::{ProcessedState, ProcessedView, StateAtom};
use crate::sorted::{NamedCells, SortedMap};
use strict_types::StrictVal;
use vstd::prelude::*;

verus! {

/// Aggregator of the state: the name of what it computes, and the states it needs for that.
#[derive(Debug)]
pub struct Aggregator {
    pub name: String,
    pub depends_on: Vec<String>,
}

/// The aggregator has everything it needs among the known states.
pub open spec fn ready(aggregator: Aggregator, known: Set<Seq<char>>) -> bool {
    forall|d: int|
        0 <= d < aggregator.depends_on@.len() ==> known.contains(
            (#[trigger] aggregator.depends_on@[d])@,
        )
}

/// The names which the aggregators in a list compute.
pub open spec fn computed_names(aggregators: Seq<Aggregator>, order: Seq<int>) -> Set<Seq<char>> {
    Set::new(
        |name: Seq<char>|
            exists|k: int|
                0 <= k < order.len() && aggregators[#[trigger] order[k]].name@ == name,
    )
}

/// The aggregators can run in this order, each one after those it depends on.
pub open spec fn grounded(
    aggregators: Seq<Aggregator>,
    global: Set<Seq<char>>,
    order: Seq<int>,
) -> bool {
    &&& order.no_duplicates()
    &&& forall|k: int| 0 <= k < order.len() ==> 0 <= #[trigger] order[k] < aggregators.len()
    &&& forall|k: int|
        0 <= k < order.len() ==> ready(
            aggregators[#[trigger] order[k]],
            global.union(computed_names(aggregators, order.take(k))),
        )
}

/// The computed values after an aggregator was visited: a value it has given takes the place of an
/// earlier one.
pub open spec fn given(
    aggregators: Seq<Aggregator>,
    computed: Map<Seq<char>, StrictVal>,
    index: int,
    value: Option<StrictVal>,
) -> Map<Seq<char>, StrictVal> {
    match value {
        None => computed,
        Some(value) => computed.insert(aggregators[index].name@, value),
    }
}

/// The computed values after the first aggregators were visited, one by one.
pub open spec fn after_visits(
    aggregators: Seq<Aggregator>,
    computed: Map<Seq<char>, StrictVal>,
    values: Seq<Option<StrictVal>>,
) -> Map<Seq<char>, StrictVal>
    decreases values.len(),
{
    if values.len() == 0 {
        computed
    } else {
        given(
            aggregators,
            after_visits(aggregators, computed, values.drop_last()),
            values.len() - 1,
            values.last(),
        )
    }
}

/// The computed values after rounds, in each of which every aggregator is visited.
pub open spec fn after_rounds(
    aggregators: Seq<Aggregator>,
    rounds: Seq<Seq<Option<StrictVal>>>,
) -> Map<Seq<char>, StrictVal>
    decreases rounds.len(),
{
    if rounds.len() == 0 {
        Map::empty()
    } else {
        after_visits(aggregators, after_rounds(aggregators, rounds.drop_last()), rounds.last())
    }
}

/// What a visit to an aggregator gives: an aggregator which has everything it needs is evaluated on
/// the global state and on exactly the values computed so far; another one gives nothing.
pub open spec fn visited<
    F: Fn(usize, usize, &NamedCells<StateAtom>, &SortedMap<String, StrictVal>) -> Option<StrictVal>,
>(
    aggregators: Seq<Aggregator>,
    global: NamedCells<StateAtom>,
    evaluate: F,
    api: usize,
    computed: Map<Seq<char>, StrictVal>,
    index: int,
    value: Option<StrictVal>,
) -> bool {
    if ready(aggregators[index], global@.dom().union(computed.dom())) {
        exists|known: SortedMap<String, StrictVal>|
            known.content() == computed && #[trigger] call_ensures(
                evaluate,
                (api, index as usize, &global, &known),
                value,
            )
    } else {
        value is None
    }
}

/// The first aggregators were visited, one by one.
#[verifier::opaque]
pub open spec fn visits<
    F: Fn(usize, usize, &NamedCells<StateAtom>, &SortedMap<String, StrictVal>) -> Option<StrictVal>,
>(
    aggregators: Seq<Aggregator>,
    global: NamedCells<StateAtom>,
    evaluate: F,
    api: usize,
    computed: Map<Seq<char>, StrictVal>,
    values: Seq<Option<StrictVal>>,
) -> bool {
    forall|i: int|
        0 <= i < values.len() ==> visited(
            aggregators,
            global,
            evaluate,
            api,
            after_visits(aggregators, computed, values.take(i)),
            i,
            #[trigger] values[i],
        )
}

/// One of the visits.
proof fn lemma_one_visit<
    F: Fn(usize, usize, &NamedCells<StateAtom>, &SortedMap<String, StrictVal>) -> Option<StrictVal>,
>(
    aggregators: Seq<Aggregator>,
    global: NamedCells<StateAtom>,
    evaluate: F,
    api: usize,
    computed: Map<Seq<char>, StrictVal>,
    values: Seq<Option<StrictVal>>,
    i: int,
)
    requires
        visits(aggregators, global, evaluate, api, computed, values),
        0 <= i < values.len(),
    ensures
        visited(
            aggregators,
            global,
            evaluate,
            api,
            after_visits(aggregators, computed, values.take(i)),
            i,
            values[i],
        ),
{
    reveal(visits);
}

/// A round starting with some computed values adds a name to them.
pub open spec fn adds_name(
    aggregators: Seq<Aggregator>,
    computed: Map<Seq<char>, StrictVal>,
    values: Seq<Option<StrictVal>>,
) -> bool {
    after_visits(aggregators, computed, values).dom() != computed.dom()
}

/// The round of the given number, which follows the earlier ones.
pub open spec fn is_round<
    F: Fn(usize, usize, &NamedCells<StateAtom>, &SortedMap<String, StrictVal>) -> Option<StrictVal>,
>(
    aggregators: Seq<Aggregator>,
    global: NamedCells<StateAtom>,
    evaluate: F,
    api: usize,
    rounds: Seq<Seq<Option<StrictVal>>>,
    r: int,
) -> bool {
    &&& rounds[r].len() == aggregators.len()
    &&& visits(
        aggregators,
        global,
        evaluate,
        api,
        after_rounds(aggregators, rounds.take(r)),
        rounds[r],
    )
}

/// The rounds of a computation, each of which, but for the last one, adds a name; the last one adds
/// a name if told so.
pub open spec fn is_start<
    F: Fn(usize, usize, &NamedCells<StateAtom>, &SortedMap<String, StrictVal>) -> Option<StrictVal>,
>(
    aggregators: Seq<Aggregator>,
    global: NamedCells<StateAtom>,
    evaluate: F,
    api: usize,
    rounds: Seq<Seq<Option<StrictVal>>>,
    adds: bool,
) -> bool {
    forall|r: int|
        0 <= r < rounds.len() ==> #[trigger] is_round(aggregators, global, evaluate, api, rounds, r)
            && adds_name(aggregators, after_rounds(aggregators, rounds.take(r)), rounds[r]) == (
        adds || r < rounds.len() - 1)
}

/// The rounds of a computation: the first one which adds no name is the last one.
pub open spec fn is_run<
    F: Fn(usize, usize, &NamedCells<StateAtom>, &SortedMap<String, StrictVal>) -> Option<StrictVal>,
>(
    aggregators: Seq<Aggregator>,
    global: NamedCells<StateAtom>,
    evaluate: F,
    api: usize,
    rounds: Seq<Seq<Option<StrictVal>>>,
) -> bool {
    &&& rounds.len() > 0
    &&& is_start(aggregators, global, evaluate, api, rounds, false)
}

/// A round more.
proof fn lemma_round<
    F: Fn(usize, usize, &NamedCells<StateAtom>, &SortedMap<String, StrictVal>) -> Option<StrictVal>,
>(
    aggregators: Seq<Aggregator>,
    global: NamedCells<StateAtom>,
    evaluate: F,
    api: usize,
    rounds: Seq<Seq<Option<StrictVal>>>,
    values: Seq<Option<StrictVal>>,
    adds: bool,
)
    requires
        is_start(aggregators, global, evaluate, api, rounds, true),
        values.len() == aggregators.len(),
        visits(aggregators, global, evaluate, api, after_rounds(aggregators, rounds), values),
        adds == adds_name(aggregators, after_rounds(aggregators, rounds), values),
    ensures
        is_start(aggregators, global, evaluate, api, rounds.push(values), adds),
        after_rounds(aggregators, rounds.push(values)) == after_visits(
            aggregators,
            after_rounds(aggregators, rounds),
            values,
        ),
{
    let more = rounds.push(values);
    assert(more.drop_last() =~= rounds);
    assert forall|r: int| 0 <= r < more.len() implies #[trigger] is_round(
        aggregators,
        global,
        evaluate,
        api,
        more,
        r,
    ) && adds_name(aggregators, after_rounds(aggregators, more.take(r)), more[r]) == (adds || r
        < more.len() - 1) by {
        if r < rounds.len() {
            assert(more.take(r) =~= rounds.take(r));
            assert(more[r] == rounds[r]);
            assert(is_round(aggregators, global, evaluate, api, rounds, r));
        } else {
            assert(more.take(r) =~= rounds);
        }
    }
}

/// What the aggregators make of the global state: they are visited in rounds, until a round adds no
/// name.
pub open spec fn aggregation<
    F: Fn(usize, usize, &NamedCells<StateAtom>, &SortedMap<String, StrictVal>) -> Option<StrictVal>,
>(
    aggregators: Seq<Aggregator>,
    global: NamedCells<StateAtom>,
    evaluate: F,
    api: usize,
    result: Map<Seq<char>, StrictVal>,
) -> bool {
    exists|rounds: Seq<Seq<Option<StrictVal>>>| #[trigger]
        is_run(aggregators, global, evaluate, api, rounds) && result == after_rounds(
            aggregators,
            rounds,
        )
}

/// The number of the first aggregators, the names of which are not in a set.
spec fn missing(aggregators: Seq<Aggregator>, names: Set<Seq<char>>, n: nat) -> nat
    decreases n,
{
    if n == 0 {
        0
    } else {
        missing(aggregators, names, (n - 1) as nat) + if names.contains(
            aggregators[n - 1].name@,
        ) {
            0nat
        } else {
            1nat
        }
    }
}

/// With more names fewer of them are missing.
proof fn lemma_missing(
    aggregators: Seq<Aggregator>,
    less: Set<Seq<char>>,
    more: Set<Seq<char>>,
    n: nat,
)
    requires
        less.subset_of(more),
    ensures
        missing(aggregators, more, n) <= missing(aggregators, less, n),
        forall|i: int|
            0 <= i < n && more.contains((#[trigger] aggregators[i]).name@) && !less.contains(
                aggregators[i].name@,
            ) ==> missing(aggregators, more, n) < missing(aggregators, less, n),
    decreases n,
{
    if n > 0 {
        lemma_missing(aggregators, less, more, (n - 1) as nat);
    }
}

/// A visit more.
proof fn lemma_visit(
    aggregators: Seq<Aggregator>,
    computed: Map<Seq<char>, StrictVal>,
    values: Seq<Option<StrictVal>>,
    value: Option<StrictVal>,
)
    ensures
        after_visits(aggregators, computed, values.push(value)) == given(
            aggregators,
            after_visits(aggregators, computed, values),
            values.len() as int,
            value,
        ),
{
    assert(values.push(value).drop_last() =~= values);
}

/// Visits keep the names.
proof fn lemma_visits_keep_names(
    aggregators: Seq<Aggregator>,
    computed: Map<Seq<char>, StrictVal>,
    values: Seq<Option<StrictVal>>,
    i: int,
)
    requires
        0 <= i <= values.len(),
    ensures
        computed.dom().subset_of(after_visits(aggregators, computed, values.take(i)).dom()),
        after_visits(aggregators, computed, values.take(i)).dom().subset_of(
            after_visits(aggregators, computed, values).dom(),
        ),
    decreases values.len(),
{
    if i == values.len() {
        assert(values.take(i) =~= values);
        if values.len() > 0 {
            let less = values.drop_last();
            assert(less.take(less.len() as int) =~= less);
            lemma_visits_keep_names(aggregators, computed, less, less.len() as int);
        }
    } else {
        assert(values.drop_last().take(i) =~= values.take(i));
        lemma_visits_keep_names(aggregators, computed, values.drop_last(), i);
    }
}

impl ProcessedState {
    /// Tests whether an aggregator has everything it needs.
    fn is_ready(&self, aggregator: &Aggregator) -> (r: bool)
        requires
            self.well_formed(),
        ensures
            r == ready(*aggregator, self@.global.dom().union(self@.aggregated.dom())),
    {
        let ghost known = self@.global.dom().union(self@.aggregated.dom());
        let mut d: usize = 0;
        while d < aggregator.depends_on.len()
            invariant
                d <= aggregator.depends_on@.len(),
                self.well_formed(),
                known == self@.global.dom().union(self@.aggregated.dom()),
                forall|k: int|
                    0 <= k < d ==> known.contains((#[trigger] aggregator.depends_on@[k])@),
            decreases aggregator.depends_on@.len() - d,
        {
            let name = &aggregator.depends_on[d];
            if self.global.get(name).is_none() && self.aggregated.get(name).is_none() {
                assert(!known.contains(aggregator.depends_on@[d as int]@));
                return false;
            }
            d = d + 1;
        }
        true
    }

    /// Computes aggregated state.
    ///
    /// Ignores cycle dependencies between aggregators; the computed state with them is not
    /// produced.
    pub fn aggregate<
        F: Fn(usize, usize, &NamedCells<StateAtom>, &SortedMap<String, StrictVal>) -> Option<StrictVal>,
    >(&mut self, aggregators: &Vec<Aggregator>, evaluate: &F, api: usize)
        requires
            old(self).well_formed(),
            forall|i: usize, global: NamedCells<StateAtom>, computed: SortedMap<String, StrictVal>|
                i < aggregators@.len() ==> #[trigger] call_requires(
                    *evaluate,
                    (api, i, &global, &computed),
                ),
        ensures
            final(self).well_formed(),
            final(self)@ == (ProcessedView {
                aggregated: final(self)@.aggregated,
                ..old(self)@
            }),
            aggregation(aggregators@, final(self).global, *evaluate, api, final(self)@.aggregated),
    {
        let ghost before = self@;
        let ghost global = self.global;
        let ghost n = aggregators@.len();
        self.aggregated = SortedMap::new();
        let ghost mut rounds: Seq<Seq<Option<StrictVal>>> = Seq::empty();
        assert(self@.aggregated =~= Map::empty());
        let mut changed = true;
        while changed
            invariant
                self.well_formed(),
                self.global == global,
                n == aggregators@.len(),
                self@ == (ProcessedView { aggregated: self@.aggregated, ..before }),
                self@.aggregated == after_rounds(aggregators@, rounds),
                forall|i: usize, global: NamedCells<StateAtom>, computed: SortedMap<String, StrictVal>|
                    i < aggregators@.len() ==> #[trigger] call_requires(
                        *evaluate,
                        (api, i, &global, &computed),
                    ),
                !changed ==> rounds.len() > 0,
                is_start(aggregators@, global, *evaluate, api, rounds, changed),
            decreases
                    missing(aggregators@, self@.aggregated.dom(), n),
                    (if changed {
                        1int
                    } else {
                        0
                    }),
        {
            let ghost start = self@.aggregated;
            let ghost mut values: Seq<Option<StrictVal>> = Seq::empty();
            changed = false;
            let mut i: usize = 0;
            assert(visits(aggregators@, global, *evaluate, api, start, values)) by {
                reveal(visits);
            }
            while i < aggregators.len()
                invariant
                    i <= aggregators@.len(),
                    i == values.len(),
                    n == aggregators@.len(),
                    self.well_formed(),
                    self.global == global,
                    self@ == (ProcessedView { aggregated: self@.aggregated, ..before }),
                    self@.aggregated == after_visits(aggregators@, start, values),
                    start.dom().subset_of(self@.aggregated.dom()),
                    !changed ==> self@.aggregated.dom() == start.dom(),
                    changed ==> self@.aggregated.dom() != start.dom(),
                    missing(aggregators@, self@.aggregated.dom(), n) <= missing(
                        aggregators@,
                        start.dom(),
                        n,
                    ),
                    changed ==> missing(aggregators@, self@.aggregated.dom(), n) < missing(
                        aggregators@,
                        start.dom(),
                        n,
                    ),
                    forall|i: usize, global: NamedCells<StateAtom>, computed: SortedMap<String, StrictVal>|
                        i < aggregators@.len() ==> #[trigger] call_requires(
                            *evaluate,
                            (api, i, &global, &computed),
                        ),
                    visits(aggregators@, global, *evaluate, api, start, values),
                decreases aggregators@.len() - i,
            {
                let ghost prior = self.aggregated;
                let ghost earlier = values;
                if self.is_ready(&aggregators[i]) {
                    let value = evaluate(api, i, &self.global, &self.aggregated);
                    proof {
                        assert(call_ensures(*evaluate, (api, i, &global, &prior), value));
                        values = earlier.push(value);
                    }
                    if let Some(value) = value {
                        let known = self.aggregated.get(&aggregators[i].name).is_some();
                        self.aggregated.insert(aggregators[i].name.clone(), value);
                        proof {
                            lemma_missing(
                                aggregators@,
                                prior.content().dom(),
                                self@.aggregated.dom(),
                                n,
                            );
                            if known {
                                assert(self@.aggregated.dom() =~= prior.content().dom());
                            } else {
                                let name = aggregators@[i as int].name@;
                                assert(!start.dom().contains(name));
                                assert(self@.aggregated.dom().contains(name));
                            }
                        }
                        if !known {
                            changed = true;
                        }
                    }
                } else {
                    proof {
                        values = earlier.push(None);
                    }
                }
                proof {
                    reveal(visits);
                    lemma_visit(aggregators@, start, earlier, values.last());
                    assert(visited(
                        aggregators@,
                        global,
                        *evaluate,
                        api,
                        prior.content(),
                        i as int,
                        values.last(),
                    ));
                    assert forall|k: int| 0 <= k < values.len() implies visited(
                        aggregators@,
                        global,
                        *evaluate,
                        api,
                        after_visits(aggregators@, start, values.take(k)),
                        k,
                        #[trigger] values[k],
                    ) by {
                        if k < i {
                            assert(values.take(k) =~= earlier.take(k));
                            assert(values[k] == earlier[k]);
                        } else {
                            assert(values.take(k) =~= earlier);
                        }
                    }
                }
                i = i + 1;
            }
            proof {
                lemma_round(aggregators@, global, *evaluate, api, rounds, values, changed);
                rounds = rounds.push(values);
            }
        }
        assert(is_run(aggregators@, global, *evaluate, api, rounds));
    }
}

/// The value of an aggregator is determined by the global state and the computed values.
#[verifier::opaque]
pub open spec fn determined<
    F: Fn(usize, usize, &NamedCells<StateAtom>, &SortedMap<String, StrictVal>) -> Option<StrictVal>,
>(evaluate: F) -> bool {
    forall|
        api: usize,
        i: usize,
        one: NamedCells<StateAtom>,
        other: NamedCells<StateAtom>,
        one_known: SortedMap<String, StrictVal>,
        other_known: SortedMap<String, StrictVal>,
        value: Option<StrictVal>,
        other_value: Option<StrictVal>,
    |
        one@ == other@ && one_known.content() == other_known.content() && #[trigger] call_ensures(
            evaluate,
            (api, i, &one, &one_known),
            value,
        ) && #[trigger] call_ensures(evaluate, (api, i, &other, &other_known), other_value)
            ==> value == other_value
}

/// The computed state depends on the global state alone: aggregators, the values of which are
/// determined, make the same of equal global states. Thus, computing it anew changes nothing.
pub proof fn law_global_state_determines_aggregates<
    F: Fn(usize, usize, &NamedCells<StateAtom>, &SortedMap<String, StrictVal>) -> Option<StrictVal>,
>(
    aggregators: Seq<Aggregator>,
    one: NamedCells<StateAtom>,
    other: NamedCells<StateAtom>,
    evaluate: F,
    api: usize,
    result: Map<Seq<char>, StrictVal>,
    other_result: Map<Seq<char>, StrictVal>,
)
    requires
        determined(evaluate),
        one@ == other@,
        aggregation(aggregators, one, evaluate, api, result),
        aggregation(aggregators, other, evaluate, api, other_result),
    ensures
        result == other_result,
{
    let rounds = choose|rounds: Seq<Seq<Option<StrictVal>>>| #[trigger]
        is_run(aggregators, one, evaluate, api, rounds) && result == after_rounds(
            aggregators,
            rounds,
        );
    let others = choose|rounds: Seq<Seq<Option<StrictVal>>>| #[trigger]
        is_run(aggregators, other, evaluate, api, rounds) && other_result == after_rounds(
            aggregators,
            rounds,
        );
    if rounds.len() <= others.len() {
        lemma_same_rounds(aggregators, one, other, evaluate, api, rounds, others, rounds.len() as int);
    } else {
        lemma_same_rounds(aggregators, other, one, evaluate, api, others, rounds, others.len() as int);
    }
    let n = if rounds.len() <= others.len() {
        rounds.len() as int
    } else {
        others.len() as int
    };
    assert(is_round(aggregators, one, evaluate, api, rounds, n - 1));
    assert(is_round(aggregators, other, evaluate, api, others, n - 1));
    assert(rounds.take(n)[n - 1] == others.take(n)[n - 1]);
    assert(rounds.take(n).take(n - 1) =~= rounds.take(n - 1));
    assert(others.take(n).take(n - 1) =~= others.take(n - 1));
    assert(rounds.take(rounds.len() as int) =~= rounds);
    assert(others.take(others.len() as int) =~= others);
}

/// The first rounds over equal global states are the same.
proof fn lemma_same_rounds<
    F: Fn(usize, usize, &NamedCells<StateAtom>, &SortedMap<String, StrictVal>) -> Option<StrictVal>,
>(
    aggregators: Seq<Aggregator>,
    one: NamedCells<StateAtom>,
    other: NamedCells<StateAtom>,
    evaluate: F,
    api: usize,
    rounds: Seq<Seq<Option<StrictVal>>>,
    others: Seq<Seq<Option<StrictVal>>>,
    n: int,
)
    requires
        determined(evaluate),
        one@ == other@,
        is_run(aggregators, one, evaluate, api, rounds),
        is_run(aggregators, other, evaluate, api, others),
        0 <= n <= rounds.len(),
        n <= others.len(),
    ensures
        rounds.take(n) == others.take(n),
    decreases n,
{
    if n == 0 {
        assert(rounds.take(n) =~= others.take(n));
    } else {
        lemma_same_rounds(aggregators, one, other, evaluate, api, rounds, others, n - 1);
        assert(is_round(aggregators, one, evaluate, api, rounds, n - 1));
        assert(is_round(aggregators, other, evaluate, api, others, n - 1));
        let start = after_rounds(aggregators, rounds.take(n - 1));
        let (values, other_values) = (rounds[n - 1], others[n - 1]);
        lemma_same_visits(
            aggregators,
            one,
            other,
            evaluate,
            api,
            start,
            values,
            other_values,
            values.len() as int,
        );
        assert(values.take(values.len() as int) =~= values);
        assert(other_values.take(values.len() as int) =~= other_values);
        assert forall|k: int| 0 <= k < n implies rounds.take(n)[k] == others.take(n)[k] by {
            if k < n - 1 {
                assert(rounds.take(n - 1)[k] == others.take(n - 1)[k]);
            }
        }
        assert(rounds.take(n) =~= others.take(n));
    }
}

/// Visits over equal global states give the same value.
proof fn lemma_same_value<
    F: Fn(usize, usize, &NamedCells<StateAtom>, &SortedMap<String, StrictVal>) -> Option<StrictVal>,
>(
    aggregators: Seq<Aggregator>,
    one: NamedCells<StateAtom>,
    other: NamedCells<StateAtom>,
    evaluate: F,
    api: usize,
    computed: Map<Seq<char>, StrictVal>,
    index: int,
    value: Option<StrictVal>,
    other_value: Option<StrictVal>,
)
    requires
        determined(evaluate),
        one@ == other@,
        visited(aggregators, one, evaluate, api, computed, index, value),
        visited(aggregators, other, evaluate, api, computed, index, other_value),
    ensures
        value == other_value,
{
    reveal(determined);
}

/// The first visits over equal global states are the same.
proof fn lemma_same_visits<
    F: Fn(usize, usize, &NamedCells<StateAtom>, &SortedMap<String, StrictVal>) -> Option<StrictVal>,
>(
    aggregators: Seq<Aggregator>,
    one: NamedCells<StateAtom>,
    other: NamedCells<StateAtom>,
    evaluate: F,
    api: usize,
    start: Map<Seq<char>, StrictVal>,
    values: Seq<Option<StrictVal>>,
    others: Seq<Option<StrictVal>>,
    n: int,
)
    requires
        determined(evaluate),
        one@ == other@,
        visits(aggregators, one, evaluate, api, start, values),
        visits(aggregators, other, evaluate, api, start, others),
        values.len() == others.len(),
        0 <= n <= values.len(),
    ensures
        values.take(n) == others.take(n),
    decreases n,
{
    if n > 0 {
        lemma_same_visits(aggregators, one, other, evaluate, api, start, values, others, n - 1);
        let computed = after_visits(aggregators, start, values.take(n - 1));
        lemma_one_visit(aggregators, one, evaluate, api, start, values, n - 1);
        lemma_one_visit(aggregators, other, evaluate, api, start, others, n - 1);
        lemma_same_value(
            aggregators,
            one,
            other,
            evaluate,
            api,
            computed,
            n - 1,
            values[n - 1],
            others[n - 1],
        );
        assert forall|k: int| 0 <= k < n implies values.take(n)[k] == others.take(n)[k] by {
            if k < n - 1 {
                assert(values.take(n - 1)[k] == others.take(n - 1)[k]);
            }
        }
    }
    assert(values.take(n) =~= others.take(n));
}

/// What the aggregator needs is the same among both computed values.
pub open spec fn same_needs(
    aggregator: Aggregator,
    one: Map<Seq<char>, StrictVal>,
    other: Map<Seq<char>, StrictVal>,
) -> bool {
    forall|d: int|
        0 <= d < aggregator.depends_on@.len() ==> {
            let name = (#[trigger] aggregator.depends_on@[d])@;
            &&& one.contains_key(name) == other.contains_key(name)
            &&& one.contains_key(name) ==> one[name] == other[name]
        }
}

/// The value of an aggregator is determined by the global state and by the computed values it needs.
#[verifier::opaque]
pub open spec fn determined_by_needs<
    F: Fn(usize, usize, &NamedCells<StateAtom>, &SortedMap<String, StrictVal>) -> Option<StrictVal>,
>(aggregators: Seq<Aggregator>, global: NamedCells<StateAtom>, evaluate: F, api: usize) -> bool {
    forall|
        i: int,
        one: SortedMap<String, StrictVal>,
        other: SortedMap<String, StrictVal>,
        value: Option<StrictVal>,
        other_value: Option<StrictVal>,
    |
        0 <= i < aggregators.len() && same_needs(aggregators[i], one.content(), other.content())
            && #[trigger] call_ensures(evaluate, (api, i as usize, &global, &one), value)
            && #[trigger] call_ensures(evaluate, (api, i as usize, &global, &other), other_value)
            ==> value == other_value
}

/// No two aggregators compute the same name, and none of them computes the name of a global state.
pub open spec fn has_own_names(aggregators: Seq<Aggregator>, global: Set<Seq<char>>) -> bool {
    &&& forall|i: int| 0 <= i < aggregators.len() ==> !global.contains((#[trigger] aggregators[i]).name@)
    &&& forall|i: int, j: int|
        0 <= i < j < aggregators.len() ==> (#[trigger] aggregators[i]).name@ != (
        #[trigger] aggregators[j]).name@
}

/// The value of an aggregator was given for what it needs now.
spec fn is_current<
    F: Fn(usize, usize, &NamedCells<StateAtom>, &SortedMap<String, StrictVal>) -> Option<StrictVal>,
>(
    aggregators: Seq<Aggregator>,
    global: NamedCells<StateAtom>,
    evaluate: F,
    api: usize,
    computed: Map<Seq<char>, StrictVal>,
    i: int,
) -> bool {
    &&& ready(aggregators[i], global@.dom().union(computed.dom()))
    &&& exists|known: SortedMap<String, StrictVal>|
        same_needs(aggregators[i], known.content(), computed) && #[trigger] call_ensures(
            evaluate,
            (api, i as usize, &global, &known),
            Some(computed[aggregators[i].name@]),
        )
}

/// All the computed values were given for what their aggregators need now.
#[verifier::opaque]
spec fn all_current<
    F: Fn(usize, usize, &NamedCells<StateAtom>, &SortedMap<String, StrictVal>) -> Option<StrictVal>,
>(
    aggregators: Seq<Aggregator>,
    global: NamedCells<StateAtom>,
    evaluate: F,
    api: usize,
    computed: Map<Seq<char>, StrictVal>,
) -> bool {
    forall|i: int|
        0 <= i < aggregators.len() && computed.contains_key((#[trigger] aggregators[i]).name@)
            ==> is_current(aggregators, global, evaluate, api, computed, i)
}

/// A visit gives the value which is there, or the first one.
proof fn lemma_visit_current<
    F: Fn(usize, usize, &NamedCells<StateAtom>, &SortedMap<String, StrictVal>) -> Option<StrictVal>,
>(
    aggregators: Seq<Aggregator>,
    global: NamedCells<StateAtom>,
    evaluate: F,
    api: usize,
    computed: Map<Seq<char>, StrictVal>,
    i: int,
    value: Option<StrictVal>,
)
    requires
        determined_by_needs(aggregators, global, evaluate, api),
        has_own_names(aggregators, global@.dom()),
        0 <= i < aggregators.len(),
        all_current(aggregators, global, evaluate, api, computed),
        visited(aggregators, global, evaluate, api, computed, i, value),
    ensures
        all_current(
            aggregators,
            global,
            evaluate,
            api,
            given(aggregators, computed, i, value),
        ),
        given(aggregators, computed, i, value) == computed || !computed.contains_key(
            aggregators[i].name@,
        ),
{
    let name = aggregators[i].name@;
    let after = given(aggregators, computed, i, value);
    if let Some(found) = value {
        let known = choose|known: SortedMap<String, StrictVal>|
            known.content() == computed && #[trigger] call_ensures(
                evaluate,
                (api, i as usize, &global, &known),
                value,
            );
        if computed.contains_key(name) {
            lemma_same_again(aggregators, global, evaluate, api, computed, i, known, value);
            assert(after =~= computed);
        } else {
            assert forall|j: int|
                0 <= j < aggregators.len() && after.contains_key(
                    (#[trigger] aggregators[j]).name@,
                ) implies is_current(aggregators, global, evaluate, api, after, j) by {
                if j == i {
                    assert(same_needs(aggregators[i], known.content(), after)) by {
                        lemma_new_name_not_needed(aggregators[i], global@.dom(), computed, name, found);
                    }
                    lemma_ready_grows(aggregators[i], global@.dom(), computed, after);
                    assert(value == Some(after[name]));
                    assert(call_ensures(
                        evaluate,
                        (api, i as usize, &global, &known),
                        Some(after[name]),
                    ));
                } else {
                    assert(aggregators[j].name@ != name);
                    assert(computed.contains_key(aggregators[j].name@));
                    lemma_current_stays(aggregators, global, evaluate, api, computed, j, name, found);
                }
            }
            assert(all_current(aggregators, global, evaluate, api, after)) by {
                reveal(all_current);
            }
        }
    }
}

/// An aggregator stays ready when more is computed.
proof fn lemma_ready_grows(
    aggregator: Aggregator,
    global: Set<Seq<char>>,
    less: Map<Seq<char>, StrictVal>,
    more: Map<Seq<char>, StrictVal>,
)
    requires
        ready(aggregator, global.union(less.dom())),
        less.dom().subset_of(more.dom()),
    ensures
        ready(aggregator, global.union(more.dom())),
{
}

/// A new name is not among those which a ready aggregator needs.
proof fn lemma_new_name_not_needed(
    aggregator: Aggregator,
    global: Set<Seq<char>>,
    computed: Map<Seq<char>, StrictVal>,
    name: Seq<char>,
    value: StrictVal,
)
    requires
        ready(aggregator, global.union(computed.dom())),
        !global.contains(name),
        !computed.contains_key(name),
    ensures
        same_needs(aggregator, computed, computed.insert(name, value)),
{
    assert forall|d: int| 0 <= d < aggregator.depends_on@.len() implies (
    #[trigger] aggregator.depends_on@[d])@ != name by {
        assert(global.union(computed.dom()).contains(aggregator.depends_on@[d]@));
    }
}

/// A value stays current when another one is computed for the first time.
proof fn lemma_current_stays<
    F: Fn(usize, usize, &NamedCells<StateAtom>, &SortedMap<String, StrictVal>) -> Option<StrictVal>,
>(
    aggregators: Seq<Aggregator>,
    global: NamedCells<StateAtom>,
    evaluate: F,
    api: usize,
    computed: Map<Seq<char>, StrictVal>,
    j: int,
    name: Seq<char>,
    value: StrictVal,
)
    requires
        0 <= j < aggregators.len(),
        all_current(aggregators, global, evaluate, api, computed),
        computed.contains_key(aggregators[j].name@),
        !global@.dom().contains(name),
        !computed.contains_key(name),
    ensures
        is_current(aggregators, global, evaluate, api, computed.insert(name, value), j),
{
    reveal(all_current);
    assert(is_current(aggregators, global, evaluate, api, computed, j));
    let after = computed.insert(name, value);
    let known = choose|known: SortedMap<String, StrictVal>|
        same_needs(aggregators[j], known.content(), computed) && #[trigger] call_ensures(
            evaluate,
            (api, j as usize, &global, &known),
            Some(computed[aggregators[j].name@]),
        );
    lemma_new_name_not_needed(aggregators[j], global@.dom(), computed, name, value);
    assert(same_needs(aggregators[j], known.content(), after));
    lemma_ready_grows(aggregators[j], global@.dom(), computed, after);
    assert(after[aggregators[j].name@] == computed[aggregators[j].name@]);
}

/// An aggregator, which is evaluated for the same needs again, gives the same.
proof fn lemma_same_again<
    F: Fn(usize, usize, &NamedCells<StateAtom>, &SortedMap<String, StrictVal>) -> Option<StrictVal>,
>(
    aggregators: Seq<Aggregator>,
    global: NamedCells<StateAtom>,
    evaluate: F,
    api: usize,
    computed: Map<Seq<char>, StrictVal>,
    i: int,
    known: SortedMap<String, StrictVal>,
    value: Option<StrictVal>,
)
    requires
        determined_by_needs(aggregators, global, evaluate, api),
        0 <= i < aggregators.len(),
        all_current(aggregators, global, evaluate, api, computed),
        computed.contains_key(aggregators[i].name@),
        known.content() == computed,
        call_ensures(evaluate, (api, i as usize, &global, &known), value),
    ensures
        value == Some(computed[aggregators[i].name@]),
{
    reveal(all_current);
    reveal(determined_by_needs);
    assert(is_current(aggregators, global, evaluate, api, computed, i));
    let earlier = choose|earlier: SortedMap<String, StrictVal>|
        same_needs(aggregators[i], earlier.content(), computed) && #[trigger] call_ensures(
            evaluate,
            (api, i as usize, &global, &earlier),
            Some(computed[aggregators[i].name@]),
        );
    assert(same_needs(aggregators[i], earlier.content(), known.content()));
}

/// Visits keep the values current; where they add no name, they change nothing.
proof fn lemma_visits_current<
    F: Fn(usize, usize, &NamedCells<StateAtom>, &SortedMap<String, StrictVal>) -> Option<StrictVal>,
>(
    aggregators: Seq<Aggregator>,
    global: NamedCells<StateAtom>,
    evaluate: F,
    api: usize,
    start: Map<Seq<char>, StrictVal>,
    values: Seq<Option<StrictVal>>,
    n: int,
)
    requires
        determined_by_needs(aggregators, global, evaluate, api),
        has_own_names(aggregators, global@.dom()),
        all_current(aggregators, global, evaluate, api, start),
        visits(aggregators, global, evaluate, api, start, values),
        values.len() <= aggregators.len(),
        0 <= n <= values.len(),
    ensures
        all_current(
            aggregators,
            global,
            evaluate,
            api,
            after_visits(aggregators, start, values.take(n)),
        ),
        after_visits(aggregators, start, values.take(n)).dom() == start.dom() ==> after_visits(
            aggregators,
            start,
            values.take(n),
        ) == start,
    decreases n,
{
    if n == 0 {
        assert(values.take(0) =~= Seq::empty());
    } else {
        let i = n - 1;
        lemma_visits_current(aggregators, global, evaluate, api, start, values, i);
        let computed = after_visits(aggregators, start, values.take(i));
        let after = after_visits(aggregators, start, values.take(n));
        lemma_one_visit(aggregators, global, evaluate, api, start, values, i);
        assert(values.take(n) =~= values.take(i).push(values[i]));
        lemma_visit(aggregators, start, values.take(i), values[i]);
        lemma_visit_current(aggregators, global, evaluate, api, computed, i, values[i]);
        if after.dom() == start.dom() {
            lemma_visits_keep_names(aggregators, start, values.take(n), i);
            assert(values.take(n).take(i) =~= values.take(i));
            assert(computed.dom() =~= start.dom());
            if after != computed {
                assert(after.dom().contains(aggregators[i].name@));
            }
        }
    }
}

/// Rounds keep the values current.
proof fn lemma_rounds_current<
    F: Fn(usize, usize, &NamedCells<StateAtom>, &SortedMap<String, StrictVal>) -> Option<StrictVal>,
>(
    aggregators: Seq<Aggregator>,
    global: NamedCells<StateAtom>,
    evaluate: F,
    api: usize,
    rounds: Seq<Seq<Option<StrictVal>>>,
    n: int,
)
    requires
        determined_by_needs(aggregators, global, evaluate, api),
        has_own_names(aggregators, global@.dom()),
        is_run(aggregators, global, evaluate, api, rounds),
        0 <= n <= rounds.len(),
    ensures
        all_current(
            aggregators,
            global,
            evaluate,
            api,
            after_rounds(aggregators, rounds.take(n)),
        ),
    decreases n,
{
    if n == 0 {
        reveal(all_current);
        assert(rounds.take(0) =~= Seq::empty());
    } else {
        lemma_rounds_current(aggregators, global, evaluate, api, rounds, n - 1);
        assert(is_round(aggregators, global, evaluate, api, rounds, n - 1));
        let values = rounds[n - 1];
        lemma_visits_current(
            aggregators,
            global,
            evaluate,
            api,
            after_rounds(aggregators, rounds.take(n - 1)),
            values,
            values.len() as int,
        );
        assert(values.take(values.len() as int) =~= values);
        assert(rounds.take(n).drop_last() =~= rounds.take(n - 1));
        assert(rounds.take(n).last() == values);
    }
}

/// The computed state is complete: an aggregator visited once more, with all the computed values, gives
/// the value which it has, or nothing; where each aggregator computes a name of its own, and its value
/// is determined by what it needs.
pub proof fn law_aggregates_are_complete<
    F: Fn(usize, usize, &NamedCells<StateAtom>, &SortedMap<String, StrictVal>) -> Option<StrictVal>,
>(
    aggregators: Seq<Aggregator>,
    global: NamedCells<StateAtom>,
    evaluate: F,
    api: usize,
    result: Map<Seq<char>, StrictVal>,
    i: int,
)
    requires
        determined_by_needs(aggregators, global, evaluate, api),
        has_own_names(aggregators, global@.dom()),
        aggregation(aggregators, global, evaluate, api, result),
        0 <= i < aggregators.len(),
    ensures
        exists|value: Option<StrictVal>| #[trigger]
            visited(aggregators, global, evaluate, api, result, i, value) && given(
                aggregators,
                result,
                i,
                value,
            ) == result,
{
    let rounds = choose|rounds: Seq<Seq<Option<StrictVal>>>| #[trigger]
        is_run(aggregators, global, evaluate, api, rounds) && result == after_rounds(
            aggregators,
            rounds,
        );
    let last = rounds.len() - 1;
    lemma_rounds_current(aggregators, global, evaluate, api, rounds, last);
    assert(is_round(aggregators, global, evaluate, api, rounds, last));
    assert(rounds.take(last) =~= rounds.drop_last());
    let start = after_rounds(aggregators, rounds.take(last));
    let values = rounds[last];
    assert(result == after_visits(aggregators, start, values));
    assert(values.take(values.len() as int) =~= values);
    lemma_visits_current(
        aggregators,
        global,
        evaluate,
        api,
        start,
        values,
        values.len() as int,
    );
    assert(result == start);
    lemma_visits_keep_names(aggregators, start, values, i);
    lemma_visits_keep_names(aggregators, start, values, i + 1);
    lemma_visits_current(aggregators, global, evaluate, api, start, values, i);
    lemma_visits_current(aggregators, global, evaluate, api, start, values, i + 1);
    assert(after_visits(aggregators, start, values.take(i)).dom() =~= start.dom());
    assert(after_visits(aggregators, start, values.take(i + 1)).dom() =~= start.dom());
    lemma_one_visit(aggregators, global, evaluate, api, start, values, i);
    assert(values.take(i + 1) =~= values.take(i).push(values[i]));
    lemma_visit(aggregators, start, values.take(i), values[i]);
    assert(visited(aggregators, global, evaluate, api, result, i, values[i]));
}

/// The aggregator gives a value, whatever was computed before, once it has everything it needs.
pub open spec fn always_gives<
    F: Fn(usize, usize, &NamedCells<StateAtom>, &SortedMap<String, StrictVal>) -> Option<StrictVal>,
>(
    aggregators: Seq<Aggregator>,
    global: NamedCells<StateAtom>,
    evaluate: F,
    api: usize,
    index: int,
) -> bool {
    forall|known: SortedMap<String, StrictVal>, value: Option<StrictVal>|
        ready(aggregators[index], global@.dom().union(known.content().dom()))
            && #[trigger] call_ensures(evaluate, (api, index as usize, &global, &known), value)
            ==> value is Some
}

/// Everything which can be computed is: aggregators, which can run one after another, each of them
/// having what it needs of the global state and of the earlier ones, and always giving a value, all
/// have a value in the result.
pub proof fn law_computable_is_computed<
    F: Fn(usize, usize, &NamedCells<StateAtom>, &SortedMap<String, StrictVal>) -> Option<StrictVal>,
>(
    aggregators: Seq<Aggregator>,
    global: NamedCells<StateAtom>,
    evaluate: F,
    api: usize,
    result: Map<Seq<char>, StrictVal>,
    order: Seq<int>,
)
    requires
        aggregation(aggregators, global, evaluate, api, result),
        grounded(aggregators, global@.dom(), order),
        forall|k: int|
            0 <= k < order.len() ==> always_gives(
                aggregators,
                global,
                evaluate,
                api,
                #[trigger] order[k],
            ),
    ensures
        computed_names(aggregators, order).subset_of(result.dom()),
    decreases order.len(),
{
    if order.len() > 0 {
        let less = order.drop_last();
        let i = order.last();
        assert forall|k: int| 0 <= k < less.len() implies ready(
            aggregators[#[trigger] less[k]],
            global@.dom().union(computed_names(aggregators, less.take(k))),
        ) by {
            assert(less.take(k) =~= order.take(k));
            assert(less[k] == order[k]);
        }
        assert forall|k: int| 0 <= k < less.len() implies 0 <= #[trigger] less[k]
            < aggregators.len() by {
            assert(less[k] == order[k]);
        }
        assert forall|k: int, m: int| 0 <= k < less.len() && 0 <= m < less.len() && k != m implies less[k]
            != less[m] by {
            assert(order[k] != order[m]);
        }
        assert forall|k: int| 0 <= k < less.len() implies always_gives(
            aggregators,
            global,
            evaluate,
            api,
            #[trigger] less[k],
        ) by {
            assert(less[k] == order[k]);
        }
        law_computable_is_computed(aggregators, global, evaluate, api, result, less);
        assert(order.take(order.len() - 1) =~= less);
        assert(order[order.len() - 1] == i);
        assert(ready(aggregators[i], global@.dom().union(computed_names(aggregators, less))));
        assert(always_gives(aggregators, global, evaluate, api, i));
        lemma_ready_is_computed(aggregators, global, evaluate, api, result, i);
        assert forall|name: Seq<char>|
            computed_names(aggregators, order).contains(name) implies result.dom().contains(name) by {
            let k = choose|k: int|
                0 <= k < order.len() && aggregators[#[trigger] order[k]].name@ == name;
            if k < less.len() {
                assert(aggregators[less[k]].name@ == name);
                assert(computed_names(aggregators, less).contains(name));
            }
        }
    }
}

/// An aggregator which has everything it needs in the result, and always gives a value, has one.
proof fn lemma_ready_is_computed<
    F: Fn(usize, usize, &NamedCells<StateAtom>, &SortedMap<String, StrictVal>) -> Option<StrictVal>,
>(
    aggregators: Seq<Aggregator>,
    global: NamedCells<StateAtom>,
    evaluate: F,
    api: usize,
    result: Map<Seq<char>, StrictVal>,
    i: int,
)
    requires
        aggregation(aggregators, global, evaluate, api, result),
        0 <= i < aggregators.len(),
        ready(aggregators[i], global@.dom().union(result.dom())),
        always_gives(aggregators, global, evaluate, api, i),
    ensures
        result.contains_key(aggregators[i].name@),
{
    let rounds = choose|rounds: Seq<Seq<Option<StrictVal>>>| #[trigger]
        is_run(aggregators, global, evaluate, api, rounds) && result == after_rounds(
            aggregators,
            rounds,
        );
    let last = rounds.len() - 1;
    assert(is_round(aggregators, global, evaluate, api, rounds, last));
    assert(rounds.take(last) =~= rounds.drop_last());
    let start = after_rounds(aggregators, rounds.take(last));
    let values = rounds[last];
    let computed = after_visits(aggregators, start, values.take(i));
    lemma_visits_keep_names(aggregators, start, values, i);
    lemma_visits_keep_names(aggregators, start, values, i + 1);
    assert(computed.dom() =~= result.dom());
    lemma_one_visit(aggregators, global, evaluate, api, start, values, i);
    assert(values[i] is Some);
    assert(values.take(i + 1) =~= values.take(i).push(values[i]));
    lemma_visit(aggregators, start, values.take(i), values[i]);
    assert(after_visits(aggregators, start, values.take(i + 1)).dom().contains(
        aggregators[i].name@,
    ));
}

/// The aggregator needs a name of the set, which no global state has.
pub open spec fn needs_any(
    aggregator: Aggregator,
    global: Set<Seq<char>>,
    names: Set<Seq<char>>,
) -> bool {
    exists|d: int|
        0 <= d < aggregator.depends_on@.len() && names.contains(
            (#[trigger] aggregator.depends_on@[d])@,
        ) && !global.contains(aggregator.depends_on@[d]@)
}

/// Aggregators which depend on each other in a cycle compute nothing: where every aggregator of a
/// name in a set needs another name of the set, which no global state has, none of the names is
/// computed.
pub proof fn law_cycles_are_not_computed<
    F: Fn(usize, usize, &NamedCells<StateAtom>, &SortedMap<String, StrictVal>) -> Option<StrictVal>,
>(
    aggregators: Seq<Aggregator>,
    global: NamedCells<StateAtom>,
    evaluate: F,
    api: usize,
    result: Map<Seq<char>, StrictVal>,
    cycle: Set<Seq<char>>,
)
    requires
        aggregation(aggregators, global, evaluate, api, result),
        forall|i: int|
            0 <= i < aggregators.len() && cycle.contains(aggregators[i].name@) ==> #[trigger] needs_any(
                aggregators[i],
                global@.dom(),
                cycle,
            ),
    ensures
        result.dom().disjoint(cycle),
{
    let rounds = choose|rounds: Seq<Seq<Option<StrictVal>>>| #[trigger]
        is_run(aggregators, global, evaluate, api, rounds) && result == after_rounds(
            aggregators,
            rounds,
        );
    lemma_rounds_outside(aggregators, global, evaluate, api, rounds, cycle, rounds.len() as int);
    assert(rounds.take(rounds.len() as int) =~= rounds);
}

/// The first rounds compute no name of the cycle.
proof fn lemma_rounds_outside<
    F: Fn(usize, usize, &NamedCells<StateAtom>, &SortedMap<String, StrictVal>) -> Option<StrictVal>,
>(
    aggregators: Seq<Aggregator>,
    global: NamedCells<StateAtom>,
    evaluate: F,
    api: usize,
    rounds: Seq<Seq<Option<StrictVal>>>,
    cycle: Set<Seq<char>>,
    n: int,
)
    requires
        is_run(aggregators, global, evaluate, api, rounds),
        0 <= n <= rounds.len(),
        forall|i: int|
            0 <= i < aggregators.len() && cycle.contains(aggregators[i].name@) ==> #[trigger] needs_any(
                aggregators[i],
                global@.dom(),
                cycle,
            ),
    ensures
        after_rounds(aggregators, rounds.take(n)).dom().disjoint(cycle),
    decreases n,
{
    if n > 0 {
        lemma_rounds_outside(aggregators, global, evaluate, api, rounds, cycle, n - 1);
        assert(is_round(aggregators, global, evaluate, api, rounds, n - 1));
        let values = rounds[n - 1];
        lemma_visits_outside(
            aggregators,
            global,
            evaluate,
            api,
            after_rounds(aggregators, rounds.take(n - 1)),
            values,
            cycle,
            values.len() as int,
        );
        assert(values.take(values.len() as int) =~= values);
        assert(rounds.take(n).drop_last() =~= rounds.take(n - 1));
        assert(rounds.take(n).last() == values);
    }
}

/// The first visits of a round compute no name of the cycle.
proof fn lemma_visits_outside<
    F: Fn(usize, usize, &NamedCells<StateAtom>, &SortedMap<String, StrictVal>) -> Option<StrictVal>,
>(
    aggregators: Seq<Aggregator>,
    global: NamedCells<StateAtom>,
    evaluate: F,
    api: usize,
    start: Map<Seq<char>, StrictVal>,
    values: Seq<Option<StrictVal>>,
    cycle: Set<Seq<char>>,
    n: int,
)
    requires
        visits(aggregators, global, evaluate, api, start, values),
        values.len() <= aggregators.len(),
        start.dom().disjoint(cycle),
        0 <= n <= values.len(),
        forall|i: int|
            0 <= i < aggregators.len() && cycle.contains(aggregators[i].name@) ==> #[trigger] needs_any(
                aggregators[i],
                global@.dom(),
                cycle,
            ),
    ensures
        after_visits(aggregators, start, values.take(n)).dom().disjoint(cycle),
    decreases n,
{
    if n == 0 {
        assert(values.take(0) =~= Seq::empty());
    } else {
        lemma_visits_outside(aggregators, global, evaluate, api, start, values, cycle, n - 1);
        let computed = after_visits(aggregators, start, values.take(n - 1));
        let i = n - 1;
        lemma_one_visit(aggregators, global, evaluate, api, start, values, i);
        assert(values.take(n) =~= values.take(i).push(values[i]));
        lemma_visit(aggregators, start, values.take(i), values[i]);
        if values[i] is Some && cycle.contains(aggregators[i].name@) {
            assert(needs_any(aggregators[i], global@.dom(), cycle));
            let d = choose|d: int|
                0 <= d < aggregators[i].depends_on@.len() && cycle.contains(
                    (#[trigger] aggregators[i].depends_on@[d])@,
                ) && !global@.dom().contains(aggregators[i].depends_on@[d]@);
            assert(computed.dom().contains(aggregators[i].depends_on@[d]@));
        }
    }
}

} // verus!
