//! Maps which keep their entries in the order of the keys.

use crate::types::{CellAddr, Opid};
use vstd::prelude::*;

verus! {

/// A key of a sorted map.
pub trait SortKey: Sized {
    /// What a key stands for.
    type Model;

    /// The key as a mathematical value.
    spec fn model(&self) -> Self::Model;

    /// The order of the keys.
    spec fn precedes(one: Self::Model, other: Self::Model) -> bool;

    /// No key precedes itself.
    proof fn order_is_irreflexive(one: Self::Model)
        ensures
            !Self::precedes(one, one),
    ;

    /// What precedes an earlier key precedes a later one.
    proof fn order_is_transitive(one: Self::Model, other: Self::Model, third: Self::Model)
        requires
            Self::precedes(one, other),
            Self::precedes(other, third),
        ensures
            Self::precedes(one, third),
    ;

    /// Any two keys are ordered.
    proof fn order_is_total(one: Self::Model, other: Self::Model)
        ensures
            Self::precedes(one, other) || Self::precedes(other, one) || one == other,
    ;

    /// Tests whether this key comes before the other one.
    fn comes_before(&self, other: &Self) -> (r: bool)
        ensures
            r == Self::precedes(self.model(), other.model()),
    ;
}

impl SortKey for CellAddr {
    type Model = CellAddr;

    open spec fn model(&self) -> CellAddr {
        *self
    }

    open spec fn precedes(one: CellAddr, other: CellAddr) -> bool {
        one.precedes(other)
    }

    proof fn order_is_irreflexive(one: CellAddr) {
    }

    proof fn order_is_transitive(one: CellAddr, other: CellAddr, third: CellAddr) {
    }

    proof fn order_is_total(one: CellAddr, other: CellAddr) {
    }

    fn comes_before(&self, other: &CellAddr) -> (r: bool) {
        self.is_before(other)
    }
}

/// Order of the texts by their characters.
pub open spec fn text_precedes(one: Seq<char>, other: Seq<char>) -> bool
    decreases one.len(),
{
    if other.len() == 0 {
        false
    } else if one.len() == 0 {
        true
    } else if one[0] == other[0] {
        text_precedes(one.skip(1), other.skip(1))
    } else {
        one[0] < other[0]
    }
}

impl SortKey for String {
    type Model = Seq<char>;

    open spec fn model(&self) -> Seq<char> {
        self@
    }

    open spec fn precedes(one: Seq<char>, other: Seq<char>) -> bool {
        text_precedes(one, other)
    }

    proof fn order_is_irreflexive(one: Seq<char>)
        decreases one.len(),
    {
        if one.len() > 0 {
            Self::order_is_irreflexive(one.skip(1));
        }
    }

    proof fn order_is_transitive(one: Seq<char>, other: Seq<char>, third: Seq<char>)
        decreases one.len(),
    {
        if one.len() > 0 && other.len() > 0 && third.len() > 0 && one[0] == other[0] && other[0]
            == third[0] {
            Self::order_is_transitive(one.skip(1), other.skip(1), third.skip(1));
        }
    }

    proof fn order_is_total(one: Seq<char>, other: Seq<char>)
        decreases one.len(),
    {
        if one.len() == 0 && other.len() == 0 {
            assert(one =~= other);
        } else if one.len() > 0 && other.len() > 0 && one[0] == other[0] {
            Self::order_is_total(one.skip(1), other.skip(1));
            if one.skip(1) == other.skip(1) {
                assert(one =~= seq![one[0]] + one.skip(1));
                assert(other =~= seq![other[0]] + other.skip(1));
            }
        }
    }

    fn comes_before(&self, other: &String) -> (r: bool) {
        let one = self.as_str();
        let two = other.as_str();
        let one_len = one.unicode_len();
        let two_len = two.unicode_len();
        let mut i: usize = 0;
        proof {
            assert(self@.skip(0) =~= self@);
            assert(other@.skip(0) =~= other@);
        }
        while i < one_len && i < two_len
            invariant
                i <= one_len,
                i <= two_len,
                one_len == one@.len(),
                two_len == two@.len(),
                one@ == self@,
                two@ == other@,
                text_precedes(self@, other@) == text_precedes(
                    self@.skip(i as int),
                    other@.skip(i as int),
                ),
            decreases one_len - i,
        {
            let a = one.get_char(i);
            let b = two.get_char(i);
            assert(self@.skip(i as int).skip(1) =~= self@.skip(i + 1));
            assert(other@.skip(i as int).skip(1) =~= other@.skip(i + 1));
            if a != b {
                return a < b;
            }
            i = i + 1;
        }
        i < two_len
    }
}

/// Map which keeps its entries in the order of the keys.
#[derive(Debug, PartialEq, Eq)]
pub struct SortedMap<K, V> {
    items: Vec<(K, V)>,
}

impl<K: SortKey, V> SortedMap<K, V> {
    /// The entries, in the order of the keys.
    pub closed spec fn items(self) -> Seq<(K, V)> {
        self.items@
    }

    /// The keys are strictly ascending.
    pub open spec fn well_formed(self) -> bool {
        forall|i: int, j: int|
            0 <= i < j < self.items().len() ==> K::precedes(
                (#[trigger] self.items()[i]).0.model(),
                (#[trigger] self.items()[j]).0.model(),
            )
    }

    /// The entry `i` has the given key.
    pub open spec fn has_at(self, key: K::Model, i: int) -> bool {
        0 <= i < self.items().len() && self.items()[i].0.model() == key
    }

    /// The entries as a mathematical map.
    pub open spec fn content(self) -> Map<K::Model, V> {
        Map::new(
            |key: K::Model| exists|i: int| #[trigger] self.has_at(key, i),
            |key: K::Model| self.items()[choose|i: int| #[trigger] self.has_at(key, i)].1,
        )
    }

    /// Keys are at one place only.
    proof fn lemma_unique(self, key: K::Model, i: int, j: int)
        requires
            self.well_formed(),
            self.has_at(key, i),
            self.has_at(key, j),
        ensures
            i == j,
    {
        K::order_is_irreflexive(key);
        if i < j {
            assert(K::precedes(self.items()[i].0.model(), self.items()[j].0.model()));
        } else if j < i {
            assert(K::precedes(self.items()[j].0.model(), self.items()[i].0.model()));
        }
    }

    /// What an entry says of the map.
    pub proof fn lemma_entry(self, i: int)
        requires
            self.well_formed(),
            0 <= i < self.items().len(),
        ensures
            self.content().contains_key(self.items()[i].0.model()),
            self.content()[self.items()[i].0.model()] == self.items()[i].1,
    {
        let key = self.items()[i].0.model();
        assert(self.has_at(key, i));
        let k = choose|k: int| #[trigger] self.has_at(key, k);
        self.lemma_unique(key, i, k);
    }

    /// An empty map.
    pub fn new() -> (r: Self)
        ensures
            r.well_formed(),
            r.items().len() == 0,
            r.content() == Map::<K::Model, V>::empty(),
    {
        let r = SortedMap { items: Vec::new() };
        assert(r.content() =~= Map::<K::Model, V>::empty());
        r
    }

    /// Number of entries.
    pub fn len(&self) -> (r: usize)
        ensures
            r == self.items().len(),
    {
        self.items.len()
    }

    /// The entry at the given position of the order.
    pub fn at(&self, index: usize) -> (r: &(K, V))
        requires
            index < self.items().len(),
        ensures
            *r == self.items()[index as int],
    {
        &self.items[index]
    }

    /// The number of the keys before the given one.
    fn rank(&self, key: &K) -> (r: usize)
        requires
            self.well_formed(),
        ensures
            r <= self.items().len(),
            forall|i: int|
                0 <= i < r ==> K::precedes((#[trigger] self.items()[i]).0.model(), key.model()),
            r < self.items().len() ==> !K::precedes(self.items()[r as int].0.model(), key.model()),
    {
        let mut i: usize = 0;
        while i < self.items.len() && self.items[i].0.comes_before(key)
            invariant
                i <= self.items@.len(),
                forall|k: int|
                    0 <= k < i ==> K::precedes((#[trigger] self.items()[k]).0.model(), key.model()),
            decreases self.items@.len() - i,
        {
            i = i + 1;
        }
        i
    }

    /// The position of a key.
    pub fn position(&self, key: &K) -> (r: Option<usize>)
        requires
            self.well_formed(),
        ensures
            match r {
                Some(i) => {
                    &&& self.has_at(key.model(), i as int)
                    &&& self.content().contains_key(key.model())
                    &&& self.content()[key.model()] == self.items()[i as int].1
                },
                None => !self.content().contains_key(key.model()),
            },
    {
        let at = self.rank(key);
        if at < self.items.len() && !key.comes_before(&self.items[at].0) {
            proof {
                K::order_is_total(self.items()[at as int].0.model(), key.model());
                self.lemma_entry(at as int);
            }
            Some(at)
        } else {
            proof {
                self.lemma_absent(key.model(), at as int);
            }
            None
        }
    }

    /// A key which would stand between two neighbours is not in the map.
    proof fn lemma_absent(self, key: K::Model, at: int)
        requires
            self.well_formed(),
            0 <= at <= self.items().len(),
            forall|i: int| 0 <= i < at ==> K::precedes((#[trigger] self.items()[i]).0.model(), key),
            at < self.items().len() ==> K::precedes(key, self.items()[at].0.model()),
        ensures
            !self.content().contains_key(key),
    {
        assert forall|i: int| !#[trigger] self.has_at(key, i) by {
            if self.has_at(key, i) {
                K::order_is_irreflexive(key);
                if i < at {
                    assert(K::precedes(self.items()[i].0.model(), key));
                } else if i > at {
                    assert(K::precedes(self.items()[at].0.model(), self.items()[i].0.model()));
                    K::order_is_transitive(key, self.items()[at].0.model(), key);
                }
            }
        }
    }

    /// The value under a key.
    pub fn get(&self, key: &K) -> (r: Option<&V>)
        requires
            self.well_formed(),
        ensures
            match r {
                Some(value) => self.content().contains_key(key.model()) && *value == self.content()[key.model()],
                None => !self.content().contains_key(key.model()),
            },
    {
        match self.position(key) {
            Some(i) => Some(&self.items[i].1),
            None => None,
        }
    }

    /// Adds or replaces an entry.
    pub fn insert(&mut self, key: K, value: V)
        requires
            old(self).well_formed(),
        ensures
            final(self).well_formed(),
            final(self).content() == old(self).content().insert(key.model(), value),
    {
        let ghost before = *self;
        let ghost model = key.model();
        let at = self.rank(&key);
        if at < self.items.len() && !key.comes_before(&self.items[at].0) {
            proof {
                K::order_is_total(before.items()[at as int].0.model(), model);
            }
            self.items.set(at, (key, value));
            proof {
                assert(forall|i: int|
                    0 <= i < before.items().len() ==> (#[trigger] self.items()[i]).0.model()
                        == before.items()[i].0.model());
                assert forall|i: int, j: int| 0 <= i < j < self.items().len() implies K::precedes(
                    (#[trigger] self.items()[i]).0.model(),
                    (#[trigger] self.items()[j]).0.model(),
                ) by {
                    assert(K::precedes(before.items()[i].0.model(), before.items()[j].0.model()));
                }
                assert forall|k: K::Model|
                    self.content().contains_key(k) == before.content().insert(
                        model,
                        value,
                    ).contains_key(k) by {
                    if self.content().contains_key(k) {
                        let i = choose|i: int| #[trigger] self.has_at(k, i);
                        assert(before.has_at(k, i));
                    }
                    if before.content().contains_key(k) {
                        let i = choose|i: int| #[trigger] before.has_at(k, i);
                        assert(self.has_at(k, i));
                    }
                    if k == model {
                        assert(self.has_at(k, at as int));
                    }
                }
                assert forall|k: K::Model| self.content().contains_key(k) implies self.content()[k]
                    == before.content().insert(model, value)[k] by {
                    let i = choose|i: int| #[trigger] self.has_at(k, i);
                    self.lemma_entry(i);
                    before.lemma_entry(i);
                    if k == model {
                        self.lemma_unique(k, i, at as int);
                    }
                }
                assert(self.content() =~= before.content().insert(model, value));
            }
        } else {
            proof {
                before.lemma_absent(model, at as int);
            }
            self.items.insert(at, (key, value));
            proof {
                let after = *self;
                assert(after.items() == before.items().insert(at as int, (key, value)));
                assert forall|i: int, j: int| 0 <= i < j < after.items().len() implies K::precedes(
                    (#[trigger] after.items()[i]).0.model(),
                    (#[trigger] after.items()[j]).0.model(),
                ) by {
                    let a = if i < at { i } else { i - 1 };
                    let b = if j < at { j } else { j - 1 };
                    if i != at && j != at {
                        assert(K::precedes(before.items()[a].0.model(), before.items()[b].0.model()));
                    } else if i == at && j - 1 > at {
                        assert(K::precedes(
                            before.items()[at as int].0.model(),
                            before.items()[j - 1].0.model(),
                        ));
                        K::order_is_transitive(
                            model,
                            before.items()[at as int].0.model(),
                            before.items()[j - 1].0.model(),
                        );
                    } else if j == at {
                        assert(K::precedes(before.items()[i].0.model(), model));
                    }
                }
                assert forall|k: K::Model|
                    after.content().contains_key(k) == before.content().insert(
                        model,
                        value,
                    ).contains_key(k) by {
                    if after.content().contains_key(k) {
                        let i = choose|i: int| #[trigger] after.has_at(k, i);
                        if i < at {
                            assert(before.has_at(k, i));
                        } else if i > at {
                            assert(before.has_at(k, i - 1));
                        }
                    }
                    if before.content().contains_key(k) {
                        let i = choose|i: int| #[trigger] before.has_at(k, i);
                        if i < at {
                            assert(after.has_at(k, i));
                        } else {
                            assert(after.has_at(k, i + 1));
                        }
                    }
                    if k == model {
                        assert(after.has_at(k, at as int));
                    }
                }
                assert forall|k: K::Model| after.content().contains_key(k) implies after.content()[k]
                    == before.content().insert(model, value)[k] by {
                    let i = choose|i: int| #[trigger] after.has_at(k, i);
                    after.lemma_entry(i);
                    if i < at {
                        before.lemma_entry(i);
                    } else if i > at {
                        before.lemma_entry(i - 1);
                    }
                }
                assert(after.content() =~= before.content().insert(model, value));
            }
        }
    }

    /// Takes an entry out, if it is there.
    pub fn remove(&mut self, key: &K)
        requires
            old(self).well_formed(),
        ensures
            final(self).well_formed(),
            final(self).content() == old(self).content().remove(key.model()),
    {
        let ghost before = *self;
        let ghost model = key.model();
        match self.position(key) {
            Some(at) => {
                self.drop_at(at);
            },
            None => {
                assert(before.content().remove(model) =~= before.content());
            },
        }
    }

    /// Takes the entry at a position out.
    pub fn drop_at(&mut self, at: usize)
        requires
            old(self).well_formed(),
            at < old(self).items().len(),
        ensures
            final(self).well_formed(),
            final(self).items() == old(self).items().remove(at as int),
            final(self).content() == old(self).content().remove(
                old(self).items()[at as int].0.model(),
            ),
    {
        let ghost before = *self;
        let ghost model = self.items()[at as int].0.model();
        let _gone = self.items.remove(at);
        proof {
            let after = *self;
            assert(after.items() == before.items().remove(at as int));
            assert forall|i: int, j: int| 0 <= i < j < after.items().len() implies K::precedes(
                (#[trigger] after.items()[i]).0.model(),
                (#[trigger] after.items()[j]).0.model(),
            ) by {
                let a = if i < at { i } else { i + 1 };
                let b = if j < at { j } else { j + 1 };
                assert(K::precedes(before.items()[a].0.model(), before.items()[b].0.model()));
            }
            assert forall|k: K::Model|
                after.content().contains_key(k) == before.content().remove(model).contains_key(k) by {
                if after.content().contains_key(k) {
                    let i = choose|i: int| #[trigger] after.has_at(k, i);
                    let j = if i < at { i } else { i + 1 };
                    assert(before.has_at(k, j));
                    if k == model {
                        before.lemma_unique(k, j, at as int);
                    }
                }
                if before.content().remove(model).contains_key(k) {
                    let i = choose|i: int| #[trigger] before.has_at(k, i);
                    if i < at {
                        assert(after.has_at(k, i));
                    } else {
                        assert(after.has_at(k, i - 1));
                    }
                }
            }
            assert forall|k: K::Model| after.content().contains_key(k) implies after.content()[k]
                == before.content().remove(model)[k] by {
                let i = choose|i: int| #[trigger] after.has_at(k, i);
                let j = if i < at { i } else { i + 1 };
                after.lemma_entry(i);
                before.lemma_entry(j);
            }
            assert(after.content() =~= before.content().remove(model));
        }
    }

    /// Gives access to the value at a position.
    pub fn value_mut(&mut self, at: usize) -> (r: &mut V)
        requires
            at < old(self).items().len(),
        ensures
            *r == old(self).items()[at as int].1,
            final(self).items() == old(self).items().update(
                at as int,
                (old(self).items()[at as int].0, *final(r)),
            ),
    {
        &mut self.items[at].1
    }

    /// What the change of a value at a position does to the map.
    pub proof fn lemma_value_changed(before: Self, after: Self, at: int, value: V)
        requires
            before.well_formed(),
            0 <= at < before.items().len(),
            after.items() == before.items().update(at, (before.items()[at].0, value)),
        ensures
            after.well_formed(),
            after.content() == before.content().insert(before.items()[at].0.model(), value),
    {
        let model = before.items()[at].0.model();
        assert(forall|i: int|
            0 <= i < before.items().len() ==> (#[trigger] after.items()[i]).0
                == before.items()[i].0);
        assert forall|i: int, j: int| 0 <= i < j < after.items().len() implies K::precedes(
            (#[trigger] after.items()[i]).0.model(),
            (#[trigger] after.items()[j]).0.model(),
        ) by {
            assert(K::precedes(before.items()[i].0.model(), before.items()[j].0.model()));
        }
        assert forall|k: K::Model|
            after.content().contains_key(k) == before.content().insert(model, value).contains_key(k) by {
            if after.content().contains_key(k) {
                let i = choose|i: int| #[trigger] after.has_at(k, i);
                assert(before.has_at(k, i));
            }
            if before.content().contains_key(k) {
                let i = choose|i: int| #[trigger] before.has_at(k, i);
                assert(after.has_at(k, i));
            }
            if k == model {
                assert(after.has_at(k, at));
            }
        }
        assert forall|k: K::Model| after.content().contains_key(k) implies after.content()[k]
            == before.content().insert(model, value)[k] by {
            let i = choose|i: int| #[trigger] after.has_at(k, i);
            after.lemma_entry(i);
            before.lemma_entry(i);
            if k == model {
                after.lemma_unique(k, i, at);
            }
        }
        assert(after.content() =~= before.content().insert(model, value));
    }
}

/// Cells by their addresses, apart for each name.
#[derive(Debug, PartialEq, Eq)]
pub struct NamedCells<V> {
    names: SortedMap<String, SortedMap<CellAddr, V>>,
}

impl<V> View for NamedCells<V> {
    type V = Map<Seq<char>, Map<CellAddr, V>>;

    closed spec fn view(&self) -> Map<Seq<char>, Map<CellAddr, V>> {
        self.names.content().map_values(|cells: SortedMap<CellAddr, V>| cells.content())
    }
}

/// The cells under a name, none where the name is not known.
pub open spec fn cells_of<V>(named: Map<Seq<char>, Map<CellAddr, V>>, name: Seq<char>) -> Map<
    CellAddr,
    V,
> {
    if named.contains_key(name) {
        named[name]
    } else {
        Map::empty()
    }
}

/// The cells after one of them was put under a name.
pub open spec fn with_cell<V>(
    named: Map<Seq<char>, Map<CellAddr, V>>,
    name: Seq<char>,
    addr: CellAddr,
    value: V,
) -> Map<Seq<char>, Map<CellAddr, V>> {
    named.insert(name, cells_of(named, name).insert(addr, value))
}

/// The cells, under all the names, without those in a set.
pub open spec fn without_cells<V>(
    named: Map<Seq<char>, Map<CellAddr, V>>,
    gone: Set<CellAddr>,
) -> Map<Seq<char>, Map<CellAddr, V>> {
    named.map_values(|cells: Map<CellAddr, V>| cells.remove_keys(gone))
}

impl<V> NamedCells<V> {
    /// The entries are in order.
    pub closed spec fn well_formed(self) -> bool {
        &&& self.names.well_formed()
        &&& forall|i: int|
            0 <= i < self.names.items().len() ==> (#[trigger] self.names.items()[i]).1.well_formed()
    }

    /// Without names.
    pub fn new() -> (r: Self)
        ensures
            r.well_formed(),
            r@ == Map::<Seq<char>, Map<CellAddr, V>>::empty(),
    {
        let r = NamedCells { names: SortedMap::new() };
        assert(r@ =~= Map::<Seq<char>, Map<CellAddr, V>>::empty());
        r
    }

    /// The cells under a name.
    pub fn get(&self, name: &String) -> (r: Option<&SortedMap<CellAddr, V>>)
        requires
            self.well_formed(),
        ensures
            match r {
                Some(cells) => {
                    &&& self@.contains_key(name@)
                    &&& cells.well_formed()
                    &&& cells.content() == self@[name@]
                },
                None => !self@.contains_key(name@),
            },
    {
        match self.names.position(name) {
            Some(i) => {
                assert(self.names.items()[i as int].1.well_formed());
                Some(&self.names.at(i).1)
            },
            None => None,
        }
    }

    /// The names, in order.
    pub fn names(&self) -> (r: Vec<String>)
        requires
            self.well_formed(),
        ensures
            forall|i: int| 0 <= i < r@.len() ==> self@.contains_key((#[trigger] r@[i])@),
            forall|name: Seq<char>| #[trigger]
                self@.contains_key(name) ==> exists|i: int|
                    0 <= i < r@.len() && (#[trigger] r@[i])@ == name,
            forall|i: int, j: int|
                0 <= i < j < r@.len() ==> text_precedes((#[trigger] r@[i])@, (#[trigger] r@[j])@),
    {
        let mut list: Vec<String> = Vec::new();
        let mut i: usize = 0;
        while i < self.names.len()
            invariant
                i <= self.names.items().len(),
                list@.len() == i,
                forall|k: int| 0 <= k < i ==> (#[trigger] list@[k])@ == self.names.items()[k].0@,
            decreases self.names.items().len() - i,
        {
            list.push(self.names.at(i).0.clone());
            i = i + 1;
        }
        proof {
            assert forall|k: int| 0 <= k < list@.len() implies self@.contains_key(
                (#[trigger] list@[k])@,
            ) by {
                self.names.lemma_entry(k);
            }
            assert forall|name: Seq<char>| #[trigger] self@.contains_key(name) implies exists|k: int|
                0 <= k < list@.len() && (#[trigger] list@[k])@ == name by {
                let k = choose|k: int| #[trigger] self.names.has_at(name, k);
                assert(list@[k]@ == name);
            }
            assert forall|k: int, m: int| 0 <= k < m < list@.len() implies text_precedes(
                (#[trigger] list@[k])@,
                (#[trigger] list@[m])@,
            ) by {
                assert(<String as SortKey>::precedes(
                    self.names.items()[k].0.model(),
                    self.names.items()[m].0.model(),
                ));
            }
        }
        list
    }

    /// Puts a cell under a name.
    pub fn insert(&mut self, name: String, addr: CellAddr, value: V)
        requires
            old(self).well_formed(),
        ensures
            final(self).well_formed(),
            final(self)@ == with_cell(old(self)@, name@, addr, value),
    {
        let ghost before = *self;
        match self.names.position(&name) {
            Some(i) => {
                let ghost cells = self.names.items()[i as int].1;
                assert(cells.well_formed());
                let slot = self.names.value_mut(i);
                slot.insert(addr, value);
                proof {
                    let changed = self.names.items()[i as int].1;
                    SortedMap::lemma_value_changed(before.names, self.names, i as int, changed);
                    assert(self@ =~= with_cell(before@, name@, addr, value));
                }
            },
            None => {
                let mut cells: SortedMap<CellAddr, V> = SortedMap::new();
                cells.insert(addr, value);
                self.names.insert(name, cells);
                proof {
                    self.lemma_all_well_formed(before, name@, cells);
                    assert(self@ =~= with_cell(before@, name@, addr, value));
                }
            },
        }
    }

    /// The entries stay in order when cells in order come under a name.
    proof fn lemma_all_well_formed(self, before: Self, name: Seq<char>, cells: SortedMap<CellAddr, V>)
        requires
            before.well_formed(),
            cells.well_formed(),
            self.names.well_formed(),
            self.names.content() == before.names.content().insert(name, cells),
        ensures
            self.well_formed(),
    {
        assert forall|i: int| 0 <= i < self.names.items().len() implies (
        #[trigger] self.names.items()[i]).1.well_formed() by {
            self.names.lemma_entry(i);
            let key = self.names.items()[i].0@;
            if key != name {
                let k = choose|k: int| #[trigger] before.names.has_at(key, k);
                before.names.lemma_entry(k);
                assert(before.names.items()[k].1.well_formed());
            }
        }
    }

    /// Takes a cell out, whatever name it is under.
    pub fn remove(&mut self, addr: CellAddr)
        requires
            old(self).well_formed(),
        ensures
            final(self).well_formed(),
            final(self)@ == without_cells(old(self)@, set![addr]),
    {
        let ghost before = *self;
        let mut i: usize = 0;
        while i < self.names.len()
            invariant
                before.well_formed(),
                self.well_formed(),
                i <= self.names.items().len(),
                self.names.items().len() == before.names.items().len(),
                forall|k: int|
                    0 <= k < before.names.items().len() ==> (#[trigger] self.names.items()[k]).0
                        == before.names.items()[k].0,
                forall|k: int|
                    0 <= k < i ==> (#[trigger] self.names.items()[k]).1.content()
                        == before.names.items()[k].1.content().remove(addr),
                forall|k: int|
                    i <= k < before.names.items().len() ==> #[trigger] self.names.items()[k]
                        == before.names.items()[k],
            decreases self.names.items().len() - i,
        {
            let ghost prior = *self;
            assert(self.names.items()[i as int].1.well_formed());
            let slot = self.names.value_mut(i);
            slot.remove(&addr);
            proof {
                let changed = self.names.items()[i as int].1;
                SortedMap::lemma_value_changed(prior.names, self.names, i as int, changed);
            }
            i = i + 1;
        }
        proof {
            lemma_same_names(before, *self, set![addr]);
        }
    }

    /// Takes the outputs of an operation out, whatever names they are under.
    pub fn remove_outputs(&mut self, opid: Opid)
        requires
            old(self).well_formed(),
        ensures
            final(self).well_formed(),
            final(self)@ == without_cells(old(self)@, outputs_of_any(opid)),
    {
        let ghost before = *self;
        let mut i: usize = 0;
        while i < self.names.len()
            invariant
                before.well_formed(),
                self.well_formed(),
                i <= self.names.items().len(),
                self.names.items().len() == before.names.items().len(),
                forall|k: int|
                    0 <= k < before.names.items().len() ==> (#[trigger] self.names.items()[k]).0
                        == before.names.items()[k].0,
                forall|k: int|
                    0 <= k < i ==> (#[trigger] self.names.items()[k]).1.content()
                        == before.names.items()[k].1.content().remove_keys(outputs_of_any(opid)),
                forall|k: int|
                    i <= k < before.names.items().len() ==> #[trigger] self.names.items()[k]
                        == before.names.items()[k],
            decreases self.names.items().len() - i,
        {
            let ghost prior = *self;
            assert(self.names.items()[i as int].1.well_formed());
            let slot = self.names.value_mut(i);
            remove_outputs_of(slot, opid);
            proof {
                let changed = self.names.items()[i as int].1;
                SortedMap::lemma_value_changed(prior.names, self.names, i as int, changed);
            }
            i = i + 1;
        }
        proof {
            lemma_same_names(before, *self, outputs_of_any(opid));
        }
    }
}

/// All the addresses which outputs of an operation may have.
pub open spec fn outputs_of_any(opid: Opid) -> Set<CellAddr> {
    Set::new(|addr: CellAddr| addr.opid == opid)
}

/// Takes the outputs of an operation out of a map of cells.
fn remove_outputs_of<V>(cells: &mut SortedMap<CellAddr, V>, opid: Opid)
    requires
        old(cells).well_formed(),
    ensures
        final(cells).well_formed(),
        final(cells).content() == old(cells).content().remove_keys(outputs_of_any(opid)),
{
    let ghost before = *cells;
    let mut i: usize = 0;
    while i < cells.len()
        invariant
            cells.well_formed(),
            i <= cells.items().len(),
            forall|k: int| 0 <= k < i ==> (#[trigger] cells.items()[k]).0.opid != opid,
            cells.content().remove_keys(outputs_of_any(opid)) == before.content().remove_keys(
                outputs_of_any(opid),
            ),
        decreases cells.items().len() - i,
    {
        if cells.at(i).0.opid == opid {
            let ghost prior = *cells;
            cells.drop_at(i);
            assert(cells.content().remove_keys(outputs_of_any(opid))
                =~= prior.content().remove_keys(outputs_of_any(opid)));
        } else {
            i = i + 1;
        }
    }
    proof {
        assert forall|addr: CellAddr| #[trigger] cells.content().contains_key(addr) implies addr.opid
            != opid by {
            let k = choose|k: int| #[trigger] cells.has_at(addr, k);
            assert(cells.items()[k].0 == addr);
        }
        assert(cells.content().remove_keys(outputs_of_any(opid)) =~= cells.content());
    }
}

/// Where the names are the same and the cells under each lost those in a set, so did the whole.
proof fn lemma_same_names<V>(before: NamedCells<V>, after: NamedCells<V>, gone: Set<CellAddr>)
    requires
        before.well_formed(),
        after.well_formed(),
        after.names.items().len() == before.names.items().len(),
        forall|k: int|
            0 <= k < before.names.items().len() ==> (#[trigger] after.names.items()[k]).0
                == before.names.items()[k].0,
        forall|k: int|
            0 <= k < before.names.items().len() ==> (#[trigger] after.names.items()[k]).1.content()
                =~= before.names.items()[k].1.content().remove_keys(gone),
    ensures
        after@ == without_cells(before@, gone),
{
    assert forall|name: Seq<char>|
        after@.contains_key(name) == without_cells(before@, gone).contains_key(name) by {
        if after@.contains_key(name) {
            let k = choose|k: int| #[trigger] after.names.has_at(name, k);
            assert(before.names.has_at(name, k));
        }
        if before@.contains_key(name) {
            let k = choose|k: int| #[trigger] before.names.has_at(name, k);
            assert(after.names.has_at(name, k));
        }
    }
    assert forall|name: Seq<char>| after@.contains_key(name) implies after@[name] == without_cells(
        before@,
        gone,
    )[name] by {
        let k = choose|k: int| #[trigger] after.names.has_at(name, k);
        after.names.lemma_entry(k);
        before.names.lemma_entry(k);
        assert(before.names.has_at(name, k));
    }
    assert(after@ =~= without_cells(before@, gone));
}

} // verus!
