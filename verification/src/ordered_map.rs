//! A map kept as a vector of items in strictly increasing key order.

use crate::order::{OrderedKey, Placement};
use vstd::prelude::*;

verus! {

/// A map from keys to values whose items stand in strictly increasing key order.
pub struct OrderedMap<K, V> {
    items: Vec<(K, V)>,
}

/// The items' keys are strictly increasing.
pub open spec fn keys_increase<K: OrderedKey, V>(items: Seq<(K, V)>) -> bool {
    forall|i: int, j: int|
        0 <= i < j < items.len() ==> K::before(#[trigger] items[i].0@, #[trigger] items[j].0@)
}

/// `items` holds the key `k`.
pub open spec fn holds_key<K: OrderedKey, V>(items: Seq<(K, V)>, k: <K as View>::V) -> bool {
    exists|i: int| 0 <= i < items.len() && (#[trigger] items[i]).0@ == k
}

/// Where `items` holds the key `k`.
pub open spec fn index_of_key<K: OrderedKey, V>(items: Seq<(K, V)>, k: <K as View>::V) -> int {
    choose|i: int| 0 <= i < items.len() && (#[trigger] items[i]).0@ == k
}

/// What `items` says as a map.
pub open spec fn items_map<K: OrderedKey, V>(items: Seq<(K, V)>) -> Map<<K as View>::V, V> {
    Map::new(
        |k: <K as View>::V| holds_key(items, k),
        |k: <K as View>::V| items[index_of_key(items, k)].1,
    )
}

/// The item at `i` is what the map says of its key.
pub proof fn lemma_item_in_map<K: OrderedKey, V>(items: Seq<(K, V)>, i: int)
    requires
        keys_increase(items),
        0 <= i < items.len(),
    ensures
        items_map(items).contains_key(items[i].0@),
        items_map(items)[items[i].0@] == items[i].1,
        index_of_key(items, items[i].0@) == i,
{
    let k = items[i].0@;
    let j = index_of_key(items, k);
    assert(holds_key(items, k));
    assert(items[j].0@ == k);
    K::before_irreflexive(k);
    if i < j {
        assert(K::before(items[i].0@, items[j].0@));
    }
    if j < i {
        assert(K::before(items[j].0@, items[i].0@));
    }
}

/// A key that lies strictly between two neighbours is not held.
proof fn lemma_gap_not_held<K: OrderedKey, V>(items: Seq<(K, V)>, at: int, k: <K as View>::V)
    requires
        0 <= at <= items.len(),
        forall|i: int| 0 <= i < at ==> K::before(#[trigger] items[i].0@, k),
        forall|i: int| at <= i < items.len() ==> K::before(k, #[trigger] items[i].0@),
    ensures
        !holds_key(items, k),
{
    K::before_irreflexive(k);
}

impl<K: OrderedKey, V> OrderedMap<K, V> {
    /// The items in key order.
    pub closed spec fn items(&self) -> Seq<(K, V)> {
        self.items@
    }

    /// The items are in strictly increasing key order.
    pub open spec fn wf(&self) -> bool {
        keys_increase(self.items())
    }

    pub open spec fn view(&self) -> Map<<K as View>::V, V> {
        items_map(self.items())
    }

    /// The empty map.
    pub fn new() -> (m: Self)
        ensures
            m.wf(),
            m.items() == Seq::<(K, V)>::empty(),
            m@ == Map::<<K as View>::V, V>::empty(),
    {
        let m = OrderedMap { items: Vec::new() };
        assert(m@ =~= Map::<<K as View>::V, V>::empty());
        m
    }

    /// How many items the map holds.
    pub fn len(&self) -> (n: usize)
        ensures
            n == self.items().len(),
    {
        self.items.len()
    }

    /// The item at place `i` in key order.
    pub fn item(&self, i: usize) -> (item: &(K, V))
        requires
            i < self.items().len(),
        ensures
            *item == self.items()[i as int],
    {
        &self.items[i]
    }

    /// Where `key` is held (`Ok`), or where it would have to be inserted (`Err`).
    fn search(&self, key: &K) -> (found: Result<usize, usize>)
        requires
            self.wf(),
        ensures
            match found {
                Ok(at) => at < self.items().len() && self.items()[at as int].0@ == key@,
                Err(at) => {
                    &&& at <= self.items().len()
                    &&& forall|i: int|
                        0 <= i < at ==> K::before(#[trigger] self.items()[i].0@, key@)
                    &&& forall|i: int|
                        at <= i < self.items().len() ==> K::before(
                            key@,
                            #[trigger] self.items()[i].0@,
                        )
                },
            },
    {
        let mut low: usize = 0;
        let mut high: usize = self.items.len();
        while low < high
            invariant
                self.wf(),
                low <= high <= self.items.len(),
                forall|i: int| 0 <= i < low ==> K::before(#[trigger] self.items()[i].0@, key@),
                forall|i: int|
                    high <= i < self.items().len() ==> K::before(
                        key@,
                        #[trigger] self.items()[i].0@,
                    ),
            decreases high - low,
        {
            let middle: usize = low + (high - low) / 2;
            match self.items[middle].0.place(key) {
                Placement::Same => {
                    return Ok(middle);
                },
                Placement::Before => {
                    proof {
                        assert forall|i: int| 0 <= i < middle + 1 implies K::before(
                            #[trigger] self.items()[i].0@,
                            key@,
                        ) by {
                            if i < middle {
                                assert(K::before(
                                    self.items()[i].0@,
                                    self.items()[middle as int].0@,
                                ));
                                K::before_transitive(
                                    self.items()[i].0@,
                                    self.items()[middle as int].0@,
                                    key@,
                                );
                            }
                        }
                    }
                    low = middle + 1;
                },
                Placement::After => {
                    proof {
                        assert forall|i: int| middle <= i < self.items().len() implies K::before(
                            key@,
                            #[trigger] self.items()[i].0@,
                        ) by {
                            if middle < i {
                                assert(K::before(
                                    self.items()[middle as int].0@,
                                    self.items()[i].0@,
                                ));
                                K::before_transitive(
                                    key@,
                                    self.items()[middle as int].0@,
                                    self.items()[i].0@,
                                );
                            }
                        }
                    }
                    high = middle;
                },
            }
        }
        Err(low)
    }

    /// The value under `key`.
    pub fn get(&self, key: &K) -> (value: Option<&V>)
        requires
            self.wf(),
        ensures
            match value {
                Some(v) => self@.contains_key(key@) && *v == self@[key@],
                None => !self@.contains_key(key@),
            },
    {
        match self.search(key) {
            Ok(at) => {
                proof {
                    lemma_item_in_map(self.items(), at as int);
                }
                Some(&self.items[at].1)
            },
            Err(at) => {
                proof {
                    lemma_gap_not_held(self.items(), at as int, key@);
                }
                None
            },
        }
    }

    /// Whether `key` is held.
    pub fn contains(&self, key: &K) -> (held: bool)
        requires
            self.wf(),
        ensures
            held == self@.contains_key(key@),
    {
        self.get(key).is_some()
    }

    /// Puts `value` under `key` and hands back the value that stood there.
    pub fn insert(&mut self, key: K, value: V) -> (replaced: Option<V>)
        requires
            old(self).wf(),
        ensures
            final(self).wf(),
            final(self)@ == old(self)@.insert(key@, value),
            match replaced {
                Some(v) => old(self)@.contains_key(key@) && v == old(self)@[key@],
                None => !old(self)@.contains_key(key@),
            },
    {
        match self.search(&key) {
            Ok(at) => {
                let ghost before = self.items();
                proof {
                    lemma_item_in_map(before, at as int);
                }
                let mut slot = (key, value);
                let ghost added = slot;
                std::mem::swap(&mut slot, &mut self.items[at]);
                proof {
                    let after = self.items();
                    assert(after == before.update(at as int, added));
                    assert forall|i: int, j: int| 0 <= i < j < after.len() implies K::before(
                        #[trigger] after[i].0@,
                        #[trigger] after[j].0@,
                    ) by {
                        assert(after[i].0@ == before[i].0@);
                        assert(after[j].0@ == before[j].0@);
                    }
                    lemma_same_map_after_update(before, after, at as int, key@, value);
                }
                Some(slot.1)
            },
            Err(at) => {
                let ghost before = self.items();
                let ghost added = (key, value);
                proof {
                    lemma_gap_not_held(before, at as int, key@);
                }
                self.items.insert(at, (key, value));
                proof {
                    let after = self.items();
                    assert(after == before.insert(at as int, added));
                    lemma_same_map_after_insert(before, after, at as int, added);
                }
                None
            },
        }
    }

    /// Takes `key` out of the map and hands back its value.
    pub fn remove(&mut self, key: &K) -> (removed: Option<V>)
        requires
            old(self).wf(),
        ensures
            final(self).wf(),
            final(self)@ == old(self)@.remove(key@),
            match removed {
                Some(v) => old(self)@.contains_key(key@) && v == old(self)@[key@],
                None => !old(self)@.contains_key(key@),
            },
    {
        match self.search(key) {
            Ok(at) => {
                let ghost before = self.items();
                proof {
                    lemma_item_in_map(before, at as int);
                }
                let item = self.items.remove(at);
                proof {
                    let after = self.items();
                    assert(after == before.remove(at as int));
                    lemma_same_map_after_remove(before, after, at as int);
                }
                Some(item.1)
            },
            Err(at) => {
                proof {
                    lemma_gap_not_held(self.items(), at as int, key@);
                    assert(self@.remove(key@) =~= self@);
                }
                None
            },
        }
    }

    /// Whether every key of this map is a key of `other`.
    pub fn keys_within<W>(&self, other: &OrderedMap<K, W>) -> (within: bool)
        requires
            self.wf(),
            other.wf(),
        ensures
            within == self@.dom().subset_of(other@.dom()),
    {
        let mut i: usize = 0;
        while i < self.items.len()
            invariant
                i <= self.items.len(),
                self.wf(),
                other.wf(),
                forall|j: int|
                    0 <= j < i ==> other@.contains_key(#[trigger] self.items()[j].0@),
            decreases self.items.len() - i,
        {
            proof {
                lemma_item_in_map(self.items(), i as int);
            }
            if !other.contains(&self.items[i].0) {
                assert(self@.dom().contains(self.items()[i as int].0@));
                return false;
            }
            i = i + 1;
        }
        true
    }

    /// Whether no key of this map is a key of `other`.
    pub fn keys_apart<W>(&self, other: &OrderedMap<K, W>) -> (apart: bool)
        requires
            self.wf(),
            other.wf(),
        ensures
            apart == self@.dom().disjoint(other@.dom()),
    {
        let mut i: usize = 0;
        while i < self.items.len()
            invariant
                i <= self.items.len(),
                self.wf(),
                other.wf(),
                forall|j: int|
                    0 <= j < i ==> !other@.contains_key(#[trigger] self.items()[j].0@),
            decreases self.items.len() - i,
        {
            proof {
                lemma_item_in_map(self.items(), i as int);
            }
            if other.contains(&self.items[i].0) {
                assert(self@.dom().contains(self.items()[i as int].0@));
                return false;
            }
            i = i + 1;
        }
        true
    }

    /// Empties the map.
    pub fn clear(&mut self)
        ensures
            final(self).wf(),
            final(self).items() == Seq::<(K, V)>::empty(),
            final(self)@ == Map::<<K as View>::V, V>::empty(),
    {
        self.items.clear();
        assert(self@ =~= Map::<<K as View>::V, V>::empty());
    }
}

/// Replacing the item of a held key updates the map at that key.
proof fn lemma_same_map_after_update<K: OrderedKey, V>(
    before: Seq<(K, V)>,
    after: Seq<(K, V)>,
    at: int,
    k: <K as View>::V,
    value: V,
)
    requires
        keys_increase(before),
        keys_increase(after),
        0 <= at < before.len(),
        after.len() == before.len(),
        forall|i: int| 0 <= i < after.len() && i != at ==> #[trigger] after[i] == before[i],
        before[at].0@ == k,
        after[at].0@ == k,
        after[at].1 == value,
    ensures
        items_map(after) == items_map(before).insert(k, value),
{
    let left = items_map(after);
    let right = items_map(before).insert(k, value);
    assert forall|x: <K as View>::V| left.contains_key(x) == right.contains_key(x) by {
        if left.contains_key(x) {
            let i = index_of_key(after, x);
            if i != at {
                assert(after[i] == before[i]);
                assert(before[i].0@ == x);
            }
        }
        if right.contains_key(x) && x != k {
            let i = index_of_key(before, x);
            assert(i != at);
            assert(after[i] == before[i]);
            assert(after[i].0@ == x);
        }
        if x == k {
            assert(after[at].0@ == x);
        }
    }
    assert forall|x: <K as View>::V| left.contains_key(x) implies #[trigger] left[x] == right[x] by {
        let i = index_of_key(after, x);
        assert(after[i].0@ == x);
        lemma_item_in_map(after, i);
        if i != at {
            assert(after[i] == before[i]);
            lemma_item_in_map(before, i);
            if x == k {
                lemma_item_in_map(after, at);
            }
        }
    }
    assert(left =~= right);
}

/// Inserting an item at its place adds its key to the map.
proof fn lemma_same_map_after_insert<K: OrderedKey, V>(
    before: Seq<(K, V)>,
    after: Seq<(K, V)>,
    at: int,
    added: (K, V),
)
    requires
        keys_increase(before),
        0 <= at <= before.len(),
        after == before.insert(at, added),
        forall|i: int| 0 <= i < at ==> K::before(#[trigger] before[i].0@, added.0@),
        forall|i: int| at <= i < before.len() ==> K::before(added.0@, #[trigger] before[i].0@),
    ensures
        keys_increase(after),
        items_map(after) == items_map(before).insert(added.0@, added.1),
{
    assert forall|i: int, j: int| 0 <= i < j < after.len() implies K::before(
        #[trigger] after[i].0@,
        #[trigger] after[j].0@,
    ) by {
        let oi: int = if i < at { i } else { i - 1 };
        let oj: int = if j < at { j } else { j - 1 };
        if i != at {
            assert(after[i] == before[oi]);
        }
        if j != at {
            assert(after[j] == before[oj]);
        }
        if i != at && j != at {
            assert(K::before(before[oi].0@, before[oj].0@));
        }
    }
    lemma_gap_not_held(before, at, added.0@);
    let left = items_map(after);
    let right = items_map(before).insert(added.0@, added.1);
    assert(after[at] == added);
    assert forall|x: <K as View>::V| left.contains_key(x) == right.contains_key(x) by {
        if left.contains_key(x) {
            let i = index_of_key(after, x);
            if i < at {
                assert(before[i].0@ == x);
            } else if i > at {
                assert(before[i - 1].0@ == x);
            }
        }
        if right.contains_key(x) && x != added.0@ {
            let i = index_of_key(before, x);
            if i < at {
                assert(after[i].0@ == x);
            } else {
                assert(after[i + 1].0@ == x);
            }
        }
        if x == added.0@ {
            assert(after[at].0@ == x);
        }
    }
    assert forall|x: <K as View>::V| left.contains_key(x) implies #[trigger] left[x] == right[x] by {
        let i = index_of_key(after, x);
        assert(after[i].0@ == x);
        lemma_item_in_map(after, i);
        if i < at {
            lemma_item_in_map(before, i);
            assert(holds_key(before, x));
        } else if i > at {
            assert(after[i] == before[i - 1]);
            lemma_item_in_map(before, i - 1);
            assert(holds_key(before, x));
        }
    }
    assert(left =~= right);
}

/// Removing an item takes its key out of the map.
proof fn lemma_same_map_after_remove<K: OrderedKey, V>(
    before: Seq<(K, V)>,
    after: Seq<(K, V)>,
    at: int,
)
    requires
        keys_increase(before),
        0 <= at < before.len(),
        after == before.remove(at),
    ensures
        keys_increase(after),
        items_map(after) == items_map(before).remove(before[at].0@),
{
    let k = before[at].0@;
    assert forall|i: int, j: int| 0 <= i < j < after.len() implies K::before(
        #[trigger] after[i].0@,
        #[trigger] after[j].0@,
    ) by {
        let oi: int = if i < at { i } else { i + 1 };
        let oj: int = if j < at { j } else { j + 1 };
        assert(after[i] == before[oi]);
        assert(after[j] == before[oj]);
        assert(K::before(before[oi].0@, before[oj].0@));
    }
    let left = items_map(after);
    let right = items_map(before).remove(k);
    assert forall|x: <K as View>::V| left.contains_key(x) == right.contains_key(x) by {
        if left.contains_key(x) {
            let i = index_of_key(after, x);
            let o: int = if i < at { i } else { i + 1 };
            assert(after[i] == before[o]);
            assert(before[o].0@ == x);
            if x == k {
                lemma_item_in_map(before, o);
                lemma_item_in_map(before, at);
            }
        }
        if right.contains_key(x) {
            let i = index_of_key(before, x);
            assert(before[i].0@ == x);
            assert(i != at);
            if i < at {
                assert(after[i].0@ == x);
            } else {
                assert(after[i - 1].0@ == x);
            }
        }
    }
    assert forall|x: <K as View>::V| left.contains_key(x) implies #[trigger] left[x] == right[x] by {
        let i = index_of_key(after, x);
        let o: int = if i < at { i } else { i + 1 };
        assert(after[i].0@ == x);
        lemma_item_in_map(after, i);
        assert(after[i] == before[o]);
        lemma_item_in_map(before, o);
    }
    assert(left =~= right);
}

} // verus!
