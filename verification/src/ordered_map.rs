//! A map that keeps its entries in key order.
use vstd::prelude::*;

use crate::order::{self, Ranked};

verus! {

/// A key that is determined by its rank.
pub trait MapKey: Ranked + Copy {
    proof fn rank_unique(a: Self, b: Self)
        requires
            a.rank() == b.rank(),
        ensures
            a == b,
    ;
}

/// Map from keys to values whose entries are stored in key order.
#[derive(Debug, Clone, PartialEq, Eq)]
pub struct OrderedMap<K, V> {
    /// Entries in key order.
    pub entries: Vec<(K, V)>,
}

/// Whether every key comes before all later keys.
pub open spec fn keys_sorted<K: MapKey, V>(entries: Seq<(K, V)>) -> bool {
    forall|i: int, j: int|
        0 <= i < j < entries.len() ==> order::before(
            (#[trigger] entries[i]).0.rank(),
            (#[trigger] entries[j]).0.rank(),
        )
}

/// Whether entry `i` is for `key`.
pub open spec fn entry_at<K, V>(entries: Seq<(K, V)>, key: K, i: int) -> bool {
    0 <= i < entries.len() && entries[i].0 == key
}

/// The map that entries stand for.
pub open spec fn map_of<K, V>(entries: Seq<(K, V)>) -> Map<K, V> {
    Map::new(
        |key: K| exists|i: int| entry_at(entries, key, i),
        |key: K| entries[choose|i: int| entry_at(entries, key, i)].1,
    )
}

impl<K: MapKey, V: Copy> View for OrderedMap<K, V> {
    type V = Map<K, V>;

    open spec fn view(&self) -> Map<K, V> {
        map_of(self.entries@)
    }
}

/// In a sorted sequence each entry gives the value of its key.
pub proof fn lemma_entry<K: MapKey, V>(entries: Seq<(K, V)>, i: int)
    requires
        keys_sorted(entries),
        0 <= i < entries.len(),
    ensures
        map_of(entries).contains_key(entries[i].0),
        map_of(entries)[entries[i].0] == entries[i].1,
{
    let key = entries[i].0;
    assert(entry_at(entries, key, i));
    let j = choose|j: int| entry_at(entries, key, j);
    assert(entry_at(entries, key, j));
    order::lemma_before_irreflexive(key.rank());
    if i < j {
        assert(order::before(entries[i].0.rank(), entries[j].0.rank()));
    } else if j < i {
        assert(order::before(entries[j].0.rank(), entries[i].0.rank()));
    }
}

/// A sorted sequence of entries is determined by the map it stands for.
pub proof fn lemma_entries_unique<K: MapKey, V>(a: Seq<(K, V)>, b: Seq<(K, V)>)
    requires
        keys_sorted(a),
        keys_sorted(b),
        map_of(a) == map_of(b),
    ensures
        a == b,
    decreases a.len(),
{
    if a.len() == 0 {
        if b.len() > 0 {
            lemma_entry(b, 0);
            let i = choose|i: int| entry_at(a, b[0].0, i);
            assert(entry_at(a, b[0].0, i));
        }
        assert(a =~= b);
    } else {
        let n = a.len() - 1;
        lemma_entry(a, n);
        let key = a[n].0;
        let p = choose|p: int| entry_at(b, key, p);
        assert(entry_at(b, key, p));
        let m = b.len() - 1;
        lemma_entry(b, m);
        let other = b[m].0;
        let q = choose|q: int| entry_at(a, other, q);
        assert(entry_at(a, other, q));
        if p < m {
            assert(order::before(b[p].0.rank(), b[m].0.rank()));
            if q < n {
                assert(order::before(a[q].0.rank(), a[n].0.rank()));
                order::lemma_before_asymmetric(key.rank(), other.rank());
            } else {
                order::lemma_before_irreflexive(key.rank());
            }
        }
        assert(p == m);
        let a0 = a.drop_last();
        let b0 = b.drop_last();
        lemma_drop_last(a);
        lemma_drop_last(b);
        lemma_entries_unique(a0, b0);
        assert(a[n] == b[m]);
        assert(a =~= a0.push(a[n]));
        assert(b =~= b0.push(b[m]));
    }
}

/// The entries of a map in key order.
pub open spec fn sorted_entries<K: MapKey, V>(map: Map<K, V>) -> Seq<(K, V)> {
    choose|entries: Seq<(K, V)>| keys_sorted(entries) && map_of(entries) == map
}

/// Sorted entries are the entries of the map they stand for.
pub proof fn lemma_sorted_entries<K: MapKey, V>(entries: Seq<(K, V)>)
    requires
        keys_sorted(entries),
    ensures
        sorted_entries(map_of(entries)) == entries,
{
    let map = map_of(entries);
    let chosen = sorted_entries(map);
    assert(keys_sorted(entries) && map_of(entries) == map);
    assert(keys_sorted(chosen) && map_of(chosen) == map);
    lemma_entries_unique(chosen, entries);
}

/// The keys of entries are finite.
pub proof fn lemma_keys_finite<K, V>(entries: Seq<(K, V)>)
    ensures
        map_of(entries).dom().finite(),
{
    let keys = entries.map_values(|entry: (K, V)| entry.0).to_set();
    assert forall|key: K| #[trigger] map_of(entries).dom().contains(key) implies keys.contains(
        key,
    ) by {
        let i = choose|i: int| entry_at(entries, key, i);
        assert(entry_at(entries, key, i));
        assert(entries.map_values(|entry: (K, V)| entry.0)[i] == key);
    }
    vstd::seq_lib::seq_to_set_is_finite(entries.map_values(|entry: (K, V)| entry.0));
    vstd::set_lib::lemma_set_subset_finite(keys, map_of(entries).dom());
}

/// A finite map has entries in key order.
pub proof fn lemma_entries_exist<K: MapKey, V>(map: Map<K, V>)
    requires
        map.dom().finite(),
    ensures
        keys_sorted(sorted_entries(map)),
        map_of(sorted_entries(map)) == map,
    decreases map.dom().len(),
{
    if map.dom().len() == 0 {
        let none = Seq::<(K, V)>::empty();
        lemma_no_entries(none);
        assert(map =~= Map::<K, V>::empty());
        assert(keys_sorted(none) && map_of(none) == map);
    } else {
        let key = map.dom().choose();
        let rest = map.remove(key);
        assert(map.dom().contains(key));
        assert(rest.dom() =~= map.dom().remove(key));
        lemma_entries_exist(rest);
        let entries = sorted_entries(rest);
        let keys = entries.map_values(|entry: (K, V)| entry.0);
        assert forall|i: int, j: int| 0 <= i < j < keys.len() implies order::before(
            #[trigger] keys[i].rank(),
            #[trigger] keys[j].rank(),
        ) by {
            assert(order::before(entries[i].0.rank(), entries[j].0.rank()));
        }
        assert forall|i: int| 0 <= i < keys.len() implies #[trigger] keys[i].rank()
            != key.rank() by {
            if keys[i].rank() == key.rank() {
                K::rank_unique(keys[i], key);
                lemma_entry(entries, i);
            }
        }
        let at = order::lemma_place(keys, key);
        assert forall|i: int| 0 <= i < at implies order::before(
            (#[trigger] entries[i]).0.rank(),
            key.rank(),
        ) by {
            assert(order::before(keys[i].rank(), key.rank()));
        }
        assert forall|i: int| at <= i < entries.len() implies order::before(
            key.rank(),
            (#[trigger] entries[i]).0.rank(),
        ) by {
            assert(order::before(key.rank(), keys[i].rank()));
        }
        lemma_inserted(entries, at, key, map[key]);
        let more = entries.insert(at, (key, map[key]));
        assert(rest.insert(key, map[key]) =~= map);
        assert(keys_sorted(more) && map_of(more) == map);
    }
}

/// Dropping the last entry removes its key.
proof fn lemma_drop_last<K: MapKey, V>(entries: Seq<(K, V)>)
    requires
        keys_sorted(entries),
        entries.len() > 0,
    ensures
        keys_sorted(entries.drop_last()),
        map_of(entries.drop_last()) == map_of(entries).remove(entries.last().0),
{
    let init = entries.drop_last();
    let key = entries.last().0;
    assert forall|i: int, j: int| 0 <= i < j < init.len() implies order::before(
        (#[trigger] init[i]).0.rank(),
        (#[trigger] init[j]).0.rank(),
    ) by {
        assert(init[i] == entries[i] && init[j] == entries[j]);
    }
    assert forall|k: K| #![auto] map_of(init).contains_key(k) <==> map_of(entries).remove(
        key,
    ).contains_key(k) by {
        if map_of(init).contains_key(k) {
            let i = choose|i: int| entry_at(init, k, i);
            assert(entry_at(init, k, i));
            assert(entry_at(entries, k, i));
            assert(order::before(entries[i].0.rank(), entries[entries.len() - 1].0.rank()));
            order::lemma_before_irreflexive(key.rank());
        }
        if map_of(entries).remove(key).contains_key(k) {
            let i = choose|i: int| entry_at(entries, k, i);
            assert(entry_at(entries, k, i));
            assert(entry_at(init, k, i));
        }
    }
    assert forall|k: K| #![auto] map_of(init).contains_key(k) implies map_of(init)[k] == map_of(
        entries,
    )[k] by {
        let i = choose|i: int| entry_at(init, k, i);
        assert(entry_at(init, k, i));
        lemma_entry(init, i);
        lemma_entry(entries, i);
    }
    assert(map_of(init) =~= map_of(entries).remove(key));
}

/// No entries stand for the empty map.
pub proof fn lemma_no_entries<K: MapKey, V>(entries: Seq<(K, V)>)
    requires
        entries.len() == 0,
    ensures
        keys_sorted(entries),
        map_of(entries) == Map::<K, V>::empty(),
{
    assert forall|k: K| #![auto] !map_of(entries).contains_key(k) by {
        if map_of(entries).contains_key(k) {
            let i = choose|i: int| entry_at(entries, k, i);
            assert(entry_at(entries, k, i));
        }
    }
    assert(map_of(entries) =~= Map::<K, V>::empty());
}

/// Taking one more entry adds its key, which is new.
pub proof fn lemma_take_next<K: MapKey, V>(entries: Seq<(K, V)>, count: int)
    requires
        keys_sorted(entries),
        0 <= count < entries.len(),
    ensures
        keys_sorted(entries.take(count + 1)),
        !map_of(entries.take(count)).contains_key(entries[count].0),
        map_of(entries.take(count + 1)) == map_of(entries.take(count)).insert(
            entries[count].0,
            entries[count].1,
        ),
{
    let more = entries.take(count + 1);
    assert forall|i: int, j: int| 0 <= i < j < more.len() implies order::before(
        (#[trigger] more[i]).0.rank(),
        (#[trigger] more[j]).0.rank(),
    ) by {
        assert(more[i] == entries[i] && more[j] == entries[j]);
    }
    lemma_drop_last(more);
    lemma_entry(more, count);
    assert(more.drop_last() =~= entries.take(count));
    assert(map_of(more) =~= map_of(entries.take(count)).insert(entries[count].0, entries[count].1));
}

impl<K: MapKey, V: Copy> OrderedMap<K, V> {
    /// Whether the entries are in key order.
    pub open spec fn wf(&self) -> bool {
        keys_sorted(self.entries@)
    }

    /// The empty map.
    pub fn new() -> (map: OrderedMap<K, V>)
        ensures
            map.wf(),
            map@ == Map::<K, V>::empty(),
            map.entries@ == Seq::<(K, V)>::empty(),
    {
        let map: OrderedMap<K, V> = OrderedMap { entries: Vec::new() };
        assert(map@ =~= Map::<K, V>::empty()) by {
            assert forall|k: K| #![auto] !map@.contains_key(k) by {
                if map@.contains_key(k) {
                    let i = choose|i: int| entry_at(map.entries@, k, i);
                    assert(entry_at(map.entries@, k, i));
                }
            }
        }
        map
    }

    /// The number of entries whose keys come before `key`.
    pub fn position(&self, key: &K) -> (at: usize)
        requires
            self.wf(),
        ensures
            at <= self.entries@.len(),
            forall|i: int|
                0 <= i < at ==> order::before((#[trigger] self.entries@[i]).0.rank(), key.rank()),
            forall|i: int|
                at <= i < self.entries@.len() ==> !order::before(
                    (#[trigger] self.entries@[i]).0.rank(),
                    key.rank(),
                ),
    {
        let mut low: usize = 0;
        let mut high: usize = self.entries.len();
        while low < high
            invariant
                self.wf(),
                low <= high <= self.entries@.len(),
                forall|i: int|
                    0 <= i < low ==> order::before(
                        (#[trigger] self.entries@[i]).0.rank(),
                        key.rank(),
                    ),
                forall|i: int|
                    high <= i < self.entries@.len() ==> !order::before(
                        (#[trigger] self.entries@[i]).0.rank(),
                        key.rank(),
                    ),
            decreases high - low,
        {
            let mid: usize = low + (high - low) / 2;
            let found: bool = self.entries[mid].0.precedes(key);
            if found {
                proof {
                    assert forall|i: int| 0 <= i < mid + 1 implies order::before(
                        (#[trigger] self.entries@[i]).0.rank(),
                        key.rank(),
                    ) by {
                        if low <= i < mid {
                            order::lemma_before_transitive(
                                self.entries@[i].0.rank(),
                                self.entries@[mid as int].0.rank(),
                                key.rank(),
                            );
                        }
                    }
                }
                low = mid + 1;
            } else {
                proof {
                    assert forall|i: int| mid <= i < self.entries@.len() implies !order::before(
                        (#[trigger] self.entries@[i]).0.rank(),
                        key.rank(),
                    ) by {
                        if i > mid && order::before(self.entries@[i].0.rank(), key.rank()) {
                            order::lemma_before_transitive(
                                self.entries@[mid as int].0.rank(),
                                self.entries@[i].0.rank(),
                                key.rank(),
                            );
                        }
                    }
                }
                high = mid;
            }
        }
        low
    }

    fn holds_at(&self, key: &K, at: usize) -> (found: bool)
        requires
            self.wf(),
            at <= self.entries@.len(),
            forall|i: int|
                0 <= i < at ==> order::before((#[trigger] self.entries@[i]).0.rank(), key.rank()),
            forall|i: int|
                at <= i < self.entries@.len() ==> !order::before(
                    (#[trigger] self.entries@[i]).0.rank(),
                    key.rank(),
                ),
        ensures
            found == self@.contains_key(*key),
            found ==> at < self.entries@.len() && self.entries@[at as int].0 == *key,
            !found ==> forall|i: int|
                at <= i < self.entries@.len() ==> order::before(
                    key.rank(),
                    (#[trigger] self.entries@[i]).0.rank(),
                ),
    {
        if at >= self.entries.len() {
            proof {
                if self@.contains_key(*key) {
                    let i = choose|i: int| entry_at(self.entries@, *key, i);
                    assert(entry_at(self.entries@, *key, i));
                    order::lemma_before_irreflexive(key.rank());
                }
            }
            return false;
        }
        let later: bool = key.precedes(&self.entries[at].0);
        proof {
            let found_key = self.entries@[at as int].0;
            if later {
                if self@.contains_key(*key) {
                    let i = choose|i: int| entry_at(self.entries@, *key, i);
                    assert(entry_at(self.entries@, *key, i));
                    order::lemma_before_irreflexive(key.rank());
                    if i > at {
                        order::lemma_before_transitive(
                            key.rank(),
                            found_key.rank(),
                            self.entries@[i].0.rank(),
                        );
                    }
                }
                assert forall|i: int| at <= i < self.entries@.len() implies order::before(
                    key.rank(),
                    (#[trigger] self.entries@[i]).0.rank(),
                ) by {
                    if i > at {
                        order::lemma_before_transitive(
                            key.rank(),
                            found_key.rank(),
                            self.entries@[i].0.rank(),
                        );
                    }
                }
            } else {
                order::lemma_before_total(key.rank(), found_key.rank());
                K::rank_unique(*key, found_key);
                assert(entry_at(self.entries@, *key, at as int));
            }
        }
        !later
    }

    /// The value of `key`.
    pub fn get(&self, key: &K) -> (value: Option<V>)
        requires
            self.wf(),
        ensures
            value == (if self@.contains_key(*key) {
                Some(self@[*key])
            } else {
                None
            }),
    {
        let at: usize = self.position(key);
        if self.holds_at(key, at) {
            proof {
                lemma_entry(self.entries@, at as int);
            }
            Some(self.entries[at].1)
        } else {
            None
        }
    }

    /// Whether the map has a value for `key`.
    pub fn contains(&self, key: &K) -> (found: bool)
        requires
            self.wf(),
        ensures
            found == self@.contains_key(*key),
    {
        let at: usize = self.position(key);
        self.holds_at(key, at)
    }

    /// Give `key` a value, in place of the one it had.
    pub fn insert(&mut self, key: K, value: V)
        requires
            old(self).wf(),
        ensures
            final(self).wf(),
            final(self)@ == old(self)@.insert(key, value),
    {
        let ghost before = self.entries@;
        let at: usize = self.position(&key);
        if self.holds_at(&key, at) {
            self.entries.set(at, (key, value));
            proof {
                lemma_replaced(before, at as int, value);
            }
        } else {
            self.entries.insert(at, (key, value));
            proof {
                lemma_inserted(before, at as int, key, value);
            }
        }
    }

    /// Remove `key` and its value.
    pub fn remove(&mut self, key: &K)
        requires
            old(self).wf(),
        ensures
            final(self).wf(),
            final(self)@ == old(self)@.remove(*key),
    {
        let ghost before = self.entries@;
        let at: usize = self.position(key);
        if self.holds_at(key, at) {
            let _ = self.entries.remove(at);
            proof {
                lemma_removed(before, at as int);
            }
        } else {
            assert(self@ =~= map_of(before).remove(*key));
        }
    }
}

proof fn lemma_replaced<K: MapKey, V>(entries: Seq<(K, V)>, at: int, value: V)
    requires
        keys_sorted(entries),
        0 <= at < entries.len(),
    ensures
        keys_sorted(entries.update(at, (entries[at].0, value))),
        map_of(entries.update(at, (entries[at].0, value))) == map_of(entries).insert(
            entries[at].0,
            value,
        ),
{
    let key = entries[at].0;
    let after = entries.update(at, (key, value));
    assert forall|i: int, j: int| 0 <= i < j < after.len() implies order::before(
        (#[trigger] after[i]).0.rank(),
        (#[trigger] after[j]).0.rank(),
    ) by {
        assert(after[i].0 == entries[i].0 && after[j].0 == entries[j].0);
    }
    assert forall|k: K| #![auto] map_of(after).contains_key(k) <==> map_of(entries).insert(
        key,
        value,
    ).contains_key(k) by {
        if map_of(after).contains_key(k) {
            let i = choose|i: int| entry_at(after, k, i);
            assert(entry_at(after, k, i));
            assert(entry_at(entries, k, i));
        }
        if map_of(entries).contains_key(k) {
            let i = choose|i: int| entry_at(entries, k, i);
            assert(entry_at(entries, k, i));
            assert(entry_at(after, k, i));
        }
        if k == key {
            assert(entry_at(after, k, at));
        }
    }
    assert forall|k: K| #![auto] map_of(after).contains_key(k) implies map_of(after)[k] == map_of(
        entries,
    ).insert(key, value)[k] by {
        let i = choose|i: int| entry_at(after, k, i);
        assert(entry_at(after, k, i));
        lemma_entry(after, i);
        lemma_entry(entries, i);
        if i != at {
            if k == key {
                lemma_entry(after, at);
                if i < at {
                    assert(order::before(after[i].0.rank(), after[at].0.rank()));
                } else {
                    assert(order::before(after[at].0.rank(), after[i].0.rank()));
                }
                order::lemma_before_irreflexive(key.rank());
            }
        }
    }
    assert(map_of(after) =~= map_of(entries).insert(key, value));
}

proof fn lemma_inserted<K: MapKey, V>(entries: Seq<(K, V)>, at: int, key: K, value: V)
    requires
        keys_sorted(entries),
        0 <= at <= entries.len(),
        forall|i: int| 0 <= i < at ==> order::before((#[trigger] entries[i]).0.rank(), key.rank()),
        forall|i: int|
            at <= i < entries.len() ==> order::before(key.rank(), (#[trigger] entries[i]).0.rank()),
    ensures
        keys_sorted(entries.insert(at, (key, value))),
        map_of(entries.insert(at, (key, value))) == map_of(entries).insert(key, value),
{
    let after = entries.insert(at, (key, value));
    assert forall|i: int| #![auto] 0 <= i < after.len() implies after[i] == (if i < at {
        entries[i]
    } else if i == at {
        (key, value)
    } else {
        entries[i - 1]
    }) by {}
    assert forall|i: int, j: int| 0 <= i < j < after.len() implies order::before(
        (#[trigger] after[i]).0.rank(),
        (#[trigger] after[j]).0.rank(),
    ) by {
        let a = if i < at { i } else { i - 1 };
        let b = if j < at { j } else { j - 1 };
        if i != at && j != at {
            assert(order::before(entries[a].0.rank(), entries[b].0.rank()));
        }
    }
    assert forall|k: K| #![auto] map_of(after).contains_key(k) <==> map_of(entries).insert(
        key,
        value,
    ).contains_key(k) by {
        if map_of(after).contains_key(k) {
            let i = choose|i: int| entry_at(after, k, i);
            assert(entry_at(after, k, i));
            if i < at {
                assert(entry_at(entries, k, i));
            } else if i > at {
                assert(entry_at(entries, k, i - 1));
            }
        }
        if map_of(entries).contains_key(k) {
            let i = choose|i: int| entry_at(entries, k, i);
            assert(entry_at(entries, k, i));
            if i < at {
                assert(entry_at(after, k, i));
            } else {
                assert(entry_at(after, k, i + 1));
            }
        }
        if k == key {
            assert(entry_at(after, k, at));
        }
    }
    assert forall|k: K| #![auto] map_of(after).contains_key(k) implies map_of(after)[k] == map_of(
        entries,
    ).insert(key, value)[k] by {
        let i = choose|i: int| entry_at(after, k, i);
        assert(entry_at(after, k, i));
        lemma_entry(after, i);
        order::lemma_before_irreflexive(key.rank());
        if i < at {
            lemma_entry(entries, i);
        } else if i > at {
            lemma_entry(entries, i - 1);
        }
    }
    assert(map_of(after) =~= map_of(entries).insert(key, value));
}

proof fn lemma_removed<K: MapKey, V>(entries: Seq<(K, V)>, at: int)
    requires
        keys_sorted(entries),
        0 <= at < entries.len(),
    ensures
        keys_sorted(entries.remove(at)),
        map_of(entries.remove(at)) == map_of(entries).remove(entries[at].0),
{
    let key = entries[at].0;
    let after = entries.remove(at);
    assert forall|i: int| #![auto] 0 <= i < after.len() implies after[i] == (if i < at {
        entries[i]
    } else {
        entries[i + 1]
    }) by {}
    assert forall|i: int, j: int| 0 <= i < j < after.len() implies order::before(
        (#[trigger] after[i]).0.rank(),
        (#[trigger] after[j]).0.rank(),
    ) by {
        let a = if i < at { i } else { i + 1 };
        let b = if j < at { j } else { j + 1 };
        assert(order::before(entries[a].0.rank(), entries[b].0.rank()));
    }
    assert forall|k: K| #![auto] map_of(after).contains_key(k) <==> map_of(entries).remove(
        key,
    ).contains_key(k) by {
        order::lemma_before_irreflexive(key.rank());
        if map_of(after).contains_key(k) {
            let i = choose|i: int| entry_at(after, k, i);
            assert(entry_at(after, k, i));
            if i < at {
                assert(entry_at(entries, k, i));
                assert(order::before(entries[i].0.rank(), entries[at].0.rank()));
            } else {
                assert(entry_at(entries, k, i + 1));
                assert(order::before(entries[at].0.rank(), entries[i + 1].0.rank()));
            }
        }
        if map_of(entries).remove(key).contains_key(k) {
            let i = choose|i: int| entry_at(entries, k, i);
            assert(entry_at(entries, k, i));
            if i < at {
                assert(entry_at(after, k, i));
            } else {
                assert(entry_at(after, k, i - 1));
            }
        }
    }
    assert forall|k: K| #![auto] map_of(after).contains_key(k) implies map_of(after)[k] == map_of(
        entries,
    ).remove(key)[k] by {
        let i = choose|i: int| entry_at(after, k, i);
        assert(entry_at(after, k, i));
        lemma_entry(after, i);
        if i < at {
            lemma_entry(entries, i);
        } else {
            lemma_entry(entries, i + 1);
        }
    }
    assert(map_of(after) =~= map_of(entries).remove(key));
}

} // verus!
