//! A map whose keys are kept in ascending order, so that walking it is deterministic.

use vstd::prelude::*;

use crate::addr::IpAddr;
use crate::order::{ascending, lemma_ascending_no_duplicates, Ranked};

verus! {

/// The keys of a list of pairs, in list order.
pub open spec fn keys_of<K, V>(entries: Seq<(K, V)>) -> Seq<K> {
    entries.map_values(|e: (K, V)| e.0)
}

/// The map that a duplicate-free list of pairs stands for.
pub open spec fn map_of<K, V>(entries: Seq<(K, V)>) -> Map<K, V> {
    Map::new(
        |k: K| keys_of(entries).contains(k),
        |k: K| entries[keys_of(entries).index_of(k)].1,
    )
}

/// Ordered map over a vector of pairs sorted by key.
pub struct OrdMap<K: Ranked, V> {
    entries: Vec<(K, V)>,
}

impl<K: Ranked, V> View for OrdMap<K, V> {
    type V = Map<K, V>;

    closed spec fn view(&self) -> Map<K, V> {
        map_of(self.entries@)
    }
}

/// What the list of pairs says about the map at one key.
proof fn lemma_map_of<K: Ranked, V>(entries: Seq<(K, V)>, i: int)
    requires
        ascending(keys_of(entries)),
        0 <= i < entries.len(),
    ensures
        map_of(entries).contains_key(entries[i].0),
        map_of(entries)[entries[i].0] == entries[i].1,
{
    let keys = keys_of(entries);
    assert(keys[i] == entries[i].0);
    assert(keys.contains(entries[i].0));
    let j = keys.index_of(entries[i].0);
    assert(keys[j] == keys[i]);
    if j < i {
        assert(keys[j].rank() < keys[i].rank());
    } else if i < j {
        assert(keys[i].rank() < keys[j].rank());
    }
}

/// The keys of a sorted list of pairs are those of its map, each once.
proof fn lemma_keys_of<K: Ranked, V>(entries: Seq<(K, V)>)
    requires
        ascending(keys_of(entries)),
    ensures
        keys_of(entries).no_duplicates(),
        keys_of(entries).to_set() == map_of(entries).dom(),
        forall|k: K| #[trigger] keys_of(entries).contains(k) == map_of(entries).contains_key(k),
{
    lemma_ascending_no_duplicates(keys_of(entries));
    assert(keys_of(entries).to_set() =~= map_of(entries).dom());
}

/// Two duplicate-free lists of pairs that hold the same pairs stand for the same map.
proof fn lemma_map_of_subset<K: Ranked, V>(a: Seq<(K, V)>, m: Map<K, V>)
    requires
        ascending(keys_of(a)),
        forall|k: K| m.contains_key(k) ==> exists|i: int| 0 <= i < a.len() && #[trigger] a[i].0 == k,
        forall|i: int| 0 <= i < a.len() ==> m.contains_key((#[trigger] a[i]).0) && m[a[i].0] == a[i].1,
    ensures
        map_of(a) == m,
{
    assert forall|k: K| #[trigger] map_of(a).contains_key(k) == m.contains_key(k) by {
        if map_of(a).contains_key(k) {
            let i = keys_of(a).index_of(k);
            assert(a[i].0 == k);
        }
        if m.contains_key(k) {
            let i = choose|i: int| 0 <= i < a.len() && #[trigger] a[i].0 == k;
            lemma_map_of(a, i);
        }
    }
    assert forall|k: K| #[trigger] map_of(a).contains_key(k) implies map_of(a)[k] == m[k] by {
        let i = keys_of(a).index_of(k);
        assert(a[i].0 == k);
        lemma_map_of(a, i);
    }
    assert(map_of(a) =~= m);
}

impl<K: Ranked, V> OrdMap<K, V> {
    #[verifier::type_invariant]
    spec fn sorted(self) -> bool {
        ascending(keys_of(self.entries@))
    }

    /// The keys in ascending order.
    pub closed spec fn order(self) -> Seq<K> {
        keys_of(self.entries@)
    }

    pub fn new() -> (m: Self)
        ensures
            m@ == Map::<K, V>::empty(),
    {
        let m: Self = OrdMap { entries: Vec::new() };
        assert(m@ =~= Map::<K, V>::empty());
        m
    }

    /// Position of `key`, or of the first greater key.
    fn search(&self, key: &K) -> (r: (usize, bool))
        ensures
            r.0 <= self.entries@.len(),
            forall|i: int| 0 <= i < r.0 ==> (#[trigger] self.entries@[i]).0.rank() < key.rank(),
            r.1 ==> r.0 < self.entries@.len() && self.entries@[r.0 as int].0 == *key,
            !r.1 ==> forall|i: int| r.0 <= i < self.entries@.len() ==> key.rank() < (#[trigger] self.entries@[i]).0.rank(),
            r.1 == self@.contains_key(*key),
            r.1 ==> self@[*key] == self.entries@[r.0 as int].1,
    {
        proof { use_type_invariant(self); }
        let mut i: usize = 0;
        while i < self.entries.len() && self.entries[i].0.before(key)
            invariant
                i <= self.entries@.len(),
                forall|j: int| 0 <= j < i ==> (#[trigger] self.entries@[j]).0.rank() < key.rank(),
            decreases self.entries@.len() - i,
        {
            i += 1;
        }
        let ghost keys = keys_of(self.entries@);
        if i < self.entries.len() && !key.before(&self.entries[i].0) {
            proof {
                K::rank_injective(self.entries@[i as int].0, *key);
                lemma_map_of(self.entries@, i as int);
            }
            (i, true)
        } else {
            proof {
                assert forall|j: int| i <= j < self.entries@.len() implies key.rank() < (#[trigger] self.entries@[j]).0.rank() by {
                    assert(keys[j] == self.entries@[j].0 && keys[i as int] == self.entries@[i as int].0);
                    if i < j {
                        assert(keys[i as int].rank() < keys[j].rank());
                    }
                }
                if self@.contains_key(*key) {
                    let j = keys.index_of(*key);
                    assert(self.entries@[j].0 == *key);
                }
            }
            (i, false)
        }
    }

    pub fn len(&self) -> (n: usize)
        ensures
            n == self.order().len(),
            n == self@.dom().len(),
            self@.dom().finite(),
            ascending(self.order()),
            forall|k: K| #[trigger] self.order().contains(k) == self@.contains_key(k),
    {
        proof {
            use_type_invariant(self);
            lemma_keys_of(self.entries@);
            self.order().unique_seq_to_set();
        }
        self.entries.len()
    }

    pub fn is_empty(&self) -> (b: bool)
        ensures
            b == (self@ == Map::<K, V>::empty()),
    {
        proof {
            use_type_invariant(self);
            if self.entries@.len() == 0 {
                assert(self@ =~= Map::<K, V>::empty());
            } else {
                lemma_map_of(self.entries@, 0);
            }
        }
        self.entries.len() == 0
    }

    pub fn contains_key(&self, key: &K) -> (b: bool)
        ensures
            b == self@.contains_key(*key),
    {
        self.search(key).1
    }

    pub fn get(&self, key: &K) -> (v: Option<&V>)
        ensures
            v == (if self@.contains_key(*key) { Some(&self@[*key]) } else { None }),
    {
        let (at, found) = self.search(key);
        if found {
            Some(&self.entries[at].1)
        } else {
            None
        }
    }

    /// The `i`-th entry in key order.
    pub fn entry(&self, i: usize) -> (e: (&K, &V))
        requires
            i < self.order().len(),
        ensures
            *e.0 == self.order()[i as int],
            self@.contains_key(*e.0),
            *e.1 == self@[*e.0],
    {
        proof {
            use_type_invariant(self);
            lemma_map_of(self.entries@, i as int);
        }
        let e = &self.entries[i];
        (&e.0, &e.1)
    }

    /// The same map again.
    pub fn copied(&self) -> (copy: Self)
        where
            V: Copy,
        ensures
            copy@ == self@,
    {
        proof { use_type_invariant(self); }
        let mut entries: Vec<(K, V)> = Vec::new();
        let mut i: usize = 0;
        while i < self.entries.len()
            invariant
                i <= self.entries@.len(),
                entries@ == self.entries@.take(i as int),
            decreases self.entries@.len() - i,
        {
            entries.push((self.entries[i].0, self.entries[i].1));
            i += 1;
            assert(entries@ =~= self.entries@.take(i as int));
        }
        assert(entries@ =~= self.entries@);
        OrdMap { entries }
    }

    /// The entry with the greatest key.
    pub fn last(&self) -> (e: Option<(&K, &V)>)
        ensures
            match e {
                Some((k, v)) => {
                    &&& self@.contains_key(*k)
                    &&& *v == self@[*k]
                    &&& forall|other: K| #[trigger] self@.contains_key(other) ==> other.rank() <= k.rank()
                },
                None => self@ == Map::<K, V>::empty(),
            },
    {
        proof { use_type_invariant(self); }
        let n: usize = self.entries.len();
        if n == 0 {
            proof { assert(self@ =~= Map::<K, V>::empty()); }
            return None;
        }
        let e = &self.entries[n - 1];
        proof {
            lemma_map_of(self.entries@, n - 1);
            let keys = self.order();
            assert forall|other: K| #[trigger] self@.contains_key(other) implies other.rank() <= e.0.rank() by {
                let i = keys.index_of(other);
                assert(keys[i] == other && keys[n - 1] == e.0);
                if i < n - 1 {
                    assert(keys[i].rank() < keys[n - 1].rank());
                }
            }
        }
        Some((&e.0, &e.1))
    }

    /// The entry with the least key.
    pub fn first(&self) -> (e: Option<(&K, &V)>)
        ensures
            match e {
                Some((k, v)) => {
                    &&& self@.contains_key(*k)
                    &&& *v == self@[*k]
                    &&& forall|other: K| #[trigger] self@.contains_key(other) ==> k.rank() <= other.rank()
                },
                None => self@ == Map::<K, V>::empty(),
            },
    {
        proof { use_type_invariant(self); }
        if self.entries.len() == 0 {
            proof { assert(self@ =~= Map::<K, V>::empty()); }
            return None;
        }
        let e = &self.entries[0];
        proof {
            lemma_map_of(self.entries@, 0);
            let keys = self.order();
            assert forall|other: K| #[trigger] self@.contains_key(other) implies e.0.rank() <= other.rank() by {
                let i = keys.index_of(other);
                assert(keys[i] == other && keys[0] == e.0);
                if 0 < i {
                    assert(keys[0].rank() < keys[i].rank());
                }
            }
        }
        Some((&e.0, &e.1))
    }

    /// All keys in ascending order.
    pub fn keys(&self) -> (keys: Vec<K>)
        ensures
            keys@ == self.order(),
            ascending(keys@),
            keys@.no_duplicates(),
            keys@.to_set() == self@.dom(),
            forall|k: K| #[trigger] keys@.contains(k) == self@.contains_key(k),
    {
        proof {
            use_type_invariant(self);
            lemma_keys_of(self.entries@);
        }
        let mut keys: Vec<K> = Vec::new();
        let mut i: usize = 0;
        while i < self.entries.len()
            invariant
                i <= self.entries@.len(),
                keys@ == self.order().take(i as int),
                self.order().len() == self.entries@.len(),
            decreases self.entries@.len() - i,
        {
            keys.push(self.entries[i].0);
            i += 1;
            proof { assert(keys@ =~= self.order().take(i as int)); }
        }
        proof { assert(keys@ =~= self.order()); }
        keys
    }

    pub fn insert(&mut self, key: K, value: V) -> (previous: Option<V>)
        ensures
            final(self)@ == old(self)@.insert(key, value),
            previous == (if old(self)@.contains_key(key) { Some(old(self)@[key]) } else { None }),
    {
        let (at, found) = self.search(&key);
        proof { use_type_invariant(&*self); }
        let ghost before = self.entries@;
        let mut entries: Vec<(K, V)> = Vec::new();
        std::mem::swap(&mut entries, &mut self.entries);
        let previous = if found {
            let previous = entries.remove(at);
            Some(previous.1)
        } else {
            None
        };
        entries.insert(at, (key, value));
        proof {
            let after = entries@;
            let keys = keys_of(after);
            assert forall|i: int, j: int| 0 <= i < j < keys.len() implies #[trigger] keys[i].rank() < #[trigger] keys[j].rank() by {
                let shift: int = if found { 0 } else { 1 };
                let oi = if i < at { i } else { i - shift };
                let oj = if j < at { j } else { j - shift };
                let old_keys = keys_of(before);
                if i != at && j != at {
                    assert(keys[i] == old_keys[oi] && keys[j] == old_keys[oj]);
                } else if i == at {
                    assert(keys[j] == old_keys[oj]);
                    assert(before[oj].0 == old_keys[oj]);
                    if found {
                        assert(old_keys[at as int].rank() < old_keys[oj].rank());
                    }
                } else {
                    assert(keys[i] == before[i].0);
                }
            }
            lemma_map_of_update(before, after, at as int, found, key, value);
        }
        self.entries = entries;
        previous
    }

    pub fn remove(&mut self, key: &K) -> (previous: Option<V>)
        ensures
            final(self)@ == old(self)@.remove(*key),
            previous == (if old(self)@.contains_key(*key) { Some(old(self)@[*key]) } else { None }),
    {
        let (at, found) = self.search(key);
        proof { use_type_invariant(&*self); }
        let ghost before = self.entries@;
        if !found {
            proof { assert(self@.remove(*key) =~= self@); }
            return None;
        }
        let mut entries: Vec<(K, V)> = Vec::new();
        std::mem::swap(&mut entries, &mut self.entries);
        let previous = entries.remove(at);
        proof {
            let after = entries@;
            let keys = keys_of(after);
            let old_keys = keys_of(before);
            assert forall|i: int, j: int| 0 <= i < j < keys.len() implies #[trigger] keys[i].rank() < #[trigger] keys[j].rank() by {
                let oi = if i < at { i } else { i + 1 };
                let oj = if j < at { j } else { j + 1 };
                assert(keys[i] == old_keys[oi] && keys[j] == old_keys[oj]);
            }
            let m = map_of(before).remove(*key);
            assert forall|k: K| m.contains_key(k) implies exists|i: int| 0 <= i < after.len() && #[trigger] after[i].0 == k by {
                let o = old_keys.index_of(k);
                assert(before[o].0 == k);
                let i = if o < at { o } else { o - 1 };
                assert(after[i].0 == k);
            }
            assert forall|i: int| 0 <= i < after.len() implies m.contains_key((#[trigger] after[i]).0) && m[after[i].0] == after[i].1 by {
                let o = if i < at { i } else { i + 1 };
                assert(after[i] == before[o]);
                lemma_map_of(before, o);
                assert(old_keys[o] == before[o].0 && old_keys[at as int] == before[at as int].0);
                if o < at {
                    assert(old_keys[o].rank() < old_keys[at as int].rank());
                } else {
                    assert(old_keys[at as int].rank() < old_keys[o].rank());
                }
            }
            lemma_map_of_subset(after, m);
        }
        self.entries = entries;
        Some(previous.1)
    }
}

/// Writing one pair at its place in the order is an insertion into the map.
proof fn lemma_map_of_update<K: Ranked, V>(before: Seq<(K, V)>, after: Seq<(K, V)>, at: int, found: bool, key: K, value: V)
    requires
        ascending(keys_of(before)),
        ascending(keys_of(after)),
        0 <= at <= before.len(),
        found ==> at < before.len() && before[at].0 == key,
        !found ==> !map_of(before).contains_key(key),
        after == (if found { before.remove(at) } else { before }).insert(at, (key, value)),
    ensures
        map_of(after) == map_of(before).insert(key, value),
{
    let m = map_of(before).insert(key, value);
    let shift: int = if found { 0 } else { 1 };
    let old_keys = keys_of(before);
    assert forall|k: K| m.contains_key(k) implies exists|i: int| 0 <= i < after.len() && #[trigger] after[i].0 == k by {
        if k == key {
            assert(after[at].0 == k);
        } else {
            let o = old_keys.index_of(k);
            assert(before[o].0 == k);
            let i = if o < at { o } else { o + shift };
            assert(after[i] == before[o]);
        }
    }
    assert forall|i: int| 0 <= i < after.len() implies m.contains_key((#[trigger] after[i]).0) && m[after[i].0] == after[i].1 by {
        if i != at {
            let o = if i < at { i } else { i - shift };
            assert(after[i] == before[o]);
            lemma_map_of(before, o);
            let keys = keys_of(after);
            assert(keys[i] == after[i].0 && keys[at] == key);
            if i < at {
                assert(keys[i].rank() < keys[at].rank());
            } else {
                assert(keys[at].rank() < keys[i].rank());
            }
        }
    }
    lemma_map_of_subset(after, m);
}

/// A set of addresses, walked in ascending order.
pub type AddrSet = OrdMap<IpAddr, ()>;

/// A map keyed by address, walked in ascending order.
pub type AddrMap<V> = OrdMap<IpAddr, V>;

} // verus!
