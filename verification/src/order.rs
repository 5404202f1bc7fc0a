//! Keys with a total order, and sorting by it.

use vstd::prelude::*;
use vstd::relations::total_ordering;

verus! {

/// Keys with a total order, given by an injection into the integers.
pub trait Ranked: Copy {
    spec fn rank(self) -> int;

    proof fn rank_injective(a: Self, b: Self)
        requires
            a.rank() == b.rank(),
        ensures
            a == b,
    ;

    fn before(&self, other: &Self) -> (b: bool)
        ensures
            b == (self.rank() < other.rank()),
    ;
}

impl Ranked for u64 {
    open spec fn rank(self) -> int {
        self as int
    }

    proof fn rank_injective(a: Self, b: Self) {
    }

    fn before(&self, other: &Self) -> (b: bool) {
        *self < *other
    }
}

/// Strictly ascending, hence free of duplicates.
pub open spec fn ascending<K: Ranked>(keys: Seq<K>) -> bool {
    forall|i: int, j: int| 0 <= i < j < keys.len() ==> #[trigger] keys[i].rank() < #[trigger] keys[j].rank()
}

pub proof fn lemma_ascending_no_duplicates<K: Ranked>(keys: Seq<K>)
    requires
        ascending(keys),
    ensures
        keys.no_duplicates(),
{
    assert forall|i: int, j: int| 0 <= i < keys.len() && 0 <= j < keys.len() && i != j implies keys[i] != keys[j] by {
        if i < j {
            assert(keys[i].rank() < keys[j].rank());
        } else {
            assert(keys[j].rank() < keys[i].rank());
        }
    }
}

/// `a` stands no later than `b`.
pub open spec fn at_most<K: Ranked>() -> spec_fn(K, K) -> bool {
    |a: K, b: K| a.rank() <= b.rank()
}

/// The same keys in ascending order, repetitions kept.
pub open spec fn sorted<K: Ranked>(keys: Seq<K>) -> Seq<K> {
    keys.sort_by(at_most::<K>())
}

/// The same keys in ascending order, each once.
pub open spec fn sorted_distinct<K: Ranked>(keys: Seq<K>) -> Seq<K> {
    choose|s: Seq<K>| ascending(s) && #[trigger] s.to_set() == keys.to_set()
}

pub proof fn lemma_at_most<K: Ranked>()
    ensures
        total_ordering(at_most::<K>()),
{
    let leq = at_most::<K>();
    assert forall|x: K, y: K| #[trigger] leq(x, y) && #[trigger] leq(y, x) implies x == y by {
        K::rank_injective(x, y);
    }
}

/// `sorted` is the one ascending arrangement of the keys.
pub proof fn lemma_sorted<K: Ranked>(keys: Seq<K>, s: Seq<K>)
    requires
        s.to_multiset() == keys.to_multiset(),
        forall|i: int, j: int| 0 <= i < j < s.len() ==> #[trigger] s[i].rank() <= #[trigger] s[j].rank(),
    ensures
        s == sorted(keys),
{
    lemma_at_most::<K>();
    keys.lemma_sort_by_ensures(at_most::<K>());
    vstd::seq_lib::lemma_sorted_unique(s, sorted(keys), at_most::<K>());
}

/// What `sorted` keeps: every key as often as it occurred, in ascending order.
pub proof fn lemma_sorted_keeps<K: Ranked>(keys: Seq<K>)
    ensures
        sorted(keys).to_multiset() == keys.to_multiset(),
        sorted(keys).len() == keys.len(),
        sorted(keys).to_set() == keys.to_set(),
        forall|k: K| #[trigger] sorted(keys).contains(k) == keys.contains(k),
        forall|i: int, j: int| 0 <= i < j < keys.len() ==> #[trigger] sorted(keys)[i].rank() <= #[trigger] sorted(keys)[j].rank(),
        keys.no_duplicates() ==> ascending(sorted(keys)) && sorted(keys).no_duplicates(),
{
    broadcast use vstd::seq_lib::group_to_multiset_ensures;
    lemma_at_most::<K>();
    keys.lemma_sort_by_ensures(at_most::<K>());
    let s = sorted(keys);
    assert(s.to_multiset().len() == keys.to_multiset().len());
    assert forall|k: K| #[trigger] s.contains(k) == keys.contains(k) by {
        assert(s.to_multiset().count(k) == keys.to_multiset().count(k));
    }
    assert(s.to_set() =~= keys.to_set());
    let leq = at_most::<K>();
    assert forall|i: int, j: int| 0 <= i < j < keys.len() implies #[trigger] s[i].rank() <= #[trigger] s[j].rank() by {
        assert(leq(s[i], s[j]));
    }
    if keys.no_duplicates() {
        keys.lemma_multiset_has_no_duplicates();
        s.lemma_multiset_has_no_duplicates_conv();
        assert forall|i: int, j: int| 0 <= i < j < s.len() implies #[trigger] s[i].rank() < #[trigger] s[j].rank() by {
            if s[i].rank() == s[j].rank() {
                K::rank_injective(s[i], s[j]);
            }
        }
    }
}

/// Two ascending lists of the same keys are the same list.
pub proof fn lemma_ascending_unique<K: Ranked>(a: Seq<K>, b: Seq<K>)
    requires
        ascending(a),
        ascending(b),
        a.to_set() == b.to_set(),
    ensures
        a == b,
{
    lemma_ascending_no_duplicates(a);
    lemma_ascending_no_duplicates(b);
    assert forall|k: K| a.contains(k) == b.contains(k) by {
        assert(a.to_set().contains(k) == a.contains(k));
        assert(b.to_set().contains(k) == b.contains(k));
    }
    a.lemma_multiset_has_no_duplicates();
    b.lemma_multiset_has_no_duplicates();
    assert(a.to_multiset() =~= b.to_multiset()) by {
        broadcast use vstd::seq_lib::group_to_multiset_ensures;
        assert forall|k: K| #[trigger] a.to_multiset().count(k) == b.to_multiset().count(k) by {
            assert(a.contains(k) == b.contains(k));
            assert(a.to_multiset().contains(k) == (a.to_multiset().count(k) > 0));
            assert(b.to_multiset().contains(k) == (b.to_multiset().count(k) > 0));
        }
    }
    lemma_at_most::<K>();
    vstd::seq_lib::lemma_sorted_unique(a, b, at_most::<K>());
}

/// Every list of keys has such an arrangement.
pub proof fn lemma_sorted_distinct_exists<K: Ranked>(keys: Seq<K>)
    ensures
        ascending(sorted_distinct(keys)),
        sorted_distinct(keys).no_duplicates(),
        sorted_distinct(keys).to_set() == keys.to_set(),
        forall|k: K| #[trigger] sorted_distinct(keys).contains(k) == keys.contains(k),
        sorted_distinct(keys).len() == 0 <==> keys.len() == 0,
    decreases keys.len(),
{
    let d = sorted_distinct(keys);
    if keys.len() == 0 {
        assert(Seq::<K>::empty().to_set() =~= keys.to_set());
        assert(ascending(Seq::<K>::empty()));
    } else {
        let front = keys.drop_last();
        let last = keys.last();
        lemma_sorted_distinct_exists(front);
        let s = sorted_distinct(front);
        assert forall|k: K| #[trigger] keys.contains(k) == (front.contains(k) || k == last) by {
            if keys.contains(k) && k != last {
                assert(front[keys.index_of(k)] == k);
            }
            if front.contains(k) {
                assert(keys[front.index_of(k)] == k);
            }
            assert(keys[keys.len() - 1] == last);
        }
        if front.contains(last) {
            assert(s.to_set() =~= keys.to_set());
        } else {
            lemma_insert_ascending(s, last);
            let t = choose|t: Seq<K>| ascending(t) && #[trigger] t.to_set() == s.to_set().insert(last);
            assert(t.to_set() =~= keys.to_set());
        }
    }
    assert(ascending(d) && d.to_set() == keys.to_set());
    lemma_ascending_no_duplicates(d);
    assert forall|k: K| #[trigger] d.contains(k) == keys.contains(k) by {
        assert(d.to_set().contains(k) == keys.to_set().contains(k));
    }
    if keys.len() > 0 {
        assert(keys.contains(keys[0]));
        assert(d.contains(keys[0]));
    }
    if d.len() > 0 {
        assert(d.contains(d[0]));
    }
}

/// A new key has a place in an ascending list.
proof fn lemma_insert_ascending<K: Ranked>(s: Seq<K>, k: K)
    requires
        ascending(s),
        !s.contains(k),
    ensures
        exists|t: Seq<K>| ascending(t) && #[trigger] t.to_set() == s.to_set().insert(k),
    decreases s.len(),
{
    if s.len() == 0 || s.last().rank() < k.rank() {
        let t = s.push(k);
        assert forall|i: int, j: int| 0 <= i < j < t.len() implies #[trigger] t[i].rank() < #[trigger] t[j].rank() by {
            if j == s.len() && i < s.len() - 1 {
                assert(s[i].rank() < s[s.len() - 1].rank());
            }
        }
        assert(t.to_set() =~= s.to_set().insert(k)) by {
            assert forall|x: K| t.contains(x) == (s.contains(x) || x == k) by {
                if s.contains(x) {
                    assert(t[s.index_of(x)] == x);
                }
                assert(t[s.len() as int] == k);
            }
        }
    } else {
        let front = s.drop_last();
        let last = s.last();
        assert(s[s.len() - 1] == last);
        if last.rank() == k.rank() {
            K::rank_injective(last, k);
        }
        assert(ascending(front));
        assert(!front.contains(k)) by {
            if front.contains(k) {
                assert(s[front.index_of(k)] == k);
            }
        }
        lemma_insert_ascending(front, k);
        let u = choose|t: Seq<K>| ascending(t) && #[trigger] t.to_set() == front.to_set().insert(k);
        let t = u.push(last);
        assert forall|i: int, j: int| 0 <= i < j < t.len() implies #[trigger] t[i].rank() < #[trigger] t[j].rank() by {
            if j == u.len() {
                assert(u.contains(u[i]));
                assert(u.to_set().contains(u[i]));
                if u[i] != k {
                    assert(front.contains(u[i]));
                    let x = front.index_of(u[i]);
                    assert(s[x].rank() < s[s.len() - 1].rank());
                }
            }
        }
        assert(t.to_set() =~= s.to_set().insert(k)) by {
            assert forall|x: K| t.contains(x) == (s.contains(x) || x == k) by {
                assert(u.contains(x) == u.to_set().contains(x));
                if u.contains(x) {
                    assert(t[u.index_of(x)] == x);
                    if front.contains(x) {
                        assert(s[front.index_of(x)] == x);
                    }
                }
                if s.contains(x) && x != last {
                    assert(front[s.index_of(x)] == x);
                }
                assert(t[u.len() as int] == last);
                if t.contains(x) && x != last {
                    assert(u[t.index_of(x)] == x);
                }
            }
        }
    }
}

/// `sorted_distinct` is the one ascending list of exactly these keys.
pub proof fn lemma_sorted_distinct<K: Ranked>(keys: Seq<K>, s: Seq<K>)
    requires
        ascending(s),
        s.to_set() == keys.to_set(),
    ensures
        s == sorted_distinct(keys),
{
    lemma_ascending_unique(s, sorted_distinct(keys));
}

/// Sort by insertion.
pub fn sort<K: Ranked>(keys: &[K]) -> (s: Vec<K>)
    ensures
        s@ == sorted(keys@),
{
    let mut s: Vec<K> = Vec::new();
    let mut i: usize = 0;
    assert(s@ =~= keys@.take(0));
    while i < keys.len()
        invariant
            i <= keys@.len(),
            s@.to_multiset() == keys@.take(i as int).to_multiset(),
            forall|a: int, b: int| 0 <= a < b < s@.len() ==> #[trigger] s@[a].rank() <= #[trigger] s@[b].rank(),
        decreases keys@.len() - i,
    {
        let key = keys[i];
        let mut at: usize = s.len();
        while at > 0 && key.before(&s[at - 1])
            invariant
                at <= s@.len(),
                forall|b: int| at <= b < s@.len() ==> key.rank() <= #[trigger] s@[b].rank(),
            decreases at,
        {
            at -= 1;
        }
        proof {
            broadcast use vstd::seq_lib::group_to_multiset_ensures;
            assert(keys@.take(i + 1) =~= keys@.take(i as int).push(key));
            vstd::seq_lib::to_multiset_insert(s@, at as int, key);
        }
        s.insert(at, key);
        i += 1;
    }
    proof {
        assert(keys@.take(i as int) =~= keys@);
        lemma_sorted(keys@, s@);
    }
    s
}

} // verus!
