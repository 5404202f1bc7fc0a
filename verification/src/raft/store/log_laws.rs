//! What the log holds after each operation on it, entry by entry, and what is told of it.

use vstd::prelude::*;

use crate::order::ascending;
use crate::raft::store::log::{
    appended, indices_in, is_head, is_tail, purged, truncated, IndexBound, KafLogStore, LogState,
};
use crate::raft::store::state::{KafStorageState, Replicated, StorageView};
use crate::raft::store::state_machine::installed;
use crate::raft::store::store_laws::{law_range_lists_every_entry_once, well_formed};
use crate::raft::types::{Entry, EntryView, LogId};

verus! {

/// Everything but the log and its boundary is as it was.
pub open spec fn only_the_log_differs(a: StorageView, b: StorageView) -> bool {
    &&& a.vote == b.vote
    &&& a.committed == b.committed
    &&& a.replicated == b.replicated
    &&& a.settings == b.settings
    &&& a.current_snapshot == b.current_snapshot
}

/// Purging up to a log id removes the entries up to its index and no other, and puts the boundary
/// there unless it was further already.
pub proof fn law_purging_removes_exactly_the_prefix(s: StorageView, id: LogId, i: u64)
    ensures
        ({
            let after = purged(s, id);
            &&& after.log.contains_key(i) <==> s.log.contains_key(i) && i > id.index
            &&& after.log.contains_key(i) ==> after.log[i] == s.log[i]
            &&& s.last_purged is None || s.last_purged->0.index < id.index ==> after.last_purged == Some(id)
            &&& s.last_purged is Some && s.last_purged->0.index >= id.index ==> after.last_purged == s.last_purged
            &&& only_the_log_differs(after, s)
        }),
{
}

/// Truncating after a log id removes the entries above its index and no other; without one the whole
/// log goes. A boundary that would stand above what is left comes down to it.
pub proof fn law_truncating_removes_exactly_the_suffix(s: StorageView, last: Option<LogId>, i: u64)
    ensures
        ({
            let after = truncated(s, last);
            &&& after.log.contains_key(i) <==> s.log.contains_key(i) && last is Some && i <= last->0.index
            &&& after.log.contains_key(i) ==> after.log[i] == s.log[i]
            &&& s.last_purged is None ==> after.last_purged is None
            &&& s.last_purged is Some && last is Some && s.last_purged->0.index <= last->0.index ==> after.last_purged == s.last_purged
            &&& s.last_purged is Some && last is Some && s.last_purged->0.index > last->0.index ==> after.last_purged == last
            &&& last is None ==> after.last_purged is None
            &&& only_the_log_differs(after, s)
        }),
{
}

/// Installing a snapshot takes over everything that it holds, but for the blocked nodes where failback
/// is on; entries above its end stay, and so do the vote, what was saved as committed and the settings.
pub proof fn law_installing_takes_over_the_snapshot_and_keeps_what_lies_beyond(s: StorageView, snapshot: Replicated, i: u64)
    ensures
        ({
            let after = installed(s, snapshot);
            &&& after.vote == s.vote && after.committed == s.committed && after.settings == s.settings
            &&& after.current_snapshot == Some(snapshot)
            &&& after.replicated.last_applied == snapshot.last_applied
            &&& after.replicated.last_membership == snapshot.last_membership
            &&& after.replicated.node_health == snapshot.node_health
            &&& after.replicated.node_probe_ticks == snapshot.node_probe_ticks
            &&& after.replicated.latest_probe_tick == snapshot.latest_probe_tick
            &&& after.replicated.vip_assignments == snapshot.vip_assignments
            &&& after.replicated.vip_generation == snapshot.vip_generation
            &&& after.replicated.cluster_epoch == snapshot.cluster_epoch
            &&& after.replicated.node_recovery_tick == snapshot.node_recovery_tick
            &&& s.settings.failback ==> after.replicated.node_failback_blocked == Set::<u64>::empty()
            &&& !s.settings.failback ==> after.replicated.node_failback_blocked == snapshot.node_failback_blocked
            &&& after.log.contains_key(i) <==> s.log.contains_key(i) && (snapshot.last_applied is None || i > snapshot.last_applied->0.index)
            &&& after.log.contains_key(i) ==> after.log[i] == s.log[i]
            &&& snapshot.last_applied is None ==> after.last_purged == s.last_purged
            &&& snapshot.last_applied matches Some(l) ==> after.last_purged == if s.last_purged is None || s.last_purged->0.index < l.index {
                Some(l)
            } else {
                s.last_purged
            }
        }),
{
}

/// An append changes nothing at indices that none of its entries has, and nothing but the log.
pub proof fn law_appending_touches_only_its_indices(s: StorageView, entries: Seq<EntryView>, i: u64)
    ensures
        ({
            let after = appended(s, entries);
            &&& only_the_log_differs(after, s)
            &&& (forall|k: int| 0 <= k < entries.len() ==> (#[trigger] entries[k]).log_id.index != i) ==> {
                &&& after.log.contains_key(i) == s.log.contains_key(i)
                &&& s.log.contains_key(i) ==> after.log[i] == s.log[i]
            }
        }),
    decreases entries.len(),
{
    if entries.len() > 0 {
        let front = entries.drop_last();
        law_appending_touches_only_its_indices(s, front, i);
        if forall|k: int| 0 <= k < entries.len() ==> (#[trigger] entries[k]).log_id.index != i {
            assert forall|k: int| 0 <= k < front.len() implies (#[trigger] front[k]).log_id.index != i by {
                assert(entries[k].log_id.index != i);
            }
            assert(entries[entries.len() - 1].log_id.index != i);
        }
    }
}

/// Entries at or below the boundary are dropped.
pub proof fn law_nothing_comes_back_below_the_boundary(s: StorageView, entries: Seq<EntryView>, i: u64)
    requires
        s.last_purged is Some,
        i <= s.last_purged->0.index,
    ensures
        appended(s, entries).log.contains_key(i) == s.log.contains_key(i),
        s.log.contains_key(i) ==> appended(s, entries).log[i] == s.log[i],
    decreases entries.len(),
{
    if entries.len() > 0 {
        law_nothing_comes_back_below_the_boundary(s, entries.drop_last(), i);
    }
}

/// A boundary that is set is left alone by an append. An empty log without one gets it just below the
/// first entry, by the same leader, unless that is the very first of a log; a log that has entries gets
/// none.
pub proof fn law_an_append_derives_the_boundary_of_an_empty_log(s: StorageView, entries: Seq<EntryView>)
    requires
        entries.len() > 0,
    ensures
        ({
            let (after, first) = (appended(s, entries), entries[0].log_id);
            &&& s.last_purged is Some ==> after.last_purged == s.last_purged
            &&& s.last_purged is None && s.log.dom() != Set::<u64>::empty() ==> after.last_purged is None
            &&& s.last_purged is None && s.log.dom() == Set::<u64>::empty() ==> if first.index > 1 {
                &&& after.last_purged is Some
                &&& after.last_purged->0.index + 1 == first.index
                &&& after.last_purged->0.term == first.term
                &&& after.last_purged->0.node_id == first.node_id
            } else {
                after.last_purged is None
            }
            &&& s.last_purged is None ==> after.log.contains_key(first.index)
        }),
    decreases entries.len(),
{
    let front = entries.drop_last();
    if front.len() > 0 {
        law_an_append_derives_the_boundary_of_an_empty_log(s, front);
        assert(front[0] == entries[0]);
        let mid = appended(s, front);
        if s.last_purged is None {
            assert(mid.log.dom().contains(entries[0].log_id.index));
        }
    } else {
        assert(appended(s, front) == s);
    }
}

/// A finite log that is not empty has a last and a first entry.
proof fn lemma_ends_exist(log: Map<u64, EntryView>)
    requires
        log.dom().finite(),
        log.dom() != Set::<u64>::empty(),
    ensures
        exists|i: u64| is_tail(log, i),
        exists|i: u64| is_head(log, i),
    decreases log.dom().len(),
{
    let x = log.dom().choose();
    assert(log.dom().contains(x)) by {
        if forall|i: u64| !log.dom().contains(i) {
            assert(log.dom() =~= Set::empty());
        }
    }
    let rest = log.remove(x);
    assert(rest.dom() =~= log.dom().remove(x));
    if rest.dom() == Set::<u64>::empty() {
        assert forall|i: u64| #[trigger] log.contains_key(i) implies i == x by {
            assert(rest.dom().contains(i) == (i != x));
        }
        assert(is_tail(log, x));
        assert(is_head(log, x));
    } else {
        lemma_ends_exist(rest);
        let t = choose|i: u64| is_tail(rest, i);
        let h = choose|i: u64| is_head(rest, i);
        assert(rest.contains_key(t) && rest.contains_key(h));
        let last = if x > t { x } else { t };
        let first = if x < h { x } else { h };
        assert forall|i: u64| #[trigger] log.contains_key(i) implies first <= i <= last by {
            if i != x {
                assert(rest.contains_key(i));
            }
        }
        assert(is_tail(log, last));
        assert(is_head(log, first));
    }
}

/// What is told of the log: the log id of the entry that no other stands above, none for an empty log,
/// and the boundary. Without a boundary one is implied just below the first entry, unless that stands
/// at index zero or one.
pub proof fn law_the_log_is_told_of_by_its_ends(state: &KafStorageState, told: LogState)
    requires
        state@.log.dom().finite(),
        call_ensures(KafLogStore::get_log_state, (state,), told),
    ensures
        ({
            let log = state@.log;
            &&& log.dom() == Set::<u64>::empty() ==> told.last_log_id is None && told.last_purged_log_id == state@.last_purged
            &&& log.dom() != Set::<u64>::empty() ==> exists|i: u64| #[trigger] log.contains_key(i) && told.last_log_id == Some(log[i].log_id)
                && forall|j: u64| #[trigger] log.contains_key(j) ==> j <= i
            &&& state@.last_purged is Some ==> told.last_purged_log_id == state@.last_purged
            &&& state@.last_purged is None && log.dom() != Set::<u64>::empty() ==> exists|i: u64| {
                &&& #[trigger] log.contains_key(i)
                &&& forall|j: u64| #[trigger] log.contains_key(j) ==> i <= j
                &&& i <= 1 ==> told.last_purged_log_id is None
                &&& i > 1 ==> told.last_purged_log_id is Some && told.last_purged_log_id->0.index + 1 == i
                    && told.last_purged_log_id->0.term == log[i].log_id.term && told.last_purged_log_id->0.node_id == log[i].log_id.node_id
            }
        }),
{
    let log = state@.log;
    if log.dom() != Set::<u64>::empty() {
        lemma_ends_exist(log);
        let t = choose|i: u64| is_tail(log, i);
        let h = choose|i: u64| is_head(log, i);
        assert(log.contains_key(t) && log.contains_key(h));
    }
}

/// Where commitment resumes: nowhere behind what was saved or applied, nor behind the boundary if the
/// log holds an entry at or above it. It is one of the three, and the boundary only in that case.
pub proof fn law_commitment_resumes_at_the_furthest_point_that_can_be_served(state: &KafStorageState, frontier: Option<LogId>)
    requires
        well_formed(state@),
        call_ensures(KafLogStore::read_committed, (state,), frontier),
    ensures
        ({
            let s = state@;
            let (saved, done, boundary) = (s.committed, s.replicated.last_applied, s.last_purged);
            let reached = boundary is Some && exists|i: u64| #[trigger] s.log.contains_key(i) && i >= boundary->0.index;
            &&& frontier is None <==> saved is None && done is None && !reached
            &&& saved is Some ==> frontier->0.index >= saved->0.index
            &&& done is Some ==> frontier->0.index >= done->0.index
            &&& reached ==> frontier->0.index >= boundary->0.index
            &&& frontier is Some ==> frontier == saved || frontier == done || (frontier == boundary && reached)
            &&& saved is Some && frontier->0.index == saved->0.index ==> frontier == saved
        }),
{
    let s = state@;
    if s.log.dom() != Set::<u64>::empty() {
        lemma_ends_exist(s.log);
        let t = choose|i: u64| is_tail(s.log, i);
        assert(s.log.contains_key(t));
        assert(s.log[t].log_id.index == t);
    } else {
        assert forall|i: u64| !(#[trigger] s.log.contains_key(i)) by {
            assert(!s.log.dom().contains(i));
        }
    }
}

/// A range of the log yields exactly the entries whose indices lie within it, in ascending order.
pub proof fn law_a_range_yields_exactly_what_lies_within_it(
    state: &KafStorageState,
    start: IndexBound,
    end: IndexBound,
    entries: Vec<Entry>,
)
    requires
        well_formed(state@),
        call_ensures(KafLogStore::try_get_log_entries, (state, start, end), entries),
    ensures
        forall|a: int, b: int|
            0 <= a < b < entries@.len() ==> (#[trigger] entries@[a]).log_id.index < (#[trigger] entries@[b]).log_id.index,
        forall|a: int| 0 <= a < entries@.len() ==> {
            let i = (#[trigger] entries@[a]).log_id.index;
            state@.log.contains_key(i) && state@.log[i] == entries@[a]@
        },
        forall|i: u64| #[trigger] state@.log.contains_key(i) ==> {
            let within = (match start {
                IndexBound::Included(x) => i >= x,
                IndexBound::Excluded(x) => i > x,
                IndexBound::Unbounded => true,
            }) && (match end {
                IndexBound::Included(x) => i <= x,
                IndexBound::Excluded(x) => i < x,
                IndexBound::Unbounded => true,
            });
            within <==> exists|a: int| 0 <= a < entries@.len() && (#[trigger] entries@[a]).log_id.index == i
        },
{
    let log = state@.log;
    let list = indices_in(log, start, end);
    let seen = entries@.map_values(|e: Entry| e@);
    assert(seen.len() == list.len());
    assert forall|a: int| 0 <= a < entries@.len() implies {
        let i = (#[trigger] entries@[a]).log_id.index;
        &&& i == list[a]
        &&& log.contains_key(i)
        &&& log[i] == entries@[a]@
    } by {
        law_range_lists_every_entry_once(log, start, end, list[a]);
        assert(list.contains(list[a]));
        assert(seen[a] == entries@[a]@);
        assert(seen[a] == log[list[a]]);
        assert(log[list[a]].log_id.index == list[a]);
    }
    law_range_lists_every_entry_once(log, start, end, 0);
    assert(ascending(list));
    assert forall|a: int, b: int| 0 <= a < b < entries@.len() implies (#[trigger] entries@[a]).log_id.index < (#[trigger] entries@[b]).log_id.index by {
        assert(crate::order::Ranked::rank(list[a]) < crate::order::Ranked::rank(list[b]));
    }
    assert forall|i: u64| #[trigger] log.contains_key(i) implies ({
        let within = (match start {
            IndexBound::Included(x) => i >= x,
            IndexBound::Excluded(x) => i > x,
            IndexBound::Unbounded => true,
        }) && (match end {
            IndexBound::Included(x) => i <= x,
            IndexBound::Excluded(x) => i < x,
            IndexBound::Unbounded => true,
        });
        within <==> exists|a: int| 0 <= a < entries@.len() && (#[trigger] entries@[a]).log_id.index == i
    }) by {
        law_range_lists_every_entry_once(log, start, end, i);
        if list.contains(i) {
            let a = list.index_of(i);
            assert(entries@[a].log_id.index == i);
        }
        if exists|a: int| 0 <= a < entries@.len() && (#[trigger] entries@[a]).log_id.index == i {
            let a = choose|a: int| 0 <= a < entries@.len() && (#[trigger] entries@[a]).log_id.index == i;
            assert(list[a] == i);
        }
    }
}

/// Of several entries with the same index, in whatever order they come, the last one above the boundary is
/// the one that is stored.
pub proof fn law_the_last_entry_of_an_index_is_stored(s: StorageView, entries: Seq<EntryView>, k: int)
    requires
        0 <= k < entries.len(),
        forall|j: int| k < j < entries.len() ==> (#[trigger] entries[j]).log_id.index != entries[k].log_id.index,
        s.last_purged is Some ==> entries[k].log_id.index > s.last_purged->0.index,
    ensures
        appended(s, entries).log.contains_key(entries[k].log_id.index),
        appended(s, entries).log[entries[k].log_id.index] == entries[k],
    decreases entries.len(),
{
    let front = entries.drop_last();
    if k < front.len() {
        assert forall|j: int| k < j < front.len() implies (#[trigger] front[j]).log_id.index != front[k].log_id.index by {
            assert(entries[j].log_id.index != entries[k].log_id.index);
        }
        law_the_last_entry_of_an_index_is_stored(s, front, k);
        assert(entries[entries.len() - 1].log_id.index != entries[k].log_id.index);
    }
}

} // verus!
