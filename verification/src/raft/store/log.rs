//! Log-storage half of the Raft store: the log, the vote and the committed frontier.
//!
//! The log is volatile. After a restart it is empty and the leader resends a committed suffix that
//! starts above what was once purged, so the purge boundary is derived from what arrives, never
//! from index zero.

use vstd::prelude::*;

use crate::order::{ascending, lemma_ascending_unique, Ranked};
use crate::ordmap::OrdMap;
use crate::raft::store::state::{KafStorageState, StorageView};
use crate::raft::store::state_machine::{drop_log_upto, log_above, raise_boundary, raised_boundary};
use crate::raft::types::{Entry, EntryView, LogId, Vote};

verus! {

/// One end of a range of log indices.
#[derive(Debug, Clone, Copy, PartialEq, Eq, Structural)]
pub enum IndexBound {
    Included(u64),
    Excluded(u64),
    Unbounded,
}

/// The index lies within the range. A range whose start is past its end holds nothing.
pub open spec fn in_range(start: IndexBound, end: IndexBound, index: u64) -> bool {
    &&& match start {
        IndexBound::Included(i) => i <= index,
        IndexBound::Excluded(i) => i < index,
        IndexBound::Unbounded => true,
    }
    &&& match end {
        IndexBound::Included(i) => index <= i,
        IndexBound::Excluded(i) => index < i,
        IndexBound::Unbounded => true,
    }
}

/// The indices of the log within the range, in ascending order.
pub open spec fn indices_in(log: Map<u64, EntryView>, start: IndexBound, end: IndexBound) -> Seq<u64> {
    choose|s: Seq<u64>| ascending(s) && #[trigger] s.to_set() == log.dom().filter(|i: u64| in_range(start, end, i))
}

/// The entries of the log within the range, in log order.
pub open spec fn entries_in(log: Map<u64, EntryView>, start: IndexBound, end: IndexBound) -> Seq<EntryView> {
    indices_in(log, start, end).map_values(|i: u64| log[i])
}

/// The entry with the greatest index.
pub open spec fn is_tail(log: Map<u64, EntryView>, index: u64) -> bool {
    log.contains_key(index) && forall|i: u64| #[trigger] log.contains_key(i) ==> i <= index
}

/// The entry with the least index.
pub open spec fn is_head(log: Map<u64, EntryView>, index: u64) -> bool {
    log.contains_key(index) && forall|i: u64| #[trigger] log.contains_key(i) ==> index <= i
}

/// The log id of the last entry, if there is one.
pub open spec fn tail_id(log: Map<u64, EntryView>) -> Option<LogId> {
    if log.dom() == Set::<u64>::empty() { None } else { Some(log[choose|i: u64| is_tail(log, i)].log_id) }
}

/// The first index, if there is one.
pub open spec fn head_index(log: Map<u64, EntryView>) -> Option<u64> {
    if log.dom() == Set::<u64>::empty() { None } else { Some(choose|i: u64| is_head(log, i)) }
}

/// The log id just below the given one, by the same leader.
pub open spec fn below(id: LogId) -> LogId {
    LogId { index: (id.index - 1) as u64, ..id }
}

/// `a`, or `b` if that stands at a higher index or `a` is missing.
pub open spec fn further(a: Option<LogId>, b: Option<LogId>) -> Option<LogId> {
    match (a, b) {
        (Some(x), Some(y)) => if x.index < y.index { b } else { a },
        (None, _) => b,
        (_, None) => a,
    }
}

/// The log holds an entry at or above the purge boundary.
pub open spec fn covers_boundary(s: StorageView) -> bool {
    s.last_purged is Some && tail_id(s.log) is Some && tail_id(s.log)->0.index >= s.last_purged->0.index
}

/// Where commitment stands when the consensus layer starts: at the further of what was saved and
/// what was applied, and at the purge boundary if that is further still and the log reaches it.
pub open spec fn commit_frontier(s: StorageView) -> Option<LogId> {
    let reached = further(s.committed, s.replicated.last_applied);
    if covers_boundary(s) { further(reached, s.last_purged) } else { reached }
}

/// What the consensus layer is told of the log: the purge boundary and the last entry.
#[derive(Debug, Clone, Copy, PartialEq, Eq, Structural)]
pub struct LogState {
    pub last_purged_log_id: Option<LogId>,
    pub last_log_id: Option<LogId>,
}

/// The purge boundary, or the one that a log starting above index one implies.
pub open spec fn implied_boundary(s: StorageView) -> Option<LogId> {
    match (s.last_purged, head_index(s.log)) {
        (Some(b), _) => Some(b),
        (None, Some(head)) => if head > 1 {
            Some(LogId { index: (head - 1) as u64, ..s.log[head].log_id })
        } else {
            None
        },
        (None, None) => None,
    }
}

/// The storage with one more entry. Entries at or below `floor` are dropped. The first entry of an
/// empty log without a boundary sets one just below itself, unless it is a log's very first.
pub open spec fn appended_one(s: StorageView, floor: Option<LogId>, e: EntryView) -> StorageView {
    if floor is Some && e.log_id.index <= floor->0.index {
        s
    } else {
        StorageView {
            last_purged: if s.last_purged is None && s.log.dom() == Set::<u64>::empty() && e.log_id.index > 1 {
                Some(below(e.log_id))
            } else {
                s.last_purged
            },
            log: s.log.insert(e.log_id.index, e),
            ..s
        }
    }
}

/// The storage with more entries; the floor is the boundary before the first of them.
pub open spec fn appended(s: StorageView, entries: Seq<EntryView>) -> StorageView
    decreases entries.len(),
{
    if entries.len() == 0 {
        s
    } else {
        appended_one(appended(s, entries.drop_last()), s.last_purged, entries.last())
    }
}

/// The storage without the entries after `last`, or without any. A boundary above what is kept
/// comes down to it, so that entries sent again from there are not dropped.
pub open spec fn truncated(s: StorageView, last: Option<LogId>) -> StorageView {
    StorageView {
        log: match last {
            Some(l) => s.log.restrict(Set::new(|i: u64| i <= l.index)),
            None => Map::empty(),
        },
        last_purged: match (s.last_purged, last) {
            (Some(b), Some(l)) => if b.index > l.index { last } else { s.last_purged },
            (Some(_), None) => None,
            (None, _) => None,
        },
        ..s
    }
}

/// The storage without the entries up to `id`.
pub open spec fn purged(s: StorageView, id: LogId) -> StorageView {
    StorageView {
        log: log_above(s.log, id.index),
        last_purged: raised_boundary(s.last_purged, id),
        ..s
    }
}

/// The log store's operations on the shared state.
pub struct KafLogStore;

impl KafLogStore {
    fn holds(start: IndexBound, end: IndexBound, index: u64) -> (b: bool)
        ensures
            b == in_range(start, end, index),
    {
        let after_start = match start {
            IndexBound::Included(i) => i <= index,
            IndexBound::Excluded(i) => i < index,
            IndexBound::Unbounded => true,
        };
        let before_end = match end {
            IndexBound::Included(i) => index <= i,
            IndexBound::Excluded(i) => index < i,
            IndexBound::Unbounded => true,
        };
        after_start && before_end
    }

    /// The entries with indices within the range. An empty or inverted range yields none.
    pub fn try_get_log_entries(state: &KafStorageState, start: IndexBound, end: IndexBound) -> (entries: Vec<Entry>)
        ensures
            entries@.map_values(|e: Entry| e@) == entries_in(state@.log, start, end),
    {
        let ghost log = state@.log;
        let indices = state.log.keys();
        let mut entries: Vec<Entry> = Vec::new();
        let ghost mut found: Seq<u64> = Seq::empty();
        let mut k: usize = 0;
        while k < indices.len()
            invariant
                k <= indices@.len(),
                log == state@.log,
                ascending(indices@),
                forall|i: u64| #[trigger] indices@.contains(i) == state.log@.contains_key(i),
                ascending(found),
                forall|j: int| 0 <= j < found.len() ==> indices@.take(k as int).contains(#[trigger] found[j]),
                forall|i: u64| #[trigger] found.contains(i) == (indices@.take(k as int).contains(i) && in_range(start, end, i)),
                entries@.len() == found.len(),
                forall|j: int| 0 <= j < found.len() ==> (#[trigger] entries@[j])@ == log[found[j]],
            decreases indices@.len() - k,
        {
            let index: u64 = indices[k];
            proof {
                let (front, all) = (indices@.take(k as int), indices@.take(k + 1));
                assert forall|i: u64| all.contains(i) == (front.contains(i) || i == index) by {
                    if front.contains(i) {
                        assert(all[front.index_of(i)] == i);
                    }
                    assert(all[k as int] == index);
                    if all.contains(i) && i != index {
                        assert(front[all.index_of(i)] == i);
                    }
                }
                assert(indices@.contains(index));
            }
            if Self::holds(start, end, index) {
                if let Some(entry) = state.log.get(&index) {
                    entries.push(entry.clone());
                    proof {
                        let more = found.push(index);
                        assert forall|a: int, b: int| 0 <= a < b < more.len() implies #[trigger] more[a].rank() < #[trigger] more[b].rank() by {
                            if b == found.len() {
                                let front = indices@.take(k as int);
                                assert(front.contains(found[a]));
                                let x = front.index_of(found[a]);
                                assert(indices@[x].rank() < indices@[k as int].rank());
                            }
                        }
                        assert forall|i: u64| more.contains(i) == (found.contains(i) || i == index) by {
                            if found.contains(i) {
                                assert(more[found.index_of(i)] == i);
                            }
                            assert(more[found.len() as int] == index);
                        }
                        found = more;
                    }
                }
            }
            k += 1;
        }
        proof {
            assert(indices@.take(k as int) =~= indices@);
            let wanted = log.dom().filter(|i: u64| in_range(start, end, i));
            assert(found.to_set() =~= wanted);
            lemma_ascending_unique(found, indices_in(log, start, end));
            assert(entries@.map_values(|e: Entry| e@) =~= entries_in(log, start, end));
        }
        entries
    }

    pub fn read_vote(state: &KafStorageState) -> (vote: Option<Vote>)
        ensures
            vote == state@.vote,
    {
        state.vote
    }

    pub fn save_vote(state: &mut KafStorageState, vote: Vote)
        ensures
            final(state)@ == (StorageView { vote: Some(vote), ..old(state)@ }),
            final(state).vip_list == old(state).vip_list,
    {
        state.vote = Some(vote);
    }

    pub fn save_committed(state: &mut KafStorageState, committed: Option<LogId>)
        ensures
            final(state)@ == (StorageView { committed, ..old(state)@ }),
            final(state).vip_list == old(state).vip_list,
    {
        state.committed = committed;
    }

    /// Log id of the last entry.
    fn log_tail(state: &KafStorageState) -> (tail: Option<LogId>)
        ensures
            tail == tail_id(state@.log),
    {
        let ghost log = state@.log;
        match state.log.last() {
            Some((index, entry)) => {
                proof {
                    assert(state.log@.contains_key(*index));
                    assert(log.contains_key(*index));
                    assert forall|i: u64| #[trigger] log.contains_key(i) implies i <= *index by {
                        assert(state.log@.contains_key(i));
                        assert(i.rank() <= index.rank());
                    }
                    assert(is_tail(log, *index));
                    let other = choose|i: u64| is_tail(log, i);
                    assert(is_tail(log, other));
                    assert(log.contains_key(other));
                    assert(log.dom().contains(other));
                }
                Some(entry.log_id)
            },
            None => {
                assert(log.dom() =~= Set::empty());
                None
            },
        }
    }

    /// The commit frontier to resume from on startup.
    ///
    /// The purge boundary is only a marker, not an entry: it counts only when the log actually
    /// holds entries at or above it.
    pub fn read_committed(state: &KafStorageState) -> (frontier: Option<LogId>)
        ensures
            frontier == commit_frontier(state@),
    {
        let mut best = state.committed;
        if let Some(applied) = state.last_applied_log {
            let behind = match best {
                Some(b) => b.index < applied.index,
                None => true,
            };
            if behind {
                best = Some(applied);
            }
        }
        if let Some(boundary) = state.last_purged_log_id {
            let covered = match Self::log_tail(state) {
                Some(tail) => tail.index >= boundary.index,
                None => false,
            };
            let behind = match best {
                Some(b) => b.index < boundary.index,
                None => true,
            };
            if covered && behind {
                best = Some(boundary);
            }
        }
        best
    }

    /// The purge boundary and the last log id.
    ///
    /// Without a boundary, a log that starts above index one implies one just below its start.
    pub fn get_log_state(state: &KafStorageState) -> (log_state: LogState)
        ensures
            log_state.last_purged_log_id == implied_boundary(state@),
            log_state.last_log_id == tail_id(state@.log),
    {
        let ghost log = state@.log;
        let last_log_id = Self::log_tail(state);
        let last_purged_log_id = match state.last_purged_log_id {
            Some(boundary) => Some(boundary),
            None => match state.log.first() {
                Some((index, entry)) => {
                    proof {
                        assert(state.log@.contains_key(*index));
                        assert(log.contains_key(*index));
                        assert forall|i: u64| #[trigger] log.contains_key(i) implies *index <= i by {
                            assert(state.log@.contains_key(i));
                            assert(index.rank() <= i.rank());
                        }
                        assert(is_head(log, *index));
                        let other = choose|i: u64| is_head(log, i);
                        assert(is_head(log, other));
                        assert(log.contains_key(other));
                        assert(log.dom().contains(other));
                    }
                    if *index > 1 {
                        Some(LogId { term: entry.log_id.term, node_id: entry.log_id.node_id, index: *index - 1 })
                    } else {
                        None
                    }
                },
                None => {
                    assert(log.dom() =~= Set::empty());
                    None
                },
            },
        };
        LogState { last_purged_log_id, last_log_id }
    }

    /// Append entries.
    ///
    /// An entry at or below the purge boundary would open a hole below it and is dropped.
    pub fn append(state: &mut KafStorageState, entries: Vec<Entry>)
        ensures
            final(state)@ == appended(old(state)@, entries@.map_values(|e: Entry| e@)),
            final(state).vip_list == old(state).vip_list,
    {
        let ghost before = state@;
        let ghost all = entries@.map_values(|e: Entry| e@);
        let floor = state.last_purged_log_id;
        for entry in it: entries
            invariant
                floor == before.last_purged,
                all == it.seq().map_values(|e: Entry| e@),
                state@ == appended(before, all.take(it.index())),
                state.vip_list == old(state).vip_list,
                it.index() == it.seq().len() ==> state@ == appended(before, all),
        {
            let ghost step = state@;
            let ghost e = entry@;
            proof {
                assert(all.take(it.index() + 1).drop_last() =~= all.take(it.index()));
                assert(all.take(it.index() + 1).last() == e);
                assert(all.take(all.len() as int) =~= all);
            }
            let dropped = match floor {
                Some(f) => entry.log_id.index <= f.index,
                None => false,
            };
            if !dropped {
                proof {
                    assert(state.log@ == Map::<u64, Entry>::empty() <==> step.log.dom() == Set::<u64>::empty()) by {
                        assert(state.log@.dom() =~= step.log.dom());
                        if step.log.dom() == Set::<u64>::empty() {
                            assert(state.log@ =~= Map::<u64, Entry>::empty());
                        }
                    }
                }
                if state.last_purged_log_id.is_none() && state.log.is_empty() && entry.log_id.index > 1 {
                    state.last_purged_log_id = Some(LogId {
                        term: entry.log_id.term,
                        node_id: entry.log_id.node_id,
                        index: entry.log_id.index - 1,
                    });
                }
                state.log.insert(entry.log_id.index, entry);
                assert(state@.log =~= step.log.insert(e.log_id.index, e));
            }
            assert(state@ =~= appended_one(step, floor, e));
        }
    }

    /// Remove every entry strictly after `last_log_id`, or the whole log.
    pub fn truncate_after(state: &mut KafStorageState, last_log_id: Option<LogId>)
        ensures
            final(state)@ == truncated(old(state)@, last_log_id),
            final(state).vip_list == old(state).vip_list,
    {
        let ghost before = state@;
        match last_log_id {
            Some(last) => keep_log_upto(&mut state.log, last.index),
            None => {
                state.log = OrdMap::new();
            },
        }
        let lower = match (state.last_purged_log_id, last_log_id) {
            (Some(boundary), Some(last)) => boundary.index > last.index,
            (Some(_), None) => true,
            (None, _) => false,
        };
        if lower {
            state.last_purged_log_id = last_log_id;
        }
        assert(state@.log =~= truncated(before, last_log_id).log);
    }

    /// Remove every entry up to and with `log_id`; the purge boundary never moves back.
    pub fn purge(state: &mut KafStorageState, log_id: LogId)
        ensures
            final(state)@ == purged(old(state)@, log_id),
            final(state).vip_list == old(state).vip_list,
    {
        drop_log_upto(&mut state.log, log_id.index);
        raise_boundary(&mut state.last_purged_log_id, log_id);
    }
}

/// Remove the log entries after `index`.
fn keep_log_upto(log: &mut OrdMap<u64, Entry>, index: u64)
    ensures
        final(log)@ == old(log)@.restrict(Set::new(|i: u64| i <= index)),
{
    let ghost before = log@;
    let indices = log.keys();
    let mut k: usize = indices.len();
    while k > 0 && indices[k - 1] > index
        invariant
            k <= indices@.len(),
            log@ == before.remove_keys(indices@.skip(k as int).to_set()),
            forall|j: int| k <= j < indices@.len() ==> #[trigger] indices@[j] > index,
        decreases k,
    {
        k -= 1;
        log.remove(&indices[k]);
        proof {
            let (rest, all) = (indices@.skip(k + 1), indices@.skip(k as int));
            assert forall|i: u64| all.contains(i) == (rest.contains(i) || i == indices@[k as int]) by {
                if rest.contains(i) {
                    assert(all[rest.index_of(i) + 1] == i);
                }
                assert(all[0] == indices@[k as int]);
                if all.contains(i) && i != indices@[k as int] {
                    assert(rest[all.index_of(i) - 1] == i);
                }
            }
            assert(log@ =~= before.remove_keys(all.to_set()));
        }
    }
    proof {
        let gone = indices@.skip(k as int);
        assert forall|i: u64| #[trigger] before.contains_key(i) implies gone.contains(i) == (i > index) by {
            assert(indices@.contains(i));
            let x = indices@.index_of(i);
            if x >= k {
                assert(gone[x - k] == i);
            } else {
                assert(indices@[x].rank() <= indices@[k - 1].rank());
                if gone.contains(i) {
                    assert(indices@[gone.index_of(i) + k] > index);
                }
            }
        }
        assert(log@ =~= before.restrict(Set::new(|i: u64| i <= index)));
    }
}

} // verus!
