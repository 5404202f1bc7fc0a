//! What each operation on the storage leaves behind, in terms of the storage before and after it.

use vstd::prelude::*;

use crate::addr::IpAddr;
use crate::config::VipAddr;
use crate::raft::store::assignment_laws::{
    law_a_health_report_is_recorded_for_its_node_alone, law_other_entries_leave_the_nodes_alone,
};
use crate::raft::store::log::KafLogStore;
use crate::raft::store::log_laws::{
    law_appending_touches_only_its_indices, law_installing_takes_over_the_snapshot_and_keeps_what_lies_beyond,
    law_purging_removes_exactly_the_prefix, law_truncating_removes_exactly_the_suffix,
};
use crate::raft::store::state::{KafSnapshot, KafStorageState, SnapshotMeta};
use crate::raft::store::state_machine::{applied_all, KafStateMachine, SnapshotError};
use crate::raft::store::store_laws::{consistent, law_appended_entries_are_read_back};
use crate::raft::types::{
    Entry, EntryPayload, EntryView, KafRequest, KafResponse, LogId, StoredMembership, Vote,
};

verus! {

/// A vote that was saved is the vote that is read, and saving it changes nothing else.
pub proof fn law_a_saved_vote_is_read_back(vote: Vote)
    ensures
        forall|state: &mut KafStorageState, read: Option<Vote>|
            #[trigger] call_ensures(KafLogStore::save_vote, (state, vote), ()) && #[trigger] call_ensures(
                KafLogStore::read_vote,
                (&*final(state),),
                read,
            ) ==> {
                let (before, after) = ((*state)@, (*final(state))@);
                &&& read == Some(vote)
                &&& after.committed == before.committed && after.log == before.log && after.last_purged == before.last_purged
                &&& after.replicated == before.replicated && after.settings == before.settings
                &&& after.current_snapshot == before.current_snapshot
            },
{
}

/// What was saved as committed is where commitment resumes, as long as nothing further was applied or
/// purged, and saving it changes nothing else.
pub proof fn law_a_saved_commit_is_resumed_from(id: LogId)
    ensures
        forall|state: &mut KafStorageState, read: Option<LogId>|
            #[trigger] call_ensures(KafLogStore::save_committed, (state, Some(id)), ()) && #[trigger] call_ensures(
                KafLogStore::read_committed,
                (&*final(state),),
                read,
            ) ==> {
                let (before, after) = ((*state)@, (*final(state))@);
                &&& read is Some && read->0.index >= id.index
                &&& (before.replicated.last_applied is None || before.replicated.last_applied->0.index <= id.index) && (before.last_purged is None
                    || before.last_purged->0.index <= id.index) ==> read == Some(id)
                &&& after.vote == before.vote && after.log == before.log && after.last_purged == before.last_purged
                &&& after.replicated == before.replicated && after.settings == before.settings
                &&& after.current_snapshot == before.current_snapshot
            },
{
}

/// Purging removes the entries up to an index and no other.
pub proof fn law_purged_entries_are_gone_and_the_others_stay(id: LogId, i: u64)
    ensures
        forall|state: &mut KafStorageState| #[trigger] call_ensures(KafLogStore::purge, (state, id), ()) ==> {
            let (before, after) = ((*state)@, (*final(state))@);
            &&& after.log.contains_key(i) <==> before.log.contains_key(i) && i > id.index
            &&& after.log.contains_key(i) ==> after.log[i] == before.log[i]
            &&& after.last_purged is Some && after.last_purged->0.index >= id.index
            &&& after.replicated == before.replicated && after.vote == before.vote && after.committed == before.committed
        },
{
    assert forall|state: &mut KafStorageState| #[trigger] call_ensures(KafLogStore::purge, (state, id), ()) implies ({
        let (before, after) = ((*state)@, (*final(state))@);
        &&& after.log.contains_key(i) <==> before.log.contains_key(i) && i > id.index
        &&& after.log.contains_key(i) ==> after.log[i] == before.log[i]
        &&& after.last_purged is Some && after.last_purged->0.index >= id.index
        &&& after.replicated == before.replicated && after.vote == before.vote && after.committed == before.committed
    }) by {
        law_purging_removes_exactly_the_prefix((*state)@, id, i);
    }
}

/// Truncating removes the entries after a log id, or all of them, and no other.
pub proof fn law_truncated_entries_are_gone_and_the_others_stay(last: Option<LogId>, i: u64)
    ensures
        forall|state: &mut KafStorageState| #[trigger] call_ensures(KafLogStore::truncate_after, (state, last), ()) ==> {
            let (before, after) = ((*state)@, (*final(state))@);
            &&& after.log.contains_key(i) <==> before.log.contains_key(i) && last is Some && i <= last->0.index
            &&& after.log.contains_key(i) ==> after.log[i] == before.log[i]
            &&& after.last_purged is Some ==> last is Some && after.last_purged->0.index <= last->0.index
            &&& after.replicated == before.replicated && after.vote == before.vote && after.committed == before.committed
        },
{
    assert forall|state: &mut KafStorageState| #[trigger] call_ensures(KafLogStore::truncate_after, (state, last), ()) implies ({
        let (before, after) = ((*state)@, (*final(state))@);
        &&& after.log.contains_key(i) <==> before.log.contains_key(i) && last is Some && i <= last->0.index
        &&& after.log.contains_key(i) ==> after.log[i] == before.log[i]
        &&& after.last_purged is Some ==> last is Some && after.last_purged->0.index <= last->0.index
        &&& after.replicated == before.replicated && after.vote == before.vote && after.committed == before.committed
    }) by {
        law_truncating_removes_exactly_the_suffix((*state)@, last, i);
    }
}

/// An append in log order puts every entry above the boundary at its index, and leaves all other indices
/// and everything but the log alone.
pub proof fn law_an_append_stores_its_entries_and_nothing_else(entries: Vec<Entry>, k: int, i: u64)
    requires
        0 <= k < entries@.len(),
        forall|a: int, b: int|
            0 <= a < b < entries@.len() ==> (#[trigger] entries@[a]).log_id.index < (#[trigger] entries@[b]).log_id.index,
        forall|a: int| 0 <= a < entries@.len() ==> (#[trigger] entries@[a]).log_id.index != i,
    ensures
        forall|state: &mut KafStorageState| #[trigger] call_ensures(KafLogStore::append, (state, entries), ()) ==> {
            let (before, after) = ((*state)@, (*final(state))@);
            let at = entries@[k].log_id.index;
            &&& before.last_purged is None || before.last_purged->0.index < at ==> after.log.contains_key(at) && after.log[at] == entries@[k]@
            &&& after.log.contains_key(i) == before.log.contains_key(i)
            &&& before.log.contains_key(i) ==> after.log[i] == before.log[i]
            &&& after.replicated == before.replicated && after.vote == before.vote && after.committed == before.committed
        },
{
    let seen = entries@.map_values(|e: Entry| e@);
    assert forall|a: int, b: int| 0 <= a < b < seen.len() implies (#[trigger] seen[a]).log_id.index < (#[trigger] seen[b]).log_id.index by {
        assert(entries@[a].log_id.index < entries@[b].log_id.index);
    }
    assert forall|a: int| 0 <= a < seen.len() implies (#[trigger] seen[a]).log_id.index != i by {
        assert(entries@[a].log_id.index != i);
    }
    assert forall|state: &mut KafStorageState| #[trigger] call_ensures(KafLogStore::append, (state, entries), ()) implies ({
        let (before, after) = ((*state)@, (*final(state))@);
        let at = entries@[k].log_id.index;
        &&& before.last_purged is None || before.last_purged->0.index < at ==> after.log.contains_key(at) && after.log[at] == entries@[k]@
        &&& after.log.contains_key(i) == before.log.contains_key(i)
        &&& before.log.contains_key(i) ==> after.log[i] == before.log[i]
        &&& after.replicated == before.replicated && after.vote == before.vote && after.committed == before.committed
    }) by {
        law_appending_touches_only_its_indices((*state)@, seen, i);
        if (*state)@.last_purged is None || (*state)@.last_purged->0.index < entries@[k].log_id.index {
            law_appended_entries_are_read_back((*state)@, seen, k);
        }
    }
}

/// Applying an entry moves the position in the log to it, is answered, and leaves the log, the vote, what
/// was saved as committed and the last snapshot alone. A health report is recorded for its node, at the
/// frontier; a membership change is taken as it was committed.
pub proof fn law_an_applied_entry_takes_effect(entry: &Entry, response: KafResponse)
    ensures
        forall|state: &mut KafStorageState| #[trigger] call_ensures(KafStateMachine::apply_one, (state, entry), response) ==> {
            let (before, after) = ((*state)@, (*final(state))@);
            let (r, n) = (before.replicated, after.replicated);
            &&& after.log == before.log && after.last_purged == before.last_purged && after.vote == before.vote
            &&& after.committed == before.committed && after.settings == before.settings && after.current_snapshot == before.current_snapshot
            &&& n.last_applied == Some(entry.log_id)
            &&& entry.payload is Blank ==> n.vip_assignments == r.vip_assignments && n.node_health == r.node_health
            &&& entry.payload matches EntryPayload::Membership(m) ==> n.last_membership.membership == m@ && n.last_membership.log_id == Some(
                entry.log_id,
            ) && n.node_health == r.node_health
            &&& entry.payload matches EntryPayload::Normal(KafRequest::ClusterFormed { cluster_id }) ==> n.cluster_epoch == (
            if r.cluster_epoch is Some { r.cluster_epoch } else { Some(cluster_id) })
            &&& entry.payload matches EntryPayload::Normal(KafRequest::HealthUpdate { node_id, healthy }) ==> n.node_health == r.node_health.insert(
                node_id,
                healthy,
            ) && n.node_probe_ticks == r.node_probe_ticks.insert(node_id, n.latest_probe_tick)
        },
{
    assert forall|state: &mut KafStorageState| #[trigger] call_ensures(KafStateMachine::apply_one, (state, entry), response) implies ({
        let (before, after) = ((*state)@, (*final(state))@);
        let (r, n) = (before.replicated, after.replicated);
        &&& after.log == before.log && after.last_purged == before.last_purged && after.vote == before.vote
        &&& after.committed == before.committed && after.settings == before.settings && after.current_snapshot == before.current_snapshot
        &&& n.last_applied == Some(entry.log_id)
        &&& entry.payload is Blank ==> n.vip_assignments == r.vip_assignments && n.node_health == r.node_health
        &&& entry.payload matches EntryPayload::Membership(m) ==> n.last_membership.membership == m@ && n.last_membership.log_id == Some(
            entry.log_id,
        ) && n.node_health == r.node_health
        &&& entry.payload matches EntryPayload::Normal(KafRequest::ClusterFormed { cluster_id }) ==> n.cluster_epoch == (
        if r.cluster_epoch is Some { r.cluster_epoch } else { Some(cluster_id) })
        &&& entry.payload matches EntryPayload::Normal(KafRequest::HealthUpdate { node_id, healthy }) ==> n.node_health == r.node_health.insert(
            node_id,
            healthy,
        ) && n.node_probe_ticks == r.node_probe_ticks.insert(node_id, n.latest_probe_tick)
    }) by {
        let (c, r) = ((*state)@.settings, (*state)@.replicated);
        if let EntryPayload::Normal(KafRequest::HealthUpdate { node_id, healthy }) = entry.payload {
            law_a_health_report_is_recorded_for_its_node_alone(c, r, entry.log_id, node_id, healthy);
        } else {
            law_other_entries_leave_the_nodes_alone(c, r, entry@);
        }
    }
}

/// Applying a list of entries is applying them one after the other.
pub proof fn law_a_list_is_applied_entry_by_entry(a: &[Entry], b: &[Entry], last: &Entry, ra: Vec<KafResponse>, rb: Vec<KafResponse>, rl: KafResponse)
    requires
        b@ == a@.push(*last),
    ensures
        forall|x: &mut KafStorageState, y: &mut KafStorageState, z: &mut KafStorageState|
            ({
                &&& #[trigger] call_ensures(KafStateMachine::apply_entries, (x, a), ra)
                &&& #[trigger] call_ensures(KafStateMachine::apply_one, (y, last), rl)
                &&& #[trigger] call_ensures(KafStateMachine::apply_entries, (z, b), rb)
                &&& (*y)@ == (*final(x))@
                &&& (*z)@ == (*x)@
            }) ==> (*final(z))@ == (*final(y))@ && rb@.len() == b@.len(),
{
    let all = b@.map_values(|e: Entry| e@);
    assert(all.drop_last() =~= a@.map_values(|e: Entry| e@));
    assert(all.last() == last@);
}

/// Applying nothing changes nothing.
pub proof fn law_an_empty_list_changes_nothing(none: &[Entry], responses: Vec<KafResponse>)
    requires
        none@.len() == 0,
    ensures
        forall|state: &mut KafStorageState| #[trigger] call_ensures(KafStateMachine::apply_entries, (state, none), responses) ==> (*final(state))@
            == (*state)@,
{
    assert(none@.map_values(|e: Entry| e@) =~= Seq::<EntryView>::empty());
    assert forall|state: &mut KafStorageState| #[trigger] call_ensures(KafStateMachine::apply_entries, (state, none), responses) implies
        (*final(state))@ == (*state)@ by {
        let s = (*state)@;
        assert(applied_all(s.settings, s.replicated, Seq::<EntryView>::empty()) == s.replicated);
    }
}

/// A snapshot is built exactly if something was applied; it holds the whole replicated state, and says
/// where it ends and under which membership. What is current is the same.
pub proof fn law_a_snapshot_holds_all_that_was_applied(
    state: &KafStorageState,
    built: Result<(KafSnapshot, SnapshotMeta), SnapshotError>,
    current: Option<(KafSnapshot, SnapshotMeta)>,
)
    requires
        call_ensures(KafStateMachine::build_snapshot, (state,), built),
        call_ensures(KafStateMachine::get_current_snapshot, (state,), current),
    ensures
        built is Ok <==> state.last_applied_log is Some,
        current is Some <==> built is Ok,
        built matches Ok((snapshot, meta)) ==> {
            &&& snapshot@ == state@.replicated
            &&& meta.last_log_id == state.last_applied_log
            &&& meta.last_membership@ == state.last_membership@
        },
        current matches Some((snapshot, meta)) ==> {
            &&& snapshot@ == state@.replicated
            &&& meta.last_log_id == state.last_applied_log
            &&& meta.last_membership@ == state.last_membership@
        },
{
}

/// A snapshot that was built on one member and is installed on another with the same settings brings
/// that member to the same state, and drops the entries that it covers.
pub proof fn law_an_installed_snapshot_brings_over_the_state(
    from: &KafStorageState,
    snapshot: KafSnapshot,
    meta: SnapshotMeta,
    i: u64,
)
    requires
        call_ensures(KafStateMachine::build_snapshot, (from,), Ok((snapshot, meta))),
        consistent(from@.settings, from@.replicated),
    ensures
        forall|state: &mut KafStorageState| #[trigger] call_ensures(KafStateMachine::install_snapshot, (state, snapshot), ()) ==> {
            let (before, after) = ((*state)@, (*final(state))@);
            &&& before.settings == from@.settings ==> after.replicated == from@.replicated
            &&& after.log.contains_key(i) <==> before.log.contains_key(i) && i > from.last_applied_log->0.index
            &&& after.vote == before.vote && after.committed == before.committed && after.settings == before.settings
        },
{
    assert forall|state: &mut KafStorageState| #[trigger] call_ensures(KafStateMachine::install_snapshot, (state, snapshot), ()) implies ({
        let (before, after) = ((*state)@, (*final(state))@);
        &&& before.settings == from@.settings ==> after.replicated == from@.replicated
        &&& after.log.contains_key(i) <==> before.log.contains_key(i) && i > from.last_applied_log->0.index
        &&& after.vote == before.vote && after.committed == before.committed && after.settings == before.settings
    }) by {
        law_installing_takes_over_the_snapshot_and_keeps_what_lies_beyond((*state)@, snapshot@, i);
        if (*state)@.settings == from@.settings {
            crate::raft::store::store_laws::law_snapshot_restores_the_state((*state)@, snapshot@);
        }
    }
}

/// A fresh storage holds nothing but its settings, and tells so.
pub proof fn law_a_fresh_storage_holds_nothing(
    vips: Vec<(VipAddr, String)>,
    stale: u64,
    failback: bool,
    delay: u64,
    state: KafStorageState,
    at: (Option<LogId>, StoredMembership),
)
    requires
        call_ensures(KafStorageState::new, (vips, stale, failback, delay), state),
        call_ensures(KafStateMachine::applied_state, (&state,), at),
    ensures
        state.vip_list == vips && state.stale_missed_probes == stale && state.failback == failback && state.failback_delay_ticks == delay,
        state@.log.dom() == Set::<u64>::empty() && state@.last_purged is None && state@.vote is None && state@.committed is None,
        state@.current_snapshot is None,
        state@.replicated.last_applied is None && state@.replicated.latest_probe_tick == 0 && state@.replicated.cluster_epoch is None,
        state@.replicated.node_health.dom() == Set::<u64>::empty() && state@.replicated.node_probe_ticks.dom() == Set::<u64>::empty(),
        state@.replicated.vip_assignments.dom() == Set::<IpAddr>::empty() && state@.replicated.vip_generation.dom() == Set::<IpAddr>::empty(),
        state@.replicated.node_recovery_tick.dom() == Set::<u64>::empty() && state@.replicated.node_failback_blocked == Set::<u64>::empty(),
        at.0 is None && at.1@.log_id is None && at.1@.membership.configs.len() == 0,
{
}

/// What was applied last, and under which membership, is what the state holds.
pub proof fn law_the_applied_state_is_told_as_it_is(state: &KafStorageState, at: (Option<LogId>, StoredMembership))
    requires
        call_ensures(KafStateMachine::applied_state, (state,), at),
    ensures
        at.0 == state.last_applied_log,
        at.1@ == state.last_membership@,
{
}

} // verus!
