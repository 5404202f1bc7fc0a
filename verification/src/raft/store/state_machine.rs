//! State-machine half of the Raft store.
//!
//! Applies committed entries to the replicated VIP-ownership state and builds and installs
//! snapshots.

use vstd::prelude::*;

use crate::addr::IpAddr;
use crate::order::Ranked;
use crate::ordmap::{AddrMap, OrdMap};
use crate::raft::store::placement::minimal_movement;
use crate::raft::store::state::{
    snapshot_id_at, KafSnapshot, KafStorageState, Replicated, Settings, SnapshotMeta, StorageView,
    VipAssignment,
};
use crate::raft::store::vip_logic::{
    addresses, eligible_voters, handover, next_probe_tick, next_tick, recompute_vip_holder,
    reconcile_vip_assignments,
};
use crate::raft::types::{
    Entry, EntryPayload, EntryView, KafRequest, KafResponse, LogId, PayloadView, StoredMembership,
    StoredMembershipView,
};

verus! {

/// The holder of every assigned VIP.
pub open spec fn holders(assignments: Map<IpAddr, VipAssignment>) -> Map<IpAddr, u64> {
    assignments.map_values(|a: VipAssignment| a.holder)
}

/// The voters that may hold a VIP in this state.
pub open spec fn eligible_in(c: Settings, r: Replicated) -> Seq<u64> {
    eligible_voters(
        r.last_membership.membership,
        r.node_health,
        r.node_probe_ticks,
        r.latest_probe_tick,
        c.stale_missed_probes,
        c.failback_delay_ticks,
        r.node_recovery_tick,
        r.node_failback_blocked,
    )
}

/// VIP ownership brought up to date with the rest of the state.
pub open spec fn reassigned(c: Settings, r: Replicated) -> Replicated {
    let new_holders = minimal_movement(eligible_in(c, r), c.vips, holders(r.vip_assignments));
    let h = handover(c.vips, new_holders, r.latest_probe_tick, r.vip_assignments, r.vip_generation);
    Replicated { vip_assignments: h.decided, vip_generation: h.generations, ..r }
}

/// The last probe round of a node, if it has reported.
pub open spec fn last_tick(r: Replicated, node_id: u64) -> Option<u64> {
    if r.node_probe_ticks.contains_key(node_id) { Some(r.node_probe_ticks[node_id]) } else { None }
}

/// A node reports its health: its probe round advances, and with it the frontier; recovery starts
/// the failback timer, failure stops it and, without failback, blocks the node.
pub open spec fn health_reported(c: Settings, r: Replicated, node_id: u64, healthy: bool) -> Replicated {
    let tick = next_tick(last_tick(r, node_id), r.latest_probe_tick);
    let was_unhealthy = r.node_health.contains_key(node_id) && !r.node_health[node_id];
    Replicated {
        node_health: r.node_health.insert(node_id, healthy),
        node_probe_ticks: r.node_probe_ticks.insert(node_id, tick),
        latest_probe_tick: tick,
        node_recovery_tick: if !healthy {
            r.node_recovery_tick.remove(node_id)
        } else if was_unhealthy {
            r.node_recovery_tick.insert(node_id, tick)
        } else {
            r.node_recovery_tick
        },
        node_failback_blocked: if !healthy && !c.failback {
            r.node_failback_blocked.insert(node_id)
        } else {
            r.node_failback_blocked
        },
        ..r
    }
}

/// A release ack counts only for the current generation and from the node that has to release.
pub open spec fn ack_counts(r: Replicated, node_id: u64, vip: IpAddr, generation: u64) -> bool {
    &&& r.vip_assignments.contains_key(vip)
    &&& r.vip_assignments[vip].generation == generation
    &&& r.vip_assignments[vip].previous_holder == Some(node_id)
}

pub open spec fn vip_released(r: Replicated, node_id: u64, vip: IpAddr, generation: u64) -> Replicated {
    if ack_counts(r, node_id, vip, generation) {
        let acked = VipAssignment { previous_holder_released: true, ..r.vip_assignments[vip] };
        Replicated { vip_assignments: r.vip_assignments.insert(vip, acked), ..r }
    } else {
        r
    }
}

/// The replicated state after one more entry.
pub open spec fn applied(c: Settings, r: Replicated, e: EntryView) -> Replicated {
    let r = Replicated { last_applied: Some(e.log_id), ..r };
    match e.payload {
        PayloadView::Blank => r,
        PayloadView::Normal(KafRequest::HealthUpdate { node_id, healthy }) => reassigned(
            c,
            health_reported(c, r, node_id, healthy),
        ),
        PayloadView::Normal(KafRequest::VipReleased { node_id, vip, generation }) => vip_released(
            r,
            node_id,
            vip,
            generation,
        ),
        PayloadView::Normal(KafRequest::ClusterFormed { cluster_id }) => Replicated {
            cluster_epoch: if r.cluster_epoch is Some { r.cluster_epoch } else { Some(cluster_id) },
            ..r
        },
        PayloadView::Membership(membership) => reassigned(
            c,
            Replicated {
                last_membership: StoredMembershipView { log_id: Some(e.log_id), membership },
                ..r
            },
        ),
    }
}

/// The replicated state after a list of entries.
pub open spec fn applied_all(c: Settings, r: Replicated, entries: Seq<EntryView>) -> Replicated
    decreases entries.len(),
{
    if entries.len() == 0 {
        r
    } else {
        applied(c, applied_all(c, r, entries.drop_last()), entries.last())
    }
}

/// The replicated state adopted from a snapshot: all of it, but a node that allows failback never
/// takes over blocked nodes.
pub open spec fn adopted(c: Settings, snapshot: Replicated) -> Replicated {
    Replicated {
        node_failback_blocked: if c.failback { Set::empty() } else { snapshot.node_failback_blocked },
        ..snapshot
    }
}

/// The log without the entries up to an index.
pub open spec fn log_above(log: Map<u64, EntryView>, index: u64) -> Map<u64, EntryView> {
    log.restrict(Set::new(|i: u64| i > index))
}

/// The purge boundary moved up to `id`; it never moves back.
pub open spec fn raised_boundary(boundary: Option<LogId>, id: LogId) -> Option<LogId> {
    match boundary {
        Some(b) => if b.index < id.index { Some(id) } else { Some(b) },
        None => Some(id),
    }
}

/// The storage after a snapshot was installed: the snapshot's state, and a log that starts above
/// it.
pub open spec fn installed(s: StorageView, snapshot: Replicated) -> StorageView {
    StorageView {
        replicated: adopted(s.settings, snapshot),
        current_snapshot: Some(snapshot),
        log: match snapshot.last_applied {
            Some(last) => log_above(s.log, last.index),
            None => s.log,
        },
        last_purged: match snapshot.last_applied {
            Some(last) => raised_boundary(s.last_purged, last),
            None => s.last_purged,
        },
        ..s
    }
}

/// The state machine's operations on the shared state.
pub struct KafStateMachine;

/// A snapshot was asked for before anything was applied.
#[derive(Debug, Clone, Copy, PartialEq, Eq, Structural)]
pub enum SnapshotError {
    NoAppliedLogs,
}

impl SnapshotError {
    pub fn message(&self) -> (text: &'static str)
        ensures
            text@ == "no applied logs"@,
    {
        "no applied logs"
    }
}

/// The image of a state whose last applied entry is `last`.
pub open spec fn is_image(s: StorageView, last: LogId, snapshot: Replicated, meta: SnapshotMeta) -> bool {
    &&& snapshot == s.replicated
    &&& meta.last_log_id == Some(last)
    &&& meta.last_membership@ == s.replicated.last_membership
    &&& meta.snapshot_id@ == snapshot_id_at(last)
}

impl KafStateMachine {
    /// Bring VIP ownership up to date.
    fn reassign(state: &mut KafStorageState)
        ensures
            final(state)@ == (StorageView {
                replicated: reassigned(old(state)@.settings, old(state)@.replicated),
                ..old(state)@
            }),
            final(state).vip_list == old(state).vip_list,
    {
        let ghost before = state@;
        // Read before the assignments are taken out below, so it reflects the state as of this
        // entry.
        let current_holders = Self::current_holders(&state.vip_assignments);
        let mut vip_holder: AddrMap<u64> = OrdMap::new();
        recompute_vip_holder(
            &state.last_membership.membership,
            &state.node_health,
            &state.node_probe_ticks,
            state.latest_probe_tick,
            state.stale_missed_probes,
            state.failback_delay_ticks,
            &state.node_recovery_tick,
            &state.node_failback_blocked,
            &state.vip_list,
            &current_holders,
            &mut vip_holder,
        );
        let mut assignments: AddrMap<VipAssignment> = OrdMap::new();
        let mut generations: AddrMap<u64> = OrdMap::new();
        std::mem::swap(&mut assignments, &mut state.vip_assignments);
        std::mem::swap(&mut generations, &mut state.vip_generation);
        reconcile_vip_assignments(
            &vip_holder,
            state.latest_probe_tick,
            &state.vip_list,
            &mut assignments,
            &mut generations,
        );
        state.vip_assignments = assignments;
        state.vip_generation = generations;
        proof {
            assert(addresses(state.vip_list@) =~= before.settings.vips);
            assert(state@.replicated =~= reassigned(before.settings, before.replicated));
        }
    }

    fn current_holders(assignments: &AddrMap<VipAssignment>) -> (current: AddrMap<u64>)
        ensures
            current@ == holders(assignments@),
    {
        let mut current: AddrMap<u64> = OrdMap::new();
        let n: usize = assignments.len();
        let mut i: usize = 0;
        while i < n
            invariant
                i <= n,
                n == assignments.order().len(),
                forall|vip: IpAddr| #[trigger] assignments.order().contains(vip) == assignments@.contains_key(vip),
                forall|vip: IpAddr| #[trigger] current@.contains_key(vip) == assignments.order().take(i as int).contains(vip),
                forall|vip: IpAddr| #[trigger] current@.contains_key(vip) ==> current@[vip] == assignments@[vip].holder,
            decreases n - i,
        {
            let (vip, a) = assignments.entry(i);
            current.insert(*vip, a.holder);
            i += 1;
            proof {
                let (front, all) = (assignments.order().take(i - 1), assignments.order().take(i as int));
                assert(all =~= front.push(*vip));
                assert forall|v: IpAddr| all.contains(v) == (front.contains(v) || v == *vip) by {
                    if front.contains(v) {
                        assert(all[front.index_of(v)] == v);
                    }
                    assert(all[i - 1] == *vip);
                }
            }
        }
        proof {
            assert(assignments.order().take(i as int) =~= assignments.order());
            assert(current@ =~= holders(assignments@));
        }
        current
    }

    /// Apply one already-committed entry.
    pub fn apply_one(state: &mut KafStorageState, entry: &Entry) -> (response: KafResponse)
        ensures
            response == KafResponse::Applied,
            final(state)@ == (StorageView {
                replicated: applied(old(state)@.settings, old(state)@.replicated, entry@),
                ..old(state)@
            }),
            final(state).vip_list == old(state).vip_list,
    {
        broadcast use vstd::std_specs::hash::group_hash_axioms;

        let ghost before = state@;
        let ghost c = before.settings;
        state.last_applied_log = Some(entry.log_id);
        match &entry.payload {
            EntryPayload::Blank => {},
            EntryPayload::Normal(KafRequest::HealthUpdate { node_id, healthy }) => {
                let was_unhealthy = match state.node_health.get(node_id) {
                    Some(healthy) => !*healthy,
                    None => false,
                };
                state.node_health.insert(*node_id, *healthy);
                let prev = match state.node_probe_ticks.get(node_id) {
                    Some(tick) => Some(*tick),
                    None => None,
                };
                let tick: u64 = next_probe_tick(prev, state.latest_probe_tick);
                state.node_probe_ticks.insert(*node_id, tick);
                if tick > state.latest_probe_tick {
                    state.latest_probe_tick = tick;
                }
                if *healthy {
                    // From unhealthy to healthy: start the failback timer.
                    if was_unhealthy {
                        state.node_recovery_tick.insert(*node_id, tick);
                    }
                } else {
                    state.node_recovery_tick.remove(node_id);
                    if !state.failback {
                        state.node_failback_blocked.insert(*node_id);
                    }
                }
                proof {
                    let start = Replicated { last_applied: Some(entry.log_id), ..before.replicated };
                    assert(state@.replicated =~= health_reported(c, start, *node_id, *healthy));
                }
                Self::reassign(state);
            },
            EntryPayload::Normal(KafRequest::VipReleased { node_id, vip, generation }) => {
                let acked = match state.vip_assignments.get(vip) {
                    Some(a) => {
                        if a.generation == *generation && a.previous_holder == Some(*node_id) {
                            Some(VipAssignment { previous_holder_released: true, ..*a })
                        } else {
                            None
                        }
                    },
                    None => None,
                };
                if let Some(a) = acked {
                    state.vip_assignments.insert(*vip, a);
                }
            },
            EntryPayload::Normal(KafRequest::ClusterFormed { cluster_id }) => {
                // The first committed incarnation wins.
                if state.cluster_epoch.is_none() {
                    state.cluster_epoch = Some(*cluster_id);
                }
            },
            EntryPayload::Membership(membership) => {
                state.last_membership = StoredMembership {
                    log_id: Some(entry.log_id),
                    membership: membership.clone(),
                };
                Self::reassign(state);
            },
        }
        assert(state@ =~= StorageView { replicated: applied(c, before.replicated, entry@), ..before });
        KafResponse::Applied
    }

    /// Apply committed entries in order, with one response for each.
    pub fn apply_entries(state: &mut KafStorageState, entries: &[Entry]) -> (responses: Vec<KafResponse>)
        ensures
            responses@.len() == entries@.len(),
            forall|i: int| 0 <= i < responses@.len() ==> #[trigger] responses@[i] == KafResponse::Applied,
            final(state)@ == (StorageView {
                replicated: applied_all(
                    old(state)@.settings,
                    old(state)@.replicated,
                    entries@.map_values(|e: Entry| e@),
                ),
                ..old(state)@
            }),
            final(state).vip_list == old(state).vip_list,
    {
        let ghost before = state@;
        let ghost all = entries@.map_values(|e: Entry| e@);
        let mut responses: Vec<KafResponse> = Vec::new();
        let mut i: usize = 0;
        while i < entries.len()
            invariant
                i <= entries@.len(),
                responses@.len() == i,
                all == entries@.map_values(|e: Entry| e@),
                forall|j: int| 0 <= j < i ==> #[trigger] responses@[j] == KafResponse::Applied,
                state@ == (StorageView {
                    replicated: applied_all(before.settings, before.replicated, all.take(i as int)),
                    ..before
                }),
                state.vip_list == old(state).vip_list,
            decreases entries@.len() - i,
        {
            let response = Self::apply_one(state, &entries[i]);
            responses.push(response);
            i += 1;
            assert(all.take(i as int).drop_last() =~= all.take(i - 1));
            assert(all.take(i as int).last() == entries@[i - 1]@);
        }
        assert(all.take(i as int) =~= all);
        responses
    }

    /// The last applied log id and the last applied membership.
    pub fn applied_state(state: &KafStorageState) -> (r: (Option<LogId>, StoredMembership))
        ensures
            r.0 == state@.replicated.last_applied,
            r.1@ == state@.replicated.last_membership,
    {
        (state.last_applied_log, state.last_membership.clone())
    }

    /// Build a snapshot of what has been applied.
    pub fn build_snapshot(state: &KafStorageState) -> (r: Result<(KafSnapshot, SnapshotMeta), SnapshotError>)
        ensures
            match (r, state@.replicated.last_applied) {
                (Ok(image), Some(last)) => is_image(state@, last, image.0@, image.1),
                (Err(e), None) => e == SnapshotError::NoAppliedLogs,
                _ => false,
            },
    {
        match state.last_applied_log {
            Some(last) => Ok(state.snapshot_at(last)),
            None => Err(SnapshotError::NoAppliedLogs),
        }
    }

    /// The snapshot of what has been applied, if anything has.
    pub fn get_current_snapshot(state: &KafStorageState) -> (r: Option<(KafSnapshot, SnapshotMeta)>)
        ensures
            match (r, state@.replicated.last_applied) {
                (Some(image), Some(last)) => is_image(state@, last, image.0@, image.1),
                (None, None) => true,
                _ => false,
            },
    {
        match state.last_applied_log {
            Some(last) => Some(state.snapshot_at(last)),
            None => None,
        }
    }

    /// Adopt a snapshot and drop the log entries it covers.
    pub fn install_snapshot(state: &mut KafStorageState, snapshot: KafSnapshot)
        ensures
            final(state)@ == installed(old(state)@, snapshot@),
            final(state).vip_list == old(state).vip_list,
    {
        broadcast use vstd::std_specs::hash::group_hash_axioms;

        let ghost before = state@;
        let copy = snapshot.clone();
        state.last_applied_log = copy.last_applied;
        state.last_membership = copy.last_membership;
        state.node_health = copy.node_health;
        state.node_probe_ticks = copy.node_probe_ticks;
        state.latest_probe_tick = copy.latest_probe_tick;
        state.vip_assignments = copy.vip_assignments;
        state.vip_generation = copy.vip_generation;
        // A node catching up takes on the sender's cluster identity.
        state.cluster_epoch = copy.cluster_epoch;
        state.node_recovery_tick = copy.node_recovery_tick;
        if state.failback {
            state.node_failback_blocked.clear();
        } else {
            state.node_failback_blocked = copy.node_failback_blocked;
        }
        if let Some(last) = snapshot.last_applied {
            drop_log_upto(&mut state.log, last.index);
            raise_boundary(&mut state.last_purged_log_id, last);
        }
        state.current_snapshot = Some(snapshot);
        assert(state@ =~= installed(before, snapshot@));
    }
}

/// Move the purge boundary up to `id`, never back.
pub fn raise_boundary(boundary: &mut Option<LogId>, id: LogId)
    ensures
        *final(boundary) == raised_boundary(*old(boundary), id),
{
    let raise = match boundary {
        Some(b) => b.index < id.index,
        None => true,
    };
    if raise {
        *boundary = Some(id);
    }
}

/// Remove the log entries up to `index`.
pub fn drop_log_upto(log: &mut OrdMap<u64, Entry>, index: u64)
    ensures
        final(log)@ == old(log)@.restrict(Set::new(|i: u64| i > index)),
        final(log)@.map_values(|e: Entry| e@) == log_above(old(log)@.map_values(|e: Entry| e@), index),
{
    let ghost before = log@;
    let indices = log.keys();
    let mut k: usize = 0;
    while k < indices.len() && indices[k] <= index
        invariant
            k <= indices@.len(),
            log@ == before.remove_keys(indices@.take(k as int).to_set()),
            forall|j: int| 0 <= j < k ==> #[trigger] indices@[j] <= index,
        decreases indices@.len() - k,
    {
        log.remove(&indices[k]);
        k += 1;
        proof {
            let (front, all) = (indices@.take(k - 1), indices@.take(k as int));
            assert(all =~= front.push(indices@[k - 1]));
            assert forall|i: u64| all.contains(i) == (front.contains(i) || i == indices@[k - 1]) by {
                if front.contains(i) {
                    assert(all[front.index_of(i)] == i);
                }
                assert(all[k - 1] == indices@[k - 1]);
            }
            assert(log@ =~= before.remove_keys(all.to_set()));
        }
    }
    proof {
        let gone = indices@.take(k as int);
        assert forall|i: u64| #[trigger] before.contains_key(i) implies gone.contains(i) == (i <= index) by {
            assert(indices@.contains(i));
            let x = indices@.index_of(i);
            if x < k {
                assert(gone[x] == i);
            } else {
                assert(indices@[k as int].rank() <= indices@[x].rank());
                if gone.contains(i) {
                    assert(indices@[gone.index_of(i)] <= index);
                }
            }
        }
        assert(log@ =~= before.restrict(Set::new(|i: u64| i > index)));
        assert(log@.map_values(|e: Entry| e@) =~= log_above(before.map_values(|e: Entry| e@), index));
    }
}

} // verus!
