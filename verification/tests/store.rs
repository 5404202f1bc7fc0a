use keepafloatd::addr::IpAddr;
use keepafloatd::config::VipAddr;
use keepafloatd::raft::store::log::{IndexBound, KafLogStore, LogState};
use keepafloatd::raft::store::state::{KafSnapshot, KafStorageState, SnapshotMeta, VipAssignment};
use keepafloatd::raft::store::state_machine::{KafStateMachine, SnapshotError};
use keepafloatd::raft::store::vip_logic::is_node_eligible;
use keepafloatd::raft::types::{
    Entry, EntryPayload, KafRequest, KafResponse, LogId, Membership, StoredMembership, Vote,
};
use keepafloatd::vip::wants_bind;
use std::collections::BTreeSet;

/// The state behind the accessors of a shared handle.
struct Handle(KafStorageState);

impl Handle {
    fn read(&self) -> &KafStorageState {
        &self.0
    }

    fn write(&mut self) -> &mut KafStorageState {
        &mut self.0
    }
}

struct Image {
    snapshot: KafSnapshot,
    meta: SnapshotMeta,
}

struct TestStore {
    state: Handle,
}

impl TestStore {
    fn apply_to_state_machine(&mut self, entries: &[Entry]) -> Result<(), SnapshotError> {
        let responses = KafStateMachine::apply_entries(self.state.write(), entries);
        assert_eq!(responses.len(), entries.len());
        assert!(responses.iter().all(|r| *r == KafResponse::Applied));
        Ok(())
    }

    fn append_to_log(&mut self, entries: impl IntoIterator<Item = Entry>) -> Result<(), SnapshotError> {
        KafLogStore::append(self.state.write(), entries.into_iter().collect());
        Ok(())
    }

    fn get_log_state(&self) -> Result<LogState, SnapshotError> {
        Ok(KafLogStore::get_log_state(self.state.read()))
    }

    fn get_log_reader(&self) -> &TestStore {
        self
    }

    fn try_get_log_entries(&self, start: IndexBound, end: IndexBound) -> Result<Vec<Entry>, SnapshotError> {
        Ok(KafLogStore::try_get_log_entries(self.state.read(), start, end))
    }

    fn read_committed(&self) -> Result<Option<LogId>, SnapshotError> {
        Ok(KafLogStore::read_committed(self.state.read()))
    }

    fn save_committed(&mut self, c: Option<LogId>) -> Result<(), SnapshotError> {
        KafLogStore::save_committed(self.state.write(), c);
        Ok(())
    }

    fn save_vote(&mut self, v: &Vote) -> Result<(), SnapshotError> {
        KafLogStore::save_vote(self.state.write(), *v);
        Ok(())
    }

    fn read_vote(&self) -> Result<Option<Vote>, SnapshotError> {
        Ok(KafLogStore::read_vote(self.state.read()))
    }

    fn purge_logs_upto(&mut self, log_id: LogId) -> Result<(), SnapshotError> {
        KafLogStore::purge(self.state.write(), log_id);
        Ok(())
    }

    fn truncate_after(&mut self, last: Option<LogId>) -> Result<(), SnapshotError> {
        KafLogStore::truncate_after(self.state.write(), last);
        Ok(())
    }

    /// Removes `log_id` and everything after it.
    fn delete_conflict_logs_since(&mut self, log_id: LogId) -> Result<(), SnapshotError> {
        let prev = log_id.index.checked_sub(1).map(|index| LogId { index, ..log_id });
        self.truncate_after(prev)
    }

    fn last_applied_state(&self) -> Result<(Option<LogId>, StoredMembership), SnapshotError> {
        Ok(KafStateMachine::applied_state(self.state.read()))
    }

    fn install_snapshot(&mut self, _meta: &SnapshotMeta, snapshot: KafSnapshot) -> Result<(), SnapshotError> {
        KafStateMachine::install_snapshot(self.state.write(), snapshot);
        Ok(())
    }

    fn get_snapshot_builder(&self) -> &TestStore {
        self
    }

    fn build_snapshot(&self) -> Result<Image, SnapshotError> {
        let (snapshot, meta) = KafStateMachine::build_snapshot(self.state.read())?;
        Ok(Image { snapshot, meta })
    }

    fn get_current_snapshot(&self) -> Result<Option<Image>, SnapshotError> {
        Ok(KafStateMachine::get_current_snapshot(self.state.read())
            .map(|(snapshot, meta)| Image { snapshot, meta }))
    }
}

fn ip4(a: u8, b: u8, c: u8, d: u8) -> IpAddr {
    IpAddr::V4(u32::from_be_bytes([a, b, c, d]))
}

fn lid(term: u64, index: u64) -> LogId {
    LogId { term, node_id: 0, index }
}

fn normal(term: u64, index: u64, request: KafRequest) -> Entry {
    Entry { log_id: lid(term, index), payload: EntryPayload::Normal(request) }
}

fn health_entry_term(term: u64, index: u64, node_id: u64, healthy: bool) -> Entry {
    normal(term, index, KafRequest::HealthUpdate { node_id, healthy })
}

fn membership_entry(index: u64, voters: &[u64]) -> Entry {
    let membership = Membership {
        configs: vec![voters.to_vec()],
        nodes: voters.iter().map(|id| (*id, String::new())).collect(),
    };
    Entry { log_id: lid(1, index), payload: EntryPayload::Membership(membership) }
}

fn health_entry(index: u64, node_id: u64, healthy: bool) -> Entry {
    normal(1, index, KafRequest::HealthUpdate { node_id, healthy })
}

fn release_entry(index: u64, node_id: u64, vip: IpAddr, generation: u64) -> Entry {
    normal(1, index, KafRequest::VipReleased { node_id, vip, generation })
}

fn storage(vips: &[IpAddr], stale_missed_probes: u64) -> TestStore {
    storage_failback(vips, stale_missed_probes, true)
}

fn storage_failback(vips: &[IpAddr], stale_missed_probes: u64, failback: bool) -> TestStore {
    let vip_list = vips.iter().map(|&a| (VipAddr::host(a), "lo".to_string())).collect();
    TestStore { state: Handle(KafStorageState::new(vip_list, stale_missed_probes, failback, 0)) }
}

fn assignment_of(storage: &TestStore, vip: IpAddr) -> Option<VipAssignment> {
    storage.state.read().vip_assignments.get(&vip).copied()
}

fn assignments(state: &KafStorageState) -> Vec<(IpAddr, VipAssignment)> {
    let vips = state.vip_assignments.keys();
    vips.into_iter().map(|vip| (vip, *state.vip_assignments.get(&vip).unwrap())).collect()
}

#[test]
fn health_updates_advance_frontier_and_assign_only_eligible_holders() {
    let v1 = ip4(10, 0, 0, 1);
    let v2 = ip4(10, 0, 0, 2);
    let mut s = storage(&[v1, v2], 3);

    // Two voters, both healthy.
    s.apply_to_state_machine(&[membership_entry(1, &[1, 2])])
        .unwrap();
    s.apply_to_state_machine(&[health_entry(2, 1, true)])
        .unwrap();
    s.apply_to_state_machine(&[health_entry(3, 2, true)])
        .unwrap();

    let st = s.state.read();
    // Frontier advanced and is the max of the per-node committed ticks.
    let max_tick = st.node_probe_ticks.values().copied().max().unwrap_or(0);
    assert_eq!(st.latest_probe_tick, max_tick);
    assert!(st.node_probe_ticks.contains_key(&1) && st.node_probe_ticks.contains_key(&2));

    // Both VIPs are assigned, and every assigned holder is actually eligible.
    assert_eq!(st.vip_assignments.len(), 2);
    for (vip, a) in assignments(st) {
        assert!(
            is_node_eligible(
                a.holder,
                &st.node_health,
                &st.node_probe_ticks,
                st.latest_probe_tick,
                st.stale_missed_probes,
                st.failback_delay_ticks,
                &st.node_recovery_tick,
                &st.node_failback_blocked,
            ),
            "holder {} of {vip:?} must be eligible",
            a.holder
        );
    }
}

#[test]
fn membership_without_voters_clears_assignments() {
    let v1 = ip4(10, 0, 0, 1);
    let mut s = storage(&[v1], 3);
    s.apply_to_state_machine(&[membership_entry(1, &[1])])
        .unwrap();
    s.apply_to_state_machine(&[health_entry(2, 1, true)])
        .unwrap();
    assert!(assignment_of(&s, v1).is_some());

    // A committed membership with no voters leaves nobody eligible.
    s.apply_to_state_machine(&[membership_entry(3, &[])])
        .unwrap();
    assert!(s.state.read().vip_assignments.is_empty());
}

#[test]
fn vip_released_ack_requires_matching_generation_and_previous_holder() {
    let vip = ip4(10, 0, 0, 1);
    let mut s = storage(&[vip], 3);

    // Form a 2-voter cluster, both healthy: the single VIP lands on the lowest eligible id.
    s.apply_to_state_machine(&[membership_entry(1, &[1, 2])])
        .unwrap();
    s.apply_to_state_machine(&[health_entry(2, 1, true)])
        .unwrap();
    s.apply_to_state_machine(&[health_entry(3, 2, true)])
        .unwrap();
    let initial = assignment_of(&s, vip).unwrap();

    // Advance the frontier with node 2 only until node 1 falls outside the staleness window
    // and the VIP hands off (generation bumps, previous_holder recorded).
    let mut idx = 4;
    for _ in 0..6 {
        s.apply_to_state_machine(&[health_entry(idx, 2, true)])
            .unwrap();
        idx += 1;
    }
    let handed_off = assignment_of(&s, vip).unwrap();
    assert_ne!(handed_off.holder, initial.holder, "VIP should have moved");
    let prev = handed_off
        .previous_holder
        .expect("previous holder recorded");
    assert_eq!(prev, initial.holder);
    assert!(!handed_off.previous_holder_released);
    let generation = handed_off.generation;

    // Wrong generation: ignored.
    s.apply_to_state_machine(&[release_entry(idx, prev, vip, generation.saturating_sub(1))])
        .unwrap();
    idx += 1;
    assert!(
        !assignment_of(&s, vip)
            .unwrap()
            .previous_holder_released
    );

    // Right generation but wrong node: ignored.
    s.apply_to_state_machine(&[release_entry(idx, handed_off.holder, vip, generation)])
        .unwrap();
    idx += 1;
    assert!(
        !assignment_of(&s, vip)
            .unwrap()
            .previous_holder_released
    );

    // Correct previous holder + generation: the release ack lands.
    s.apply_to_state_machine(&[release_entry(idx, prev, vip, generation)])
        .unwrap();
    assert!(
        assignment_of(&s, vip)
            .unwrap()
            .previous_holder_released
    );
}

#[test]
fn storage_trait_log_vote_and_snapshot_roundtrip() {
    let v1 = ip4(10, 0, 0, 1);
    let mut s = storage(&[v1], 3);

    // Append to the log, then read it back via the log reader + log state.
    s.append_to_log([membership_entry(1, &[1, 2]), health_entry(2, 1, true)])
        .unwrap();
    let ls = s.get_log_state().unwrap();
    assert_eq!(ls.last_log_id.map(|l| l.index), Some(2));
    let reader = s.get_log_reader();
    assert_eq!(reader.try_get_log_entries(IndexBound::Included(1), IndexBound::Included(2)).unwrap().len(), 2);

    // Vote persistence.
    let vote = Vote { term: 3, node_id: 1, committed: false };
    s.save_vote(&vote).unwrap();
    assert_eq!(s.read_vote().unwrap(), Some(vote));

    // Apply entries so there is committed state to snapshot.
    s.apply_to_state_machine(&[
        membership_entry(3, &[1, 2]),
        health_entry(4, 1, true),
        health_entry(5, 2, true),
    ])
    .unwrap();
    let (applied, _membership) = s.last_applied_state().unwrap();
    assert!(applied.is_some());

    // Build a snapshot and confirm get_current_snapshot also produces one.
    let builder = s.get_snapshot_builder();
    let snap = builder.build_snapshot().unwrap();
    assert!(s.get_current_snapshot().unwrap().is_some());

    // Install that snapshot into a fresh store and verify the committed state transfers.
    let mut restored = storage(&[v1], 3);
    let bytes = snap.snapshot;
    restored
        .install_snapshot(&snap.meta, bytes)
        .unwrap();
    {
        let st = restored.state.read();
        assert_eq!(st.last_applied_log.map(|l| l.index), Some(5));
        assert!(!st.vip_assignments.is_empty());
        // Post-install the store must satisfy last_purged <= last_applied <= last_log_id
        // even though this fresh store had no log to trim.
        let purged = st.last_purged_log_id.map(|l| l.index);
        let applied = st.last_applied_log.map(|l| l.index);
        let last_log = st.log.keys().into_iter().next_back();
        assert!(
            purged <= applied,
            "purged {purged:?} must be <= applied {applied:?}"
        );
        if let (Some(p), Some(ll)) = (purged, last_log) {
            assert!(p <= ll, "purged {p} must be <= last_log {ll}");
        }
    }

    // Log compaction entry points run without error.
    s.delete_conflict_logs_since(lid(1, 5)).unwrap();
    s.purge_logs_upto(lid(1, 1)).unwrap();
}
fn snapshot_covering(vips: &[IpAddr], n: u64) -> (SnapshotMeta, KafSnapshot) {
    let mut src = storage(vips, 3);
    src.apply_to_state_machine(&[membership_entry(1, &[1, 2])])
        .unwrap();
    for i in 2..=n {
        src.apply_to_state_machine(&[health_entry(i, 1, true)])
            .unwrap();
    }
    let builder = src.get_snapshot_builder();
    let snap = builder.build_snapshot().unwrap();
    let meta = snap.meta;
    let bytes = snap.snapshot;
    (meta, bytes)
}
#[test]
fn install_snapshot_purges_covered_log_and_sets_purged_id() {
    let v1 = ip4(10, 0, 0, 1);
    let mut restored = storage(&[v1], 3);

    // Seed a lagging follower's stale low-index prefix.
    restored
        .append_to_log([membership_entry(1, &[1, 2]), health_entry(2, 1, true)])
        .unwrap();

    let (meta, bytes) = snapshot_covering(&[v1], 5);
    restored
        .install_snapshot(&meta, bytes)
        .unwrap();

    let st = restored.state.read();
    assert_eq!(
        st.last_purged_log_id.map(|l| l.index),
        Some(5),
        "last_purged_log_id must advance to the snapshot index"
    );
    assert!(
        st.log.keys().iter().all(|&k| k > 5),
        "no log entry at or below the snapshot index may survive, got keys {:?}",
        st.log.keys()
    );
}
#[test]
fn install_snapshot_keeps_log_suffix_above_index() {
    let v1 = ip4(10, 0, 0, 1);
    let mut restored = storage(&[v1], 3);

    // Seed indices 1..=7; snapshot will cover up to 5, so 6 and 7 must remain.
    restored
        .append_to_log([
            membership_entry(1, &[1, 2]),
            health_entry(2, 1, true),
            health_entry(3, 1, true),
            health_entry(4, 1, true),
            health_entry(5, 1, true),
            health_entry(6, 1, true),
            health_entry(7, 1, true),
        ])
        .unwrap();

    let (meta, bytes) = snapshot_covering(&[v1], 5);
    restored
        .install_snapshot(&meta, bytes)
        .unwrap();

    let st = restored.state.read();
    assert_eq!(st.last_purged_log_id.map(|l| l.index), Some(5));
    assert!(st.log.contains_key(&6) && st.log.contains_key(&7));
    assert!(st.log.keys().iter().all(|&k| k > 5));
}
#[test]
fn install_snapshot_does_not_move_purge_backwards() {
    let v1 = ip4(10, 0, 0, 1);
    let mut restored = storage(&[v1], 3);

    // Purge to a higher index than the stale snapshot will carry.
    restored.purge_logs_upto(lid(1, 9)).unwrap();

    let (meta, bytes) = snapshot_covering(&[v1], 5);
    restored
        .install_snapshot(&meta, bytes)
        .unwrap();

    let st = restored.state.read();
    assert_eq!(
        st.last_purged_log_id.map(|l| l.index),
        Some(9),
        "an older snapshot must not lower the purge point"
    );
}
#[test]
fn install_snapshot_empty_last_applied_is_noop_on_log() {
    let v1 = ip4(10, 0, 0, 1);
    let mut restored = storage(&[v1], 3);
    restored
        .append_to_log([membership_entry(1, &[1, 2]), health_entry(2, 1, true)])
        .unwrap();

    // Hand-craft an empty snapshot (last_applied = None).
    let snap = KafSnapshot::default();
    let meta = SnapshotMeta {
        last_log_id: None,
        last_membership: StoredMembership { log_id: None, membership: Membership::empty() },
        snapshot_id: "empty".to_string(),
    };
    let bytes = snap;
    restored
        .install_snapshot(&meta, bytes)
        .unwrap();

    let st = restored.state.read();
    assert_eq!(st.last_purged_log_id, None);
    assert!(st.log.contains_key(&1) && st.log.contains_key(&2));
}
#[test]
fn snapshot_id_distinguishes_same_index_different_term() {
    let v1 = ip4(10, 0, 0, 1);

    let mut a = storage(&[v1], 3);
    a.apply_to_state_machine(&[membership_entry(1, &[1])])
        .unwrap();
    a.apply_to_state_machine(&[health_entry_term(2, 2, 1, true)])
        .unwrap();
    let id_a = a
        .get_snapshot_builder()
        .build_snapshot()
        .unwrap()
        .meta
        .snapshot_id;

    let mut b = storage(&[v1], 3);
    b.apply_to_state_machine(&[membership_entry(1, &[1])])
        .unwrap();
    // Same index (2) but proposed in term 5 instead of term 2.
    b.apply_to_state_machine(&[health_entry_term(5, 2, 1, true)])
        .unwrap();
    let id_b = b
        .get_snapshot_builder()
        .build_snapshot()
        .unwrap()
        .meta
        .snapshot_id;

    assert_ne!(
        id_a, id_b,
        "snapshots at the same index in different terms must have distinct ids"
    );
}
#[test]
fn append_to_log_ignores_entries_at_or_below_purge_point() {
    let v1 = ip4(10, 0, 0, 1);
    let mut s = storage(&[v1], 3);

    s.purge_logs_upto(lid(1, 5)).unwrap();

    // Indices 3 and 5 are at/below the purge point and must be dropped; 6 is above and kept.
    s.append_to_log([
        health_entry(3, 1, true),
        health_entry(5, 1, true),
        health_entry(6, 1, true),
    ])
    .unwrap();

    let st = s.state.read();
    assert!(
        !st.log.contains_key(&3) && !st.log.contains_key(&5),
        "entries at or below the purge point must not be inserted"
    );
    assert!(
        st.log.contains_key(&6),
        "entries above the purge point are kept"
    );
}
#[test]
fn purge_logs_upto_is_monotonic() {
    let v1 = ip4(10, 0, 0, 1);
    let mut s = storage(&[v1], 3);

    s.purge_logs_upto(lid(1, 9)).unwrap();
    // A lower purge must be ignored for the boundary.
    s.purge_logs_upto(lid(1, 4)).unwrap();

    let st = s.state.read();
    assert_eq!(
        st.last_purged_log_id.map(|l| l.index),
        Some(9),
        "purge boundary must never move backwards"
    );
}
#[test]
fn append_into_empty_log_above_zero_seeds_purge_floor() {
    let v1 = ip4(10, 0, 0, 1);
    let mut s = storage(&[v1], 3);
    // Fresh store: no purge, empty log (simulates the wiped in-memory store after restart).
    // Backfill starts at index 4000 (old purge floor 3999 + 1).
    s.append_to_log([health_entry(4000, 1, true), health_entry(4001, 1, true)])
        .unwrap();

    let ls = s.get_log_state().unwrap();
    assert_eq!(
        ls.last_purged_log_id.map(|l| l.index),
        Some(3999),
        "append into an empty log starting at 4000 must seed last_purged_log_id to 3999"
    );
    // Invariant: last_purged.next_index() == lowest log key, so openraft never reads index 0.
    assert_eq!(
        ls.last_purged_log_id.map(|l| l.index + 1),
        s.state.read().log.keys().first().copied(),
        "purge floor + 1 must equal the lowest log index (no get_log_id(0))"
    );
}
#[test]
fn get_log_state_derives_purge_floor_when_none_but_log_nonzero() {
    let v1 = ip4(10, 0, 0, 1);
    let mut s = storage(&[v1], 3);
    // Inject a non-zero log floor directly with last_purged_log_id left None (bypassing
    // append_to_log) to exercise the read-side guard in isolation.
    {
        let st = s.state.write();
        st.log.insert(4000, health_entry(4000, 1, true));
        st.log.insert(4001, health_entry(4001, 1, true));
        st.last_purged_log_id = None;
    }
    let ls = s.get_log_state().unwrap();
    assert_eq!(
        ls.last_purged_log_id.map(|l| l.index),
        Some(3999),
        "get_log_state must derive the purge floor from the lowest log index when None"
    );
}
#[test]
fn read_committed_never_collapses_to_none_after_backfill() {
    let v1 = ip4(10, 0, 0, 1);
    let mut s = storage(&[v1], 3);
    s.append_to_log([health_entry(9000, 1, true), health_entry(9001, 1, true)])
        .unwrap();
    let c = s.read_committed().unwrap();
    assert!(
        c.map(|l| l.index) >= Some(8999),
        "read_committed must report at/above the backfill floor so the engine commit-since \
             never collapses to 0: {c:?}"
    );
}
#[test]
fn save_committed_roundtrips_and_clamps_to_applied() {
    let v1 = ip4(10, 0, 0, 1);
    let mut s = storage(&[v1], 3);
    s.save_committed(Some(lid(1, 42))).unwrap();
    assert_eq!(
        s.read_committed().unwrap().map(|l| l.index),
        Some(42)
    );
    // Applying past the committed value raises read_committed to the applied frontier.
    s.apply_to_state_machine(&[membership_entry(50, &[1])])
        .unwrap();
    assert_eq!(
        s.read_committed().unwrap().map(|l| l.index),
        Some(50),
        "read_committed must not sit below last_applied"
    );
}
#[test]
fn reform_truncation_lowers_purge_floor_and_accepts_fresh_low_log() {
    let v1 = ip4(10, 0, 0, 1);
    let mut s = storage(&[v1], 3);
    // Survivor state: purged to 9000, log holds the post-snapshot suffix.
    s.purge_logs_upto(lid(1, 9000)).unwrap();
    s.append_to_log([health_entry(9001, 1, true), health_entry(9002, 1, true)])
        .unwrap();
    // Reform: leader truncates everything (conflict since index 0) and replays from 1.
    s.delete_conflict_logs_since(lid(2, 0)).unwrap();
    assert!(
        s.state.read().last_purged_log_id.is_none(),
        "truncation to index 0 must clear the stale high purge floor"
    );
    // The fresh low backfill must now be ACCEPTED (not dropped by the guard).
    s.append_to_log([
        membership_entry(1, &[1, 2, 3]),
        health_entry(2, 1, true),
        health_entry(3, 1, true),
    ])
    .unwrap();
    let st = s.state.read();
    assert_eq!(
        st.log.keys().first().copied(),
        Some(1),
        "fresh reform log must start at index 1, not be dropped by the drop-guard"
    );
    assert!(
        st.last_purged_log_id.map(|l| l.index).unwrap_or(0) < 1,
        "purge floor must be below the new log floor after reform"
    );
}
#[test]
fn try_get_log_entries_does_not_panic_on_inverted_range() {
    let v1 = ip4(10, 0, 0, 1);
    let mut s = storage(&[v1], 3);
    s.append_to_log([health_entry(5, 1, true), health_entry(6, 1, true)])
        .unwrap();
    let reader = s.get_log_reader();
    // Inverted half-open range (start 9 > end 3): must return empty, not panic.
    let res = reader.try_get_log_entries(IndexBound::Included(9), IndexBound::Excluded(3)).unwrap();
    assert!(res.is_empty(), "inverted range must yield an empty slice");
    // Inverted inclusive range too.
    let res2 = reader
        .try_get_log_entries(IndexBound::Included(9), IndexBound::Included(3))
        .unwrap();
    assert!(res2.is_empty());
    // A valid range still works.
    let res3 = reader.try_get_log_entries(IndexBound::Included(5), IndexBound::Included(6)).unwrap();
    assert_eq!(res3.len(), 2);
}
#[test]
fn read_committed_never_exceeds_servable_log() {
    let v1 = ip4(10, 0, 0, 1);
    let mut s = storage(&[v1], 3);
    // Stale survivor: purged to a high floor at a stale term; the suffix above it was lost on
    // the volatile restart, so the store can serve NOTHING and last_applied is empty too.
    s.purge_logs_upto(lid(35, 8)).unwrap();
    let committed = s.read_committed().unwrap();
    let last_log_index = s
        .get_log_state()
        .unwrap()
        .last_log_id
        .map(|l| l.index);
    let last_applied = s.state.read().last_applied_log.map(|l| l.index);
    let servable = last_log_index.max(last_applied).unwrap_or(0);
    assert!(
        committed.map(|c| c.index).unwrap_or(0) <= servable,
        "read_committed {committed:?} exceeds the highest servable position {servable}"
    );
}
#[test]
fn delete_conflict_above_floor_leaves_purge_floor_unchanged() {
    let v1 = ip4(10, 0, 0, 1);
    let mut s = storage(&[v1], 3);
    s.purge_logs_upto(lid(1, 9000)).unwrap();
    s.append_to_log([
        health_entry(9001, 1, true),
        health_entry(9002, 1, true),
        health_entry(9003, 1, true),
    ])
    .unwrap();
    // Truncate at 9002 (above the 9000 floor): floor must stay, 9001 survives.
    s.delete_conflict_logs_since(lid(1, 9002)).unwrap();
    let st = s.state.read();
    assert_eq!(st.last_purged_log_id.map(|l| l.index), Some(9000));
    assert!(st.log.contains_key(&9001) && !st.log.contains_key(&9002));
}
#[test]
fn truncate_after_is_exclusive_and_none_clears_log_and_floor() {
    let v1 = ip4(10, 0, 0, 1);
    let mut s = storage(&[v1], 3);
    // Seed a contiguous log 1..=5.
    s.append_to_log((1..=5).map(|i| health_entry(i, 1, true)))
        .unwrap();

    // truncate_after(Some(2)) keeps ..=2 (1 and 2 survive), removes 3,4,5 — the EXCLUSIVE
    // boundary: index 2 is KEPT, not removed.
    s.truncate_after(Some(lid(1, 2))).unwrap();
    {
        let st = s.state.read();
        assert!(st.log.contains_key(&1) && st.log.contains_key(&2));
        assert!(!st.log.contains_key(&3) && !st.log.contains_key(&5));
    }

    // truncate_after(None) removes the WHOLE log and, given a stale high floor, clears it to
    // None — the reform-to-zero path.
    {
        let st = s.state.write();
        st.last_purged_log_id = Some(lid(1, 9000));
    }
    s.truncate_after(None).unwrap();
    let st = s.state.read();
    assert!(st.log.is_empty(), "truncate_after(None) must clear the log");
    assert!(
        st.last_purged_log_id.is_none(),
        "truncate_after(None) must clear a stale high purge floor so a fresh low backfill is accepted"
    );
}
#[test]
fn append_does_not_move_existing_purge_floor() {
    let v1 = ip4(10, 0, 0, 1);
    let mut s = storage(&[v1], 3);
    s.purge_logs_upto(lid(1, 9)).unwrap();
    // Backfill above the floor: existing floor (9) must be preserved, not reseeded to 11.
    s.append_to_log([health_entry(12, 1, true)]).unwrap();
    assert_eq!(
        s.get_log_state()
            .unwrap()
            .last_purged_log_id
            .map(|l| l.index),
        Some(9),
        "an existing purge floor must not be moved by a later append"
    );
}
fn snapshot_with_blocked_node(vips: &[IpAddr]) -> (SnapshotMeta, KafSnapshot) {
    let mut src = storage_failback(vips, 3, false);
    src.apply_to_state_machine(&[membership_entry(1, &[1, 2])])
        .unwrap();
    src.apply_to_state_machine(&[health_entry(2, 1, true)])
        .unwrap();
    // Node 1 goes unhealthy: with failback: false it is permanently blocked.
    src.apply_to_state_machine(&[health_entry(3, 1, false)])
        .unwrap();
    assert!(
        src.state.read().node_failback_blocked.contains(&1),
        "precondition: source snapshot must carry a blocked node"
    );
    let builder = src.get_snapshot_builder();
    let snap = builder.build_snapshot().unwrap();
    let meta = snap.meta;
    let bytes = snap.snapshot;
    (meta, bytes)
}
#[test]
fn install_snapshot_clears_failback_blocked_when_local_failback_true() {
    let v1 = ip4(10, 0, 0, 1);
    let mut restored = storage_failback(&[v1], 3, true);

    let (meta, bytes) = snapshot_with_blocked_node(&[v1]);
    restored
        .install_snapshot(&meta, bytes)
        .unwrap();

    let st = restored.state.read();
    assert!(
        st.node_failback_blocked.is_empty(),
        "a failback: true node must not adopt a blocked set, got {:?}",
        st.node_failback_blocked
    );
}
#[test]
fn install_snapshot_keeps_failback_blocked_when_local_failback_false() {
    let v1 = ip4(10, 0, 0, 1);
    let mut restored = storage_failback(&[v1], 3, false);

    let (meta, bytes) = snapshot_with_blocked_node(&[v1]);
    restored
        .install_snapshot(&meta, bytes)
        .unwrap();

    let st = restored.state.read();
    assert!(
        st.node_failback_blocked.contains(&1),
        "a failback: false node must retain the snapshot's blocked set"
    );
}

fn cluster_formed_entry(index: u64, cluster_id: u128) -> Entry {
    normal(1, index, KafRequest::ClusterFormed { cluster_id })
}

#[test]
fn apply_moves_only_the_orphaned_vip_and_keeps_survivors_sticky() {
    // Minimal-movement through the committed-state feedback loop: apply_to_state_machine reads
    // the committed vip_assignments back in as current_holders, so a topology change must move
    // only the orphaned VIP and keep every still-eligible holder (and its generation) stable.
    let v0 = ip4(10, 0, 0, 1);
    let v1 = ip4(10, 0, 0, 2);
    let v2 = ip4(10, 0, 0, 3);
    let mut s = storage(&[v0, v1, v2], 3);

    s.apply_to_state_machine(&[membership_entry(1, &[1, 2, 3])])
        .unwrap();
    for (i, node) in [1_u64, 2, 3].iter().enumerate() {
        s.apply_to_state_machine(&[health_entry(2 + i as u64, *node, true)])
            .unwrap();
    }

    // Once all three are eligible each node holds exactly one VIP. Read the baseline
    // dynamically (applying health one entry at a time produces intermediate rebalances).
    let mut base: Vec<(IpAddr, VipAssignment)> = Vec::new();
    for vip in [v0, v1, v2] {
        base.push((vip, assignment_of(&s, vip).unwrap()));
    }
    let holders: BTreeSet<u64> = base.iter().map(|(_, a)| a.holder).collect();
    assert_eq!(holders, BTreeSet::from([1, 2, 3]), "one VIP per node");

    // Node 3 stops publishing; the VIP it holds is the orphan, the other two are survivors.
    let (orphan_vip, orphan_base) = base
        .iter()
        .find(|(_, a)| a.holder == 3)
        .map(|(ip, a)| (*ip, a.clone()))
        .expect("node 3 holds one VIP");
    let survivors: Vec<(IpAddr, VipAssignment)> = base
        .iter()
        .filter(|(_, a)| a.holder != 3)
        .map(|(ip, a)| (*ip, a.clone()))
        .collect();

    let mut idx = 5;
    for _ in 0..6 {
        s.apply_to_state_machine(&[health_entry(idx, 1, true)])
            .unwrap();
        idx += 1;
        s.apply_to_state_machine(&[health_entry(idx, 2, true)])
            .unwrap();
        idx += 1;
    }

    // Survivors keep their VIPs and never bump generation (stickiness, no spurious handoff).
    for (vip, base_a) in &survivors {
        let now = assignment_of(&s, *vip).unwrap();
        assert_eq!(now.holder, base_a.holder, "survivor VIP must not move");
        assert_eq!(
            now.generation, base_a.generation,
            "survivor generation must not bump"
        );
    }

    // Only the orphaned VIP moves off the stale node; generation bumps, previous holder recorded.
    let moved = assignment_of(&s, orphan_vip).unwrap();
    assert_ne!(moved.holder, 3, "orphaned VIP must leave the stale node");
    assert!(moved.holder == 1 || moved.holder == 2);
    assert_eq!(moved.previous_holder, Some(3));
    assert!(moved.generation > orphan_base.generation);
}

#[test]
fn cluster_formed_sets_epoch_once_first_write_wins() {
    // The cluster incarnation is set-once at the replicated state-machine level: the first
    // committed ClusterFormed wins and later ones (e.g. a second leader that committed before
    // observing the first) are ignored, so every node converges on the same value.
    let mut s = storage(&[ip4(10, 0, 0, 1)], 3);
    assert_eq!(s.state.read().cluster_epoch, None);

    s.apply_to_state_machine(&[cluster_formed_entry(1, 111)])
        .unwrap();
    assert_eq!(s.state.read().cluster_epoch, Some(111));

    s.apply_to_state_machine(&[cluster_formed_entry(2, 222)])
        .unwrap();
    assert_eq!(s.state.read().cluster_epoch, Some(111));
}

#[test]
fn a_snapshot_before_anything_was_applied_is_refused() {
    let s = storage(&[ip4(10, 0, 0, 1)], 3);
    let err = s.build_snapshot().err().unwrap();
    assert_eq!(err, SnapshotError::NoAppliedLogs);
    assert_eq!(err.message(), "no applied logs");
    assert!(s.get_current_snapshot().unwrap().is_none());
}

#[test]
fn a_snapshot_is_named_after_its_log_id() {
    let mut s = storage(&[ip4(10, 0, 0, 1)], 3);
    s.apply_to_state_machine(&[health_entry_term(2, 2, 1, true)]).unwrap();
    assert_eq!(s.build_snapshot().unwrap().meta.snapshot_id, "snapshot-T2-N0.2");
}

#[test]
fn snapshot_and_rest_equal_the_whole_log() {
    let vips = [ip4(10, 0, 0, 1), ip4(10, 0, 0, 2)];
    let entries = [
        membership_entry(1, &[1, 2]),
        cluster_formed_entry(2, 77),
        health_entry(3, 1, true),
        health_entry(4, 2, true),
        health_entry(5, 1, false),
        release_entry(6, 1, vips[0], 2),
        health_entry(7, 1, true),
    ];
    let mut whole = storage(&vips, 3);
    whole.apply_to_state_machine(&entries).unwrap();
    for at in 1..=entries.len() {
        let mut first = storage(&vips, 3);
        first.apply_to_state_machine(&entries[..at]).unwrap();
        let image = first.build_snapshot().unwrap();
        let mut late = storage(&vips, 3);
        late.install_snapshot(&image.meta, image.snapshot).unwrap();
        late.apply_to_state_machine(&entries[at..]).unwrap();
        let (a, b) = (whole.state.read(), late.state.read());
        assert_eq!(a.last_applied_log, b.last_applied_log);
        assert_eq!(a.node_health, b.node_health);
        assert_eq!(a.node_probe_ticks, b.node_probe_ticks);
        assert_eq!(a.latest_probe_tick, b.latest_probe_tick);
        assert_eq!(a.node_recovery_tick, b.node_recovery_tick);
        assert_eq!(a.cluster_epoch, b.cluster_epoch);
        assert_eq!(assignments(a), assignments(b));
        assert_eq!(a.vip_generation.keys(), b.vip_generation.keys());
    }
}

#[test]
fn a_failed_node_without_failback_stays_out() {
    let vip = ip4(10, 0, 0, 1);
    let mut s = storage_failback(&[vip], 3, false);
    s.apply_to_state_machine(&[membership_entry(1, &[1, 2]), health_entry(2, 1, true), health_entry(3, 2, true)]).unwrap();
    assert_eq!(assignment_of(&s, vip).unwrap().holder, 1);
    s.apply_to_state_machine(&[health_entry(4, 1, false)]).unwrap();
    assert_eq!(assignment_of(&s, vip).unwrap().holder, 2);
    s.apply_to_state_machine(&[health_entry(5, 1, true), health_entry(6, 2, false)]).unwrap();
    assert!(s.state.read().node_failback_blocked.contains(&1));
    assert_eq!(assignment_of(&s, vip), None);
}

#[test]
fn a_recovered_node_waits_out_the_failback_delay() {
    let vip = ip4(10, 0, 0, 1);
    let list = vec![(VipAddr::host(vip), "lo".to_string())];
    let mut s = TestStore { state: Handle(KafStorageState::new(list, 3, true, 2)) };
    s.apply_to_state_machine(&[membership_entry(1, &[1]), health_entry(2, 1, true), health_entry(3, 1, false)]).unwrap();
    assert_eq!(assignment_of(&s, vip), None);
    s.apply_to_state_machine(&[health_entry(4, 1, true)]).unwrap();
    assert_eq!(s.state.read().node_recovery_tick[&1], 3);
    assert_eq!(assignment_of(&s, vip), None);
    s.apply_to_state_machine(&[health_entry(5, 1, true)]).unwrap();
    assert_eq!(assignment_of(&s, vip), None);
    s.apply_to_state_machine(&[health_entry(6, 1, true)]).unwrap();
    assert_eq!(assignment_of(&s, vip).unwrap().holder, 1);
}

#[test]
fn an_entry_is_read_back_as_it_was_appended() {
    let mut s = storage(&[ip4(10, 0, 0, 1)], 3);
    s.append_to_log([
        health_entry(1, 7, true),
        membership_entry(2, &[1, 2]),
        Entry { log_id: lid(1, 3), payload: EntryPayload::Blank },
    ])
    .unwrap();
    let all = s.try_get_log_entries(IndexBound::Unbounded, IndexBound::Unbounded).unwrap();
    assert_eq!(all.iter().map(|e| e.log_id).collect::<Vec<_>>(), [lid(1, 1), lid(1, 2), lid(1, 3)]);
    assert!(matches!(all[0].payload, EntryPayload::Normal(KafRequest::HealthUpdate { node_id: 7, healthy: true })));
    assert!(matches!(&all[1].payload, EntryPayload::Membership(m) if m.configs == [[1, 2]]));
    assert!(matches!(all[2].payload, EntryPayload::Blank));
    let some = s.try_get_log_entries(IndexBound::Excluded(1), IndexBound::Excluded(3)).unwrap();
    assert_eq!(some.iter().map(|e| e.log_id.index).collect::<Vec<_>>(), [2]);
    assert!(s.try_get_log_entries(IndexBound::Excluded(2), IndexBound::Excluded(2)).unwrap().is_empty());
    assert!(s.try_get_log_entries(IndexBound::Included(1), IndexBound::Excluded(0)).unwrap().is_empty());
    assert!(s.try_get_log_entries(IndexBound::Excluded(u64::MAX), IndexBound::Unbounded).unwrap().is_empty());
}

#[test]
fn truncating_after_the_greatest_index_keeps_the_log() {
    let mut s = storage(&[ip4(10, 0, 0, 1)], 3);
    s.append_to_log([health_entry(1, 1, true), health_entry(u64::MAX, 1, true)]).unwrap();
    s.truncate_after(Some(lid(1, u64::MAX))).unwrap();
    assert_eq!(s.state.read().log.keys(), [1, u64::MAX]);
}

#[test]
fn a_default_snapshot_is_blank() {
    let snapshot = KafSnapshot::default();
    assert_eq!(snapshot.last_applied, None);
    assert_eq!(snapshot.latest_probe_tick, 0);
    assert!(snapshot.vip_assignments.is_empty() && snapshot.node_health.is_empty());
    assert_eq!(snapshot.clone().cluster_epoch, None);
}

#[test]
fn a_new_holder_waits_until_the_old_one_has_released() {
    let vips = [ip4(10, 0, 0, 1), ip4(10, 0, 0, 2)];
    let mut s = storage(&vips, 3);
    s.apply_to_state_machine(&[membership_entry(1, &[1, 2]), health_entry(2, 1, true)]).unwrap();
    assert_eq!(assignment_of(&s, vips[1]).unwrap().holder, 1);
    // Node 2 joins in: one VIP moves to it while node 1 stays eligible.
    s.apply_to_state_machine(&[health_entry(3, 2, true), health_entry(4, 1, true), health_entry(5, 2, true)]).unwrap();
    let moved = assignment_of(&s, vips[1]).unwrap();
    assert_eq!((moved.holder, moved.previous_holder, moved.generation), (2, Some(1), 2));
    assert!(!wants_bind(s.state.read(), true, true, true, 2, vips[1]));
    s.apply_to_state_machine(&[release_entry(6, 1, vips[1], 1)]).unwrap();
    assert!(!wants_bind(s.state.read(), true, true, true, 2, vips[1]));
    s.apply_to_state_machine(&[release_entry(7, 1, vips[1], 2)]).unwrap();
    assert!(wants_bind(s.state.read(), true, true, true, 2, vips[1]));
    assert!(!wants_bind(s.state.read(), true, true, true, 1, vips[1]));
}

#[test]
fn the_vip_list_is_never_touched() {
    let list = || vec![(VipAddr { addr: ip4(10, 0, 0, 9), prefix: 24 }, "eth7".to_string())];
    let mut state = KafStorageState::new(list(), 3, true, 0);
    KafStateMachine::apply_one(&mut state, &membership_entry(1, &[1, 2]));
    KafStateMachine::apply_one(&mut state, &health_entry_term(1, 2, 1, true));
    KafStateMachine::apply_one(&mut state, &normal(1, 3, KafRequest::ClusterFormed { cluster_id: 5 }));
    let released = KafRequest::VipReleased { node_id: 2, vip: ip4(10, 0, 0, 9), generation: 1 };
    KafStateMachine::apply_entries(&mut state, &[normal(1, 4, released)]);
    assert_eq!(state.vip_list, list());
    let (snapshot, _) = KafStateMachine::build_snapshot(&state).unwrap();
    KafStateMachine::install_snapshot(&mut state, snapshot);
    KafLogStore::append(&mut state, vec![health_entry_term(1, 5, 1, true), health_entry_term(1, 6, 1, true)]);
    KafLogStore::save_vote(&mut state, Vote { term: 1, node_id: 2, committed: true });
    KafLogStore::save_committed(&mut state, Some(lid(1, 5)));
    KafLogStore::truncate_after(&mut state, Some(lid(1, 5)));
    KafLogStore::purge(&mut state, lid(1, 5));
    assert_eq!(state.vip_list, list());
}
