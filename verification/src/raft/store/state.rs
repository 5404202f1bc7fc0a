//! Shared in-memory Raft state plus its snapshot.
//!
//! VIP ownership is recomputed from the committed membership, the committed health flags, a
//! per-node committed probe counter, the largest committed probe round observed anywhere in the
//! cluster, and the configured VIP list. Every input is either fixed at startup or replicated in
//! the log, so every node that has applied the same committed prefix holds the same holder map.

use vstd::prelude::*;

use std::collections::{HashMap, HashSet};

use crate::addr::IpAddr;
use crate::config::VipAddr;
use crate::ordmap::{AddrMap, OrdMap};
use crate::raft::types::{
    Entry, EntryView, LogId, Membership, MembershipView, StoredMembership, StoredMembershipView, Vote,
};
use crate::text::{decimal, push_text};

verus! {

/// One additional committed probe round must pass after a holder change before a replacement
/// owner may bind if it is taking over from an ineligible node without an explicit release ack.
pub const OWNERSHIP_ACTIVATION_HOLDOFF_TICKS: u64 = 1;

/// Committed VIP assignment with enough fencing metadata to drive safe local bind decisions.
#[derive(Debug, Clone, Copy, PartialEq, Eq, Structural)]
pub struct VipAssignment {
    /// Current committed holder for this VIP.
    pub holder: u64,
    /// Monotonic generation bumped every time the committed holder changes.
    pub generation: u64,
    /// The holder from the immediately previous generation, if any.
    pub previous_holder: Option<u64>,
    /// Whether the previous holder has committed a matching release ack.
    pub previous_holder_released: bool,
    /// The cluster-wide committed probe round after which the replacement holder may activate if
    /// it is waiting on an ineligible previous holder rather than an explicit release ack.
    pub activation_tick: u64,
}

/// The replicated part of the state: what a snapshot carries.
#[verifier::ext_equal]
pub struct Replicated {
    pub last_applied: Option<LogId>,
    pub last_membership: StoredMembershipView,
    pub node_health: Map<u64, bool>,
    pub node_probe_ticks: Map<u64, u64>,
    pub latest_probe_tick: u64,
    pub vip_assignments: Map<IpAddr, VipAssignment>,
    pub vip_generation: Map<IpAddr, u64>,
    pub cluster_epoch: Option<u128>,
    pub node_recovery_tick: Map<u64, u64>,
    pub node_failback_blocked: Set<u64>,
}

/// The part of the state that comes from the local configuration and must be the same on every
/// member.
#[verifier::ext_equal]
pub struct Settings {
    pub vips: Seq<IpAddr>,
    pub stale_missed_probes: u64,
    pub failback: bool,
    pub failback_delay_ticks: u64,
}

/// All that the storage holds.
#[verifier::ext_equal]
pub struct StorageView {
    pub last_purged: Option<LogId>,
    pub log: Map<u64, EntryView>,
    pub vote: Option<Vote>,
    pub committed: Option<LogId>,
    pub replicated: Replicated,
    pub settings: Settings,
    pub current_snapshot: Option<Replicated>,
}

/// Snapshot of the VIP daemon state machine.
pub struct KafSnapshot {
    pub last_applied: Option<LogId>,
    pub last_membership: StoredMembership,
    pub node_health: HashMap<u64, bool>,
    /// Per-node committed probe round. On every applied health update it advances by one but never
    /// trails the cluster frontier.
    pub node_probe_ticks: HashMap<u64, u64>,
    /// Maximum committed probe round observed across all nodes.
    pub latest_probe_tick: u64,
    /// Committed fenced assignment state per VIP.
    pub vip_assignments: AddrMap<VipAssignment>,
    /// Last generation number used per VIP, including removed assignments.
    pub vip_generation: AddrMap<u64>,
    /// Per-formation cluster incarnation, `None` until the first leader commits it.
    pub cluster_epoch: Option<u128>,
    /// Probe round at which a node first reported healthy after a prior unhealthy period.
    pub node_recovery_tick: HashMap<u64, u64>,
    /// Nodes blocked from eligibility until the cluster is formed anew (`failback: false`).
    pub node_failback_blocked: HashSet<u64>,
}

impl View for KafSnapshot {
    type V = Replicated;

    open spec fn view(&self) -> Replicated {
        Replicated {
            last_applied: self.last_applied,
            last_membership: self.last_membership@,
            node_health: self.node_health@,
            node_probe_ticks: self.node_probe_ticks@,
            latest_probe_tick: self.latest_probe_tick,
            vip_assignments: self.vip_assignments@,
            vip_generation: self.vip_generation@,
            cluster_epoch: self.cluster_epoch,
            node_recovery_tick: self.node_recovery_tick@,
            node_failback_blocked: self.node_failback_blocked@,
        }
    }
}

/// The same ids again.
fn copy_ids(ids: &HashSet<u64>) -> (copy: HashSet<u64>)
    ensures
        copy@ == ids@,
{
    broadcast use vstd::std_specs::hash::group_hash_axioms;

    let mut copy: HashSet<u64> = HashSet::new();
    for id in it: ids.iter()
        invariant
            it.seq().unref().to_set() == ids@,
            copy@ == it.seq().unref().take(it.index()).to_set(),
            it.index() == it.seq().len() ==> copy@ == ids@,
    {
        copy.insert(*id);
        proof {
            let all = it.seq().unref();
            let (before, after) = (all.take(it.index()), all.take(it.index() + 1));
            assert(after =~= before.push(*id));
            assert forall|x: u64| after.contains(x) == (before.contains(x) || x == *id) by {
                if before.contains(x) {
                    assert(after[before.index_of(x)] == x);
                }
                assert(after[before.len() as int] == *id);
            }
            assert(after.to_set() =~= before.to_set().insert(*id));
            assert(all.take(all.len() as int) =~= all);
        }
    }
    copy
}

impl Clone for KafSnapshot {
    fn clone(&self) -> (copy: Self)
        ensures
            copy@ == self@,
    {
        KafSnapshot {
            last_applied: self.last_applied,
            last_membership: self.last_membership.clone(),
            node_health: self.node_health.clone(),
            node_probe_ticks: self.node_probe_ticks.clone(),
            latest_probe_tick: self.latest_probe_tick,
            vip_assignments: self.vip_assignments.copied(),
            vip_generation: self.vip_generation.copied(),
            cluster_epoch: self.cluster_epoch,
            node_recovery_tick: self.node_recovery_tick.clone(),
            node_failback_blocked: copy_ids(&self.node_failback_blocked),
        }
    }
}

impl Default for KafSnapshot {
    fn default() -> (snapshot: Self)
        ensures
            snapshot@ == blank(),
    {
        let snapshot = KafSnapshot {
            last_applied: None,
            last_membership: StoredMembership { log_id: None, membership: Membership::empty() },
            node_health: HashMap::new(),
            node_probe_ticks: HashMap::new(),
            latest_probe_tick: 0,
            vip_assignments: OrdMap::new(),
            vip_generation: OrdMap::new(),
            cluster_epoch: None,
            node_recovery_tick: HashMap::new(),
            node_failback_blocked: HashSet::new(),
        };
        assert(snapshot@ =~= blank());
        snapshot
    }
}

/// What identifies a snapshot.
pub struct SnapshotMeta {
    pub last_log_id: Option<LogId>,
    pub last_membership: StoredMembership,
    pub snapshot_id: String,
}

/// Shared Raft state: the log and the replicated state-machine fields.
///
/// `vip_list`, `stale_missed_probes`, `failback` and `failback_delay_ticks` come from the local
/// configuration and never enter the log; they must be identical on every member.
pub struct KafStorageState {
    pub last_purged_log_id: Option<LogId>,
    pub log: OrdMap<u64, Entry>,
    pub vote: Option<Vote>,
    /// Highest committed log id, as saved by the consensus layer.
    pub committed: Option<LogId>,
    pub last_applied_log: Option<LogId>,
    pub last_membership: StoredMembership,
    pub node_health: HashMap<u64, bool>,
    pub node_probe_ticks: HashMap<u64, u64>,
    pub latest_probe_tick: u64,
    pub vip_assignments: AddrMap<VipAssignment>,
    pub vip_generation: AddrMap<u64>,
    /// Per-formation cluster incarnation; `None` until the first leader commits it.
    pub cluster_epoch: Option<u128>,
    pub vip_list: Vec<(VipAddr, String)>,
    pub stale_missed_probes: u64,
    /// Whether a recovered node may reclaim VIPs.
    pub failback: bool,
    /// Minimum committed probe rounds a recovered node must accumulate before it is eligible for
    /// VIP assignment again. Zero means immediate re-eligibility on recovery.
    pub failback_delay_ticks: u64,
    /// Probe round when a node first became healthy after an unhealthy period.
    pub node_recovery_tick: HashMap<u64, u64>,
    /// Nodes ineligible until the cluster is formed anew. Only populated when `failback` is
    /// `false`.
    pub node_failback_blocked: HashSet<u64>,
    pub current_snapshot: Option<KafSnapshot>,
}

impl View for KafStorageState {
    type V = StorageView;

    open spec fn view(&self) -> StorageView {
        StorageView {
            last_purged: self.last_purged_log_id,
            log: self.log@.map_values(|e: Entry| e@),
            vote: self.vote,
            committed: self.committed,
            replicated: Replicated {
                last_applied: self.last_applied_log,
                last_membership: self.last_membership@,
                node_health: self.node_health@,
                node_probe_ticks: self.node_probe_ticks@,
                latest_probe_tick: self.latest_probe_tick,
                vip_assignments: self.vip_assignments@,
                vip_generation: self.vip_generation@,
                cluster_epoch: self.cluster_epoch,
                node_recovery_tick: self.node_recovery_tick@,
                node_failback_blocked: self.node_failback_blocked@,
            },
            settings: Settings {
                vips: self.vip_list@.map_values(|v: (VipAddr, String)| v.0.addr),
                stale_missed_probes: self.stale_missed_probes,
                failback: self.failback,
                failback_delay_ticks: self.failback_delay_ticks,
            },
            current_snapshot: match self.current_snapshot {
                Some(snapshot) => Some(snapshot@),
                None => None,
            },
        }
    }
}

/// Nothing applied yet.
pub open spec fn blank() -> Replicated {
    Replicated {
        last_applied: None,
        last_membership: StoredMembershipView {
            log_id: None,
            membership: MembershipView { configs: Seq::empty(), nodes: Seq::empty() },
        },
        node_health: Map::empty(),
        node_probe_ticks: Map::empty(),
        latest_probe_tick: 0,
        vip_assignments: Map::empty(),
        vip_generation: Map::empty(),
        cluster_epoch: None,
        node_recovery_tick: Map::empty(),
        node_failback_blocked: Set::empty(),
    }
}

/// The text of a log id: `T<term>-N<node>.<index>`.
pub open spec fn log_id_text(id: LogId) -> Seq<char> {
    "T"@ + decimal(id.term as nat) + "-N"@ + decimal(id.node_id as nat) + "."@ + decimal(id.index as nat)
}

/// [`openraft::LogId`] writes itself as its leader id, a dot and its index, and the leader id as
/// `T`, the term, `-N` and the node id, all numbers in decimal.
#[verifier::external_body]
fn display_log_id(id: &LogId) -> (text: String)
    ensures
        text@ == log_id_text(*id),
{
    let leader_id = openraft::impls::leader_id_adv::LeaderId::<u64, u64> { term: id.term, node_id: id.node_id };
    openraft::LogId::new(leader_id, id.index).to_string()
}

/// Identity of the snapshot taken at a log id.
pub open spec fn snapshot_id_at(id: LogId) -> Seq<char> {
    "snapshot-"@ + log_id_text(id)
}

impl KafStorageState {
    /// Capture the current replicated state anchored at `last_applied`.
    ///
    /// The snapshot id names the full log id, not the index alone, so two snapshots taken at the
    /// same index in different terms are told apart.
    pub fn snapshot_at(&self, last_applied: LogId) -> (image: (KafSnapshot, SnapshotMeta))
        ensures
            image.0@ == (Replicated { last_applied: Some(last_applied), ..self@.replicated }),
            image.1.last_log_id == Some(last_applied),
            image.1.last_membership@ == self@.replicated.last_membership,
            image.1.snapshot_id@ == snapshot_id_at(last_applied),
    {
        let snapshot = KafSnapshot {
            last_applied: Some(last_applied),
            last_membership: self.last_membership.clone(),
            node_health: self.node_health.clone(),
            node_probe_ticks: self.node_probe_ticks.clone(),
            latest_probe_tick: self.latest_probe_tick,
            vip_assignments: self.vip_assignments.copied(),
            vip_generation: self.vip_generation.copied(),
            cluster_epoch: self.cluster_epoch,
            node_recovery_tick: self.node_recovery_tick.clone(),
            node_failback_blocked: copy_ids(&self.node_failback_blocked),
        };
        let mut snapshot_id = String::new();
        push_text(&mut snapshot_id, "snapshot-");
        push_text(&mut snapshot_id, display_log_id(&last_applied).as_str());
        assert(snapshot_id@ =~= snapshot_id_at(last_applied));
        let meta = SnapshotMeta {
            last_log_id: Some(last_applied),
            last_membership: self.last_membership.clone(),
            snapshot_id,
        };
        (snapshot, meta)
    }

    /// An empty state with the given VIP list, probe staleness window and failback settings.
    pub fn new(
        vip_list: Vec<(VipAddr, String)>,
        stale_missed_probes: u64,
        failback: bool,
        failback_delay_ticks: u64,
    ) -> (state: Self)
        ensures
            state.vip_list == vip_list,
            state@ == (StorageView {
                last_purged: None,
                log: Map::empty(),
                vote: None,
                committed: None,
                replicated: blank(),
                settings: Settings {
                    vips: vip_list@.map_values(|v: (VipAddr, String)| v.0.addr),
                    stale_missed_probes,
                    failback,
                    failback_delay_ticks,
                },
                current_snapshot: None,
            }),
    {
        let state = KafStorageState {
            last_purged_log_id: None,
            log: OrdMap::new(),
            vote: None,
            committed: None,
            last_applied_log: None,
            last_membership: StoredMembership { log_id: None, membership: Membership::empty() },
            node_health: HashMap::new(),
            node_probe_ticks: HashMap::new(),
            latest_probe_tick: 0,
            vip_assignments: OrdMap::new(),
            vip_generation: OrdMap::new(),
            cluster_epoch: None,
            vip_list,
            stale_missed_probes,
            failback,
            failback_delay_ticks,
            node_recovery_tick: HashMap::new(),
            node_failback_blocked: HashSet::new(),
            current_snapshot: None,
        };
        assert(state@.log =~= Map::<u64, EntryView>::empty());
        assert(state@.replicated =~= blank());
        state
    }
}

} // verus!
