//! Replicated commands and the plain form of what the consensus layer hands over.

use vstd::prelude::*;

use crate::addr::{ip_text, IpAddr};
use crate::text::{decimal, push_decimal, push_text};

verus! {

/// Commands replicated through Raft and applied to the state machine.
#[derive(Debug, Clone, Copy, PartialEq, Eq, Structural)]
pub enum KafRequest {
    /// Local health result for `node_id`. Each daemon publishes updates only for itself.
    HealthUpdate { node_id: u64, healthy: bool },
    /// Acknowledgement from the previous holder after it has removed `vip` from the local kernel.
    /// `generation` fences delayed acks from older handoff attempts.
    VipReleased { node_id: u64, vip: IpAddr, generation: u64 },
    /// Per-formation cluster incarnation. The first committed value wins.
    ClusterFormed { cluster_id: u128 },
}

impl KafRequest {
    /// The member that originated this request, if the command is node-scoped.
    pub fn node_id(&self) -> (id: Option<u64>)
        ensures
            id == self.origin(),
    {
        match self {
            KafRequest::HealthUpdate { node_id, .. } => Some(*node_id),
            KafRequest::VipReleased { node_id, .. } => Some(*node_id),
            KafRequest::ClusterFormed { .. } => None,
        }
    }

    /// What is written of a command in logs.
    pub open spec fn text(self) -> Seq<char> {
        match self {
            KafRequest::HealthUpdate { node_id, healthy } => "HealthUpdate(node="@ + decimal(node_id as nat) + ", healthy="@
                + (if healthy { "true"@ } else { "false"@ }) + ")"@,
            KafRequest::VipReleased { node_id, vip, generation } => "VipReleased(node="@ + decimal(node_id as nat) + ", vip="@
                + ip_text(vip) + ", gen="@ + decimal(generation as nat) + ")"@,
            KafRequest::ClusterFormed { cluster_id } => "ClusterFormed(id="@ + decimal(cluster_id as nat) + ")"@,
        }
    }

    /// The command as a line of text.
    pub fn to_string(&self) -> (s: String)
        ensures
            s@ == self.text(),
    {
        let mut s = String::new();
        match self {
            KafRequest::HealthUpdate { node_id, healthy } => {
                push_text(&mut s, "HealthUpdate(node=");
                push_decimal(&mut s, *node_id as u128);
                push_text(&mut s, ", healthy=");
                push_text(&mut s, if *healthy { "true" } else { "false" });
                push_text(&mut s, ")");
            },
            KafRequest::VipReleased { node_id, vip, generation } => {
                push_text(&mut s, "VipReleased(node=");
                push_decimal(&mut s, *node_id as u128);
                push_text(&mut s, ", vip=");
                vip.push_to(&mut s);
                push_text(&mut s, ", gen=");
                push_decimal(&mut s, *generation as u128);
                push_text(&mut s, ")");
            },
            KafRequest::ClusterFormed { cluster_id } => {
                push_text(&mut s, "ClusterFormed(id=");
                push_decimal(&mut s, *cluster_id);
                push_text(&mut s, ")");
            },
        }
        assert(s@ =~= self.text());
        s
    }

    /// The node a command speaks for: none for the cluster-wide `ClusterFormed`.
    pub open spec fn origin(self) -> Option<u64> {
        match self {
            KafRequest::HealthUpdate { node_id, .. } => Some(node_id),
            KafRequest::VipReleased { node_id, .. } => Some(node_id),
            KafRequest::ClusterFormed { .. } => None,
        }
    }
}

/// Response returned after applying one log entry.
#[derive(Debug, Clone, Copy, PartialEq, Eq, Structural)]
pub enum KafResponse {
    /// The entry has been applied.
    Applied,
}

/// Position in the replicated log: the leader that wrote the entry, and its index.
#[derive(Debug, Clone, Copy, PartialEq, Eq, Structural)]
pub struct LogId {
    pub term: u64,
    pub node_id: u64,
    pub index: u64,
}

/// A ballot: who was voted for in which term, and whether a quorum granted it.
#[derive(Debug, Clone, Copy, PartialEq, Eq, Structural)]
pub struct Vote {
    pub term: u64,
    pub node_id: u64,
    pub committed: bool,
}

/// Cluster membership: one voter set, or two while a change is under way, and the address of
/// every voter and learner.
#[derive(Debug)]
pub struct Membership {
    pub configs: Vec<Vec<u64>>,
    pub nodes: Vec<(u64, String)>,
}

/// What a [`Membership`] says.
#[verifier::ext_equal]
pub struct MembershipView {
    pub configs: Seq<Seq<u64>>,
    pub nodes: Seq<(u64, Seq<char>)>,
}

/// All voters of all voter sets, in the order listed.
pub open spec fn voters(configs: Seq<Seq<u64>>) -> Seq<u64>
    decreases configs.len(),
{
    if configs.len() == 0 {
        Seq::empty()
    } else {
        voters(configs.drop_last()) + configs.last()
    }
}

impl View for Membership {
    type V = MembershipView;

    open spec fn view(&self) -> MembershipView {
        MembershipView {
            configs: self.configs@.map_values(|c: Vec<u64>| c@),
            nodes: self.nodes@.map_values(|n: (u64, String)| (n.0, n.1@)),
        }
    }
}

impl Clone for Membership {
    fn clone(&self) -> (copy: Self)
        ensures
            copy@ == self@,
    {
        let mut configs: Vec<Vec<u64>> = Vec::new();
        let mut i: usize = 0;
        while i < self.configs.len()
            invariant
                i <= self.configs@.len(),
                configs@.len() == i,
                forall|j: int| 0 <= j < i ==> (#[trigger] configs@[j])@ == self.configs@[j]@,
            decreases self.configs@.len() - i,
        {
            let config = self.configs[i].clone();
            assert(config@ =~= self.configs@[i as int]@);
            configs.push(config);
            i += 1;
        }
        let mut nodes: Vec<(u64, String)> = Vec::new();
        let mut k: usize = 0;
        while k < self.nodes.len()
            invariant
                k <= self.nodes@.len(),
                nodes@.len() == k,
                forall|j: int| 0 <= j < k ==> (#[trigger] nodes@[j]).0 == self.nodes@[j].0 && nodes@[j].1@ == self.nodes@[j].1@,
            decreases self.nodes@.len() - k,
        {
            nodes.push((self.nodes[k].0, self.nodes[k].1.clone()));
            k += 1;
        }
        let copy = Membership { configs, nodes };
        assert(copy@ =~~= self@);
        copy
    }
}

impl Membership {
    /// No voter and no learner.
    pub fn empty() -> (m: Self)
        ensures
            m@ == (MembershipView { configs: Seq::empty(), nodes: Seq::empty() }),
    {
        let m = Membership { configs: Vec::new(), nodes: Vec::new() };
        assert(m@ =~~= MembershipView { configs: Seq::empty(), nodes: Seq::empty() });
        m
    }

    /// Every voter of every voter set.
    pub fn voter_ids(&self) -> (ids: Vec<u64>)
        ensures
            ids@ == voters(self@.configs),
    {
        let mut ids: Vec<u64> = Vec::new();
        let mut i: usize = 0;
        assert(self@.configs.take(0) =~= Seq::empty());
        while i < self.configs.len()
            invariant
                i <= self.configs@.len(),
                ids@ == voters(self@.configs.take(i as int)),
            decreases self.configs@.len() - i,
        {
            let ghost before = ids@;
            let config = &self.configs[i];
            let mut j: usize = 0;
            while j < config.len()
                invariant
                    j <= config@.len(),
                    ids@ == before + config@.take(j as int),
                decreases config@.len() - j,
            {
                ids.push(config[j]);
                j += 1;
                assert(config@.take(j as int) =~= config@.take(j - 1).push(config@[j - 1]));
                assert(ids@ =~= before + config@.take(j as int));
            }
            assert(config@.take(j as int) =~= config@);
            i += 1;
            assert(self@.configs.take(i as int).drop_last() =~= self@.configs.take(i - 1));
            assert(self@.configs.take(i as int).last() == config@);
        }
        assert(self@.configs.take(i as int) =~= self@.configs);
        ids
    }
}

/// Membership together with the log entry that set it.
#[derive(Debug)]
pub struct StoredMembership {
    pub log_id: Option<LogId>,
    pub membership: Membership,
}

/// What a [`StoredMembership`] says.
#[verifier::ext_equal]
pub struct StoredMembershipView {
    pub log_id: Option<LogId>,
    pub membership: MembershipView,
}

impl View for StoredMembership {
    type V = StoredMembershipView;

    open spec fn view(&self) -> StoredMembershipView {
        StoredMembershipView { log_id: self.log_id, membership: self.membership@ }
    }
}

impl Clone for StoredMembership {
    fn clone(&self) -> (copy: Self)
        ensures
            copy@ == self@,
    {
        StoredMembership { log_id: self.log_id, membership: self.membership.clone() }
    }
}

/// What a log entry carries.
#[derive(Debug)]
pub enum EntryPayload {
    /// Written by a new leader to commit what came before.
    Blank,
    /// A command for the state machine.
    Normal(KafRequest),
    /// A membership change.
    Membership(Membership),
}

/// What an [`EntryPayload`] says.
#[verifier::ext_equal]
pub enum PayloadView {
    Blank,
    Normal(KafRequest),
    Membership(MembershipView),
}

impl View for EntryPayload {
    type V = PayloadView;

    open spec fn view(&self) -> PayloadView {
        match self {
            EntryPayload::Blank => PayloadView::Blank,
            EntryPayload::Normal(request) => PayloadView::Normal(*request),
            EntryPayload::Membership(membership) => PayloadView::Membership(membership@),
        }
    }
}

/// One entry of the replicated log.
#[derive(Debug)]
pub struct Entry {
    pub log_id: LogId,
    pub payload: EntryPayload,
}

/// What an [`Entry`] says.
#[verifier::ext_equal]
pub struct EntryView {
    pub log_id: LogId,
    pub payload: PayloadView,
}

impl View for Entry {
    type V = EntryView;

    open spec fn view(&self) -> EntryView {
        EntryView { log_id: self.log_id, payload: self.payload@ }
    }
}

impl Clone for Entry {
    fn clone(&self) -> (copy: Self)
        ensures
            copy@ == self@,
    {
        let payload = match &self.payload {
            EntryPayload::Blank => EntryPayload::Blank,
            EntryPayload::Normal(request) => EntryPayload::Normal(*request),
            EntryPayload::Membership(membership) => EntryPayload::Membership(membership.clone()),
        };
        Entry { log_id: self.log_id, payload }
    }
}

} // verus!
