//! The VIP bind decision of the reconciliation loop.
//!
//! A node may bind only if Raft reports a current leader, the local health probe is green, the node
//! can still submit to consensus, the committed assignment names this node as the holder, the
//! assignment's activation tick has passed, and either the previous holder has committed a matching
//! release ack or is no longer eligible. The last two fences keep two nodes with different applied
//! views from both binding.

use vstd::prelude::*;

use std::collections::{HashMap, HashSet};

use crate::addr::IpAddr;
use crate::ordmap::AddrMap;
use crate::raft::store::state::VipAssignment;
use crate::raft::store::vip_logic::{eligible, is_node_eligible};

verus! {

/// What has been committed about the nodes, as far as binding depends on it.
pub struct NodeFacts {
    pub node_health: Map<u64, bool>,
    pub node_probe_ticks: Map<u64, u64>,
    pub latest_probe_tick: u64,
    pub stale_missed_probes: u64,
    pub failback_delay_ticks: u64,
    pub node_recovery_tick: Map<u64, u64>,
    pub node_failback_blocked: Set<u64>,
}

/// The node may hold a VIP.
pub open spec fn eligible_by(f: NodeFacts, node_id: u64) -> bool {
    eligible(
        node_id,
        f.node_health,
        f.node_probe_ticks,
        f.latest_probe_tick,
        f.stale_missed_probes,
        f.failback_delay_ticks,
        f.node_recovery_tick,
        f.node_failback_blocked,
    )
}

/// The previous holder is out of the way: there is none, it has released, or it is ineligible.
pub open spec fn previous_holder_gone(f: NodeFacts, a: VipAssignment) -> bool {
    match a.previous_holder {
        None => true,
        Some(previous) => a.previous_holder_released || !eligible_by(f, previous),
    }
}

/// The node should attach the VIP with this assignment.
pub open spec fn binds(
    has_leader: bool,
    local_healthy: bool,
    consensus_fresh: bool,
    node_id: u64,
    assignment: Option<VipAssignment>,
    f: NodeFacts,
) -> bool {
    &&& has_leader && local_healthy && consensus_fresh
    &&& assignment is Some
    &&& assignment->0.holder == node_id
    &&& f.latest_probe_tick >= assignment->0.activation_tick
    &&& previous_holder_gone(f, assignment->0)
}

/// Whether **this** node should attempt to attach the VIP described by `assignment`.
pub fn should_bind_vip(
    has_leader: bool,
    local_healthy: bool,
    consensus_fresh: bool,
    node_id: u64,
    assignment: Option<&VipAssignment>,
    node_health: &HashMap<u64, bool>,
    node_probe_ticks: &HashMap<u64, u64>,
    latest_probe_tick: u64,
    stale_missed_probes: u64,
    failback_delay_ticks: u64,
    node_recovery_tick: &HashMap<u64, u64>,
    node_failback_blocked: &HashSet<u64>,
) -> (b: bool)
    ensures
        b == binds(
            has_leader,
            local_healthy,
            consensus_fresh,
            node_id,
            match assignment { Some(a) => Some(*a), None => None },
            (NodeFacts {
                node_health: node_health@,
                node_probe_ticks: node_probe_ticks@,
                latest_probe_tick,
                stale_missed_probes,
                failback_delay_ticks,
                node_recovery_tick: node_recovery_tick@,
                node_failback_blocked: node_failback_blocked@,
            }),
        ),
{
    if !(has_leader && local_healthy && consensus_fresh) {
        return false;
    }
    let a = match assignment {
        Some(a) => a,
        None => return false,
    };
    if a.holder != node_id || latest_probe_tick < a.activation_tick {
        return false;
    }
    match a.previous_holder {
        None => true,
        Some(previous_holder) => a.previous_holder_released || !is_node_eligible(
            previous_holder,
            node_health,
            node_probe_ticks,
            latest_probe_tick,
            stale_missed_probes,
            failback_delay_ticks,
            node_recovery_tick,
            node_failback_blocked,
        ),
    }
}

/// The flag of a node, `false` where it has none.
pub open spec fn flag(flags: Map<u64, bool>, node_id: u64) -> bool {
    flags.contains_key(node_id) && flags[node_id]
}

/// The assignment a node sees, given what each node has committed.
pub open spec fn seen_by(
    views: Map<u64, AddrMap<VipAssignment>>,
    node_id: u64,
    vip: IpAddr,
) -> Option<VipAssignment> {
    if views.contains_key(node_id) && views[node_id]@.contains_key(vip) {
        Some(views[node_id]@[vip])
    } else {
        None
    }
}

/// The nodes that would bind, given what each sees.
pub open spec fn binders(
    has_leader: bool,
    seen: spec_fn(u64) -> Option<VipAssignment>,
    nodes: Seq<u64>,
    local_healthy: Map<u64, bool>,
    consensus_fresh: Map<u64, bool>,
    f: NodeFacts,
) -> Seq<u64> {
    nodes.filter(|n: u64| binds(has_leader, flag(local_healthy, n), flag(consensus_fresh, n), n, seen(n), f))
}

fn flag_of(flags: &HashMap<u64, bool>, node_id: u64) -> (b: bool)
    ensures
        b == flag(flags@, node_id),
{
    broadcast use vstd::std_specs::hash::group_hash_axioms;

    match flags.get(&node_id) {
        Some(b) => *b,
        None => false,
    }
}

/// Count the nodes that would bind `vip` if every node sees the same committed assignment.
pub fn binder_count_for_vip(
    has_leader: bool,
    vip: IpAddr,
    assignments: &AddrMap<VipAssignment>,
    peer_ids_sorted: &[u64],
    local_healthy_per_node: &HashMap<u64, bool>,
    consensus_fresh_per_node: &HashMap<u64, bool>,
    node_health: &HashMap<u64, bool>,
    node_probe_ticks: &HashMap<u64, u64>,
    latest_probe_tick: u64,
    stale_missed_probes: u64,
    failback_delay_ticks: u64,
    node_recovery_tick: &HashMap<u64, u64>,
    node_failback_blocked: &HashSet<u64>,
) -> (count: usize)
    ensures
        count == binders(
            has_leader,
            |n: u64| if assignments@.contains_key(vip) { Some(assignments@[vip]) } else { None },
            peer_ids_sorted@,
            local_healthy_per_node@,
            consensus_fresh_per_node@,
            (NodeFacts {
                node_health: node_health@,
                node_probe_ticks: node_probe_ticks@,
                latest_probe_tick,
                stale_missed_probes,
                failback_delay_ticks,
                node_recovery_tick: node_recovery_tick@,
                node_failback_blocked: node_failback_blocked@,
            }),
        ).len(),
{
    let assignment = assignments.get(&vip);
    let ghost f = NodeFacts {
        node_health: node_health@,
        node_probe_ticks: node_probe_ticks@,
        latest_probe_tick,
        stale_missed_probes,
        failback_delay_ticks,
        node_recovery_tick: node_recovery_tick@,
        node_failback_blocked: node_failback_blocked@,
    };
    let ghost seen = |n: u64| if assignments@.contains_key(vip) { Some(assignments@[vip]) } else { None };
    let ghost pred = |n: u64| binds(
        has_leader,
        flag(local_healthy_per_node@, n),
        flag(consensus_fresh_per_node@, n),
        n,
        seen(n),
        f,
    );
    let mut count: usize = 0;
    let mut i: usize = 0;
    assert(peer_ids_sorted@.take(0).filter(pred).len() == 0) by { reveal(Seq::filter); }
    #[verifier::loop_isolation(false)]
    while i < peer_ids_sorted.len()
        invariant
            i <= peer_ids_sorted@.len(),
            count <= i,
            count == peer_ids_sorted@.take(i as int).filter(pred).len(),
        decreases peer_ids_sorted@.len() - i,
    {
        let node: u64 = peer_ids_sorted[i];
        proof {
            reveal(Seq::filter);
            assert(peer_ids_sorted@.take(i + 1).drop_last() =~= peer_ids_sorted@.take(i as int));
            assert(peer_ids_sorted@.take(i + 1).last() == node);
        }
        if should_bind_vip(
            has_leader,
            flag_of(local_healthy_per_node, node),
            flag_of(consensus_fresh_per_node, node),
            node,
            assignment,
            node_health,
            node_probe_ticks,
            latest_probe_tick,
            stale_missed_probes,
            failback_delay_ticks,
            node_recovery_tick,
            node_failback_blocked,
        ) {
            assert(pred(node));
            count += 1;
        } else {
            assert(!pred(node));
        }
        i += 1;
    }
    assert(peer_ids_sorted@.take(i as int) =~= peer_ids_sorted@);
    count
}

/// Like [`binder_count_for_vip`], but each node uses its own committed assignments.
pub fn binder_count_for_vip_per_node_view(
    has_leader: bool,
    vip: IpAddr,
    per_node_assignments: &HashMap<u64, AddrMap<VipAssignment>>,
    peer_ids_sorted: &[u64],
    local_healthy_per_node: &HashMap<u64, bool>,
    consensus_fresh_per_node: &HashMap<u64, bool>,
    node_health: &HashMap<u64, bool>,
    node_probe_ticks: &HashMap<u64, u64>,
    latest_probe_tick: u64,
    stale_missed_probes: u64,
    failback_delay_ticks: u64,
    node_recovery_tick: &HashMap<u64, u64>,
    node_failback_blocked: &HashSet<u64>,
) -> (count: usize)
    ensures
        count == binders(
            has_leader,
            |n: u64| seen_by(per_node_assignments@, n, vip),
            peer_ids_sorted@,
            local_healthy_per_node@,
            consensus_fresh_per_node@,
            (NodeFacts {
                node_health: node_health@,
                node_probe_ticks: node_probe_ticks@,
                latest_probe_tick,
                stale_missed_probes,
                failback_delay_ticks,
                node_recovery_tick: node_recovery_tick@,
                node_failback_blocked: node_failback_blocked@,
            }),
        ).len(),
{
    broadcast use vstd::std_specs::hash::group_hash_axioms;

    let ghost f = NodeFacts {
        node_health: node_health@,
        node_probe_ticks: node_probe_ticks@,
        latest_probe_tick,
        stale_missed_probes,
        failback_delay_ticks,
        node_recovery_tick: node_recovery_tick@,
        node_failback_blocked: node_failback_blocked@,
    };
    let ghost seen = |n: u64| seen_by(per_node_assignments@, n, vip);
    let ghost pred = |n: u64| binds(
        has_leader,
        flag(local_healthy_per_node@, n),
        flag(consensus_fresh_per_node@, n),
        n,
        seen(n),
        f,
    );
    let mut count: usize = 0;
    let mut i: usize = 0;
    assert(peer_ids_sorted@.take(0).filter(pred).len() == 0) by { reveal(Seq::filter); }
    #[verifier::loop_isolation(false)]
    while i < peer_ids_sorted.len()
        invariant
            i <= peer_ids_sorted@.len(),
            count <= i,
            count == peer_ids_sorted@.take(i as int).filter(pred).len(),
        decreases peer_ids_sorted@.len() - i,
    {
        let node: u64 = peer_ids_sorted[i];
        proof {
            reveal(Seq::filter);
            assert(peer_ids_sorted@.take(i + 1).drop_last() =~= peer_ids_sorted@.take(i as int));
            assert(peer_ids_sorted@.take(i + 1).last() == node);
        }
        let assignment = match per_node_assignments.get(&node) {
            Some(view) => view.get(&vip),
            None => None,
        };
        if should_bind_vip(
            has_leader,
            flag_of(local_healthy_per_node, node),
            flag_of(consensus_fresh_per_node, node),
            node,
            assignment,
            node_health,
            node_probe_ticks,
            latest_probe_tick,
            stale_missed_probes,
            failback_delay_ticks,
            node_recovery_tick,
            node_failback_blocked,
        ) {
            assert(pred(node));
            count += 1;
        } else {
            assert(!pred(node));
        }
        i += 1;
    }
    assert(peer_ids_sorted@.take(i as int) =~= peer_ids_sorted@);
    count
}

/// Where all nodes see the same assignment, at most one of them binds the VIP.
pub proof fn law_at_most_one_node_binds(
    has_leader: bool,
    assignment: Option<VipAssignment>,
    nodes: Seq<u64>,
    local_healthy: Map<u64, bool>,
    consensus_fresh: Map<u64, bool>,
    f: NodeFacts,
)
    requires
        nodes.no_duplicates(),
    ensures
        binders(has_leader, |n: u64| assignment, nodes, local_healthy, consensus_fresh, f).len() <= 1,
    decreases nodes.len(),
{
    reveal(Seq::filter);
    let seen = |n: u64| assignment;
    if nodes.len() > 0 {
        let front = nodes.drop_last();
        law_at_most_one_node_binds(has_leader, assignment, front, local_healthy, consensus_fresh, f);
        let before = binders(has_leader, seen, front, local_healthy, consensus_fresh, f);
        let pred = |n: u64| binds(has_leader, flag(local_healthy, n), flag(consensus_fresh, n), n, seen(n), f);
        if pred(nodes.last()) && before.len() > 0 {
            let n = before[0];
            front.lemma_filter_pred(pred, 0);
            assert(before =~= front.filter(pred));
            assert(pred(n));
            assert(before.contains(n));
            front.lemma_filter_contains_rev(pred, n);
            let i = front.index_of(n);
            assert(nodes[i] == n && nodes[nodes.len() - 1] == nodes.last());
        }
    }
}

/// While the old holder is eligible and has not released, a node that takes over from it does not
/// bind, whatever else it sees. So the old holder, which may not yet have applied the change, is
/// alone on the VIP.
pub proof fn law_no_bind_before_the_old_holder_is_gone(
    has_leader: bool,
    local_healthy: bool,
    consensus_fresh: bool,
    node_id: u64,
    a: VipAssignment,
    f: NodeFacts,
)
    requires
        a.previous_holder is Some,
        !a.previous_holder_released,
        eligible_by(f, a.previous_holder->0),
    ensures
        !binds(has_leader, local_healthy, consensus_fresh, node_id, Some(a), f),
{
}

/// Without a leader, local health or contact to consensus a node binds nothing.
pub proof fn law_a_cut_off_node_binds_nothing(
    has_leader: bool,
    local_healthy: bool,
    consensus_fresh: bool,
    node_id: u64,
    assignment: Option<VipAssignment>,
    f: NodeFacts,
)
    requires
        !has_leader || !local_healthy || !consensus_fresh,
    ensures
        !binds(has_leader, local_healthy, consensus_fresh, node_id, assignment, f),
{
}

/// The holder of a VIP binds it as soon as its activation tick has come and nobody is in the way. A
/// previous holder is out of the way, with or without a release, for any one of these reasons: it is
/// blocked, it has never reported or its last report is a failure, it has no probe round or one that
/// is further behind than the window allows, or it is still within its failback delay.
pub proof fn law_a_holder_binds_once_nobody_is_in_the_way(
    has_leader: bool,
    local_healthy: bool,
    consensus_fresh: bool,
    node_id: u64,
    a: &VipAssignment,
    node_health: &HashMap<u64, bool>,
    node_probe_ticks: &HashMap<u64, u64>,
    latest_probe_tick: u64,
    stale_missed_probes: u64,
    failback_delay_ticks: u64,
    node_recovery_tick: &HashMap<u64, u64>,
    node_failback_blocked: &HashSet<u64>,
    b: bool,
)
    requires
        has_leader && local_healthy && consensus_fresh,
        a.holder == node_id,
        latest_probe_tick >= a.activation_tick,
        a.previous_holder matches Some(p) ==> {
            ||| a.previous_holder_released
            ||| node_failback_blocked@.contains(p)
            ||| !node_health@.contains_key(p)
            ||| !node_health@[p]
            ||| !node_probe_ticks@.contains_key(p)
            ||| latest_probe_tick > node_probe_ticks@[p] + stale_missed_probes
            ||| failback_delay_ticks > 0 && node_recovery_tick@.contains_key(p) && latest_probe_tick < node_recovery_tick@[p] + failback_delay_ticks
        },
        call_ensures(
            should_bind_vip,
            (
                has_leader,
                local_healthy,
                consensus_fresh,
                node_id,
                Some(a),
                node_health,
                node_probe_ticks,
                latest_probe_tick,
                stale_missed_probes,
                failback_delay_ticks,
                node_recovery_tick,
                node_failback_blocked,
            ),
            b,
        ),
    ensures
        b,
{
}

/// A node that binds has a leader, is healthy and in touch, holds the VIP, and is past its activation
/// tick. If it took over from another node, that has released or one of the reasons above keeps it
/// out: a healthy, recent and unblocked one is waited for.
pub proof fn law_a_binding_node_is_the_holder_and_alone(
    has_leader: bool,
    local_healthy: bool,
    consensus_fresh: bool,
    node_id: u64,
    a: &VipAssignment,
    node_health: &HashMap<u64, bool>,
    node_probe_ticks: &HashMap<u64, u64>,
    latest_probe_tick: u64,
    stale_missed_probes: u64,
    failback_delay_ticks: u64,
    node_recovery_tick: &HashMap<u64, u64>,
    node_failback_blocked: &HashSet<u64>,
    b: bool,
)
    requires
        b,
        call_ensures(
            should_bind_vip,
            (
                has_leader,
                local_healthy,
                consensus_fresh,
                node_id,
                Some(a),
                node_health,
                node_probe_ticks,
                latest_probe_tick,
                stale_missed_probes,
                failback_delay_ticks,
                node_recovery_tick,
                node_failback_blocked,
            ),
            b,
        ),
    ensures
        has_leader && local_healthy && consensus_fresh,
        a.holder == node_id,
        latest_probe_tick >= a.activation_tick,
        a.previous_holder matches Some(p) ==> !a.previous_holder_released ==> !({
            &&& !node_failback_blocked@.contains(p)
            &&& node_health@.contains_key(p) && node_health@[p]
            &&& node_probe_ticks@.contains_key(p)
            &&& latest_probe_tick <= node_probe_ticks@[p] + stale_missed_probes
            &&& failback_delay_ticks == 0 || !node_recovery_tick@.contains_key(p) || latest_probe_tick >= node_recovery_tick@[p]
                + failback_delay_ticks
        }),
{
}

/// A VIP without an assignment is bound by nobody.
pub proof fn law_an_unassigned_vip_is_not_bound(
    has_leader: bool,
    local_healthy: bool,
    consensus_fresh: bool,
    node_id: u64,
    node_health: &HashMap<u64, bool>,
    node_probe_ticks: &HashMap<u64, u64>,
    latest_probe_tick: u64,
    stale_missed_probes: u64,
    failback_delay_ticks: u64,
    node_recovery_tick: &HashMap<u64, u64>,
    node_failback_blocked: &HashSet<u64>,
    b: bool,
)
    requires
        call_ensures(
            should_bind_vip,
            (
                has_leader,
                local_healthy,
                consensus_fresh,
                node_id,
                None,
                node_health,
                node_probe_ticks,
                latest_probe_tick,
                stale_missed_probes,
                failback_delay_ticks,
                node_recovery_tick,
                node_failback_blocked,
            ),
            b,
        ),
    ensures
        !b,
{
}

/// As many nodes are counted as stand in the list and would bind, given what each sees.
pub proof fn law_every_binding_node_is_counted(
    has_leader: bool,
    seen: spec_fn(u64) -> Option<VipAssignment>,
    nodes: Seq<u64>,
    local_healthy: Map<u64, bool>,
    consensus_fresh: Map<u64, bool>,
    f: NodeFacts,
)
    ensures
        ({
            let binding = Set::new(
                |i: int| 0 <= i < nodes.len() && binds(
                    has_leader,
                    local_healthy.contains_key(nodes[i]) && local_healthy[nodes[i]],
                    consensus_fresh.contains_key(nodes[i]) && consensus_fresh[nodes[i]],
                    nodes[i],
                    seen(nodes[i]),
                    f,
                ),
            );
            binding.finite() && binding.len() == binders(has_leader, seen, nodes, local_healthy, consensus_fresh, f).len()
        }),
    decreases nodes.len(),
{
    reveal(Seq::filter);
    let binding = Set::new(
        |i: int| 0 <= i < nodes.len() && binds(
            has_leader,
            local_healthy.contains_key(nodes[i]) && local_healthy[nodes[i]],
            consensus_fresh.contains_key(nodes[i]) && consensus_fresh[nodes[i]],
            nodes[i],
            seen(nodes[i]),
            f,
        ),
    );
    if nodes.len() == 0 {
        assert(binding =~= Set::empty());
    } else {
        let front = nodes.drop_last();
        law_every_binding_node_is_counted(has_leader, seen, front, local_healthy, consensus_fresh, f);
        let before = Set::new(
            |i: int| 0 <= i < front.len() && binds(
                has_leader,
                local_healthy.contains_key(front[i]) && local_healthy[front[i]],
                consensus_fresh.contains_key(front[i]) && consensus_fresh[front[i]],
                front[i],
                seen(front[i]),
                f,
            ),
        );
        let last = nodes.len() - 1;
        assert(!before.contains(last));
        if binds(has_leader, flag(local_healthy, nodes[last]), flag(consensus_fresh, nodes[last]), nodes[last], seen(nodes[last]), f) {
            assert(binding =~= before.insert(last));
        } else {
            assert(binding =~= before);
        }
    }
}

/// Where all nodes see the same assignments, one node is counted if the holder is in the list and would bind,
/// and none otherwise.
pub proof fn law_one_node_is_counted_where_all_see_the_same(
    has_leader: bool,
    vip: IpAddr,
    assignments: &AddrMap<VipAssignment>,
    nodes: &[u64],
    local_healthy: &HashMap<u64, bool>,
    consensus_fresh: &HashMap<u64, bool>,
    node_health: &HashMap<u64, bool>,
    node_probe_ticks: &HashMap<u64, u64>,
    latest: u64,
    stale: u64,
    delay: u64,
    recovery: &HashMap<u64, u64>,
    blocked: &HashSet<u64>,
    count: usize,
)
    requires
        nodes@.no_duplicates(),
        call_ensures(
            binder_count_for_vip,
            (
                has_leader,
                vip,
                assignments,
                nodes,
                local_healthy,
                consensus_fresh,
                node_health,
                node_probe_ticks,
                latest,
                stale,
                delay,
                recovery,
                blocked,
            ),
            count,
        ),
    ensures
        count <= 1,
        count == 1 ==> has_leader && assignments@.contains_key(vip) && nodes@.contains(assignments@[vip].holder),
        assignments@.contains_key(vip) && nodes@.contains(assignments@[vip].holder) ==> (count == 1 <==> binds(
            has_leader,
            local_healthy@.contains_key(assignments@[vip].holder) && local_healthy@[assignments@[vip].holder],
            consensus_fresh@.contains_key(assignments@[vip].holder) && consensus_fresh@[assignments@[vip].holder],
            assignments@[vip].holder,
            Some(assignments@[vip]),
            NodeFacts {
                node_health: node_health@,
                node_probe_ticks: node_probe_ticks@,
                latest_probe_tick: latest,
                stale_missed_probes: stale,
                failback_delay_ticks: delay,
                node_recovery_tick: recovery@,
                node_failback_blocked: blocked@,
            },
        )),
{
    let f = NodeFacts {
        node_health: node_health@,
        node_probe_ticks: node_probe_ticks@,
        latest_probe_tick: latest,
        stale_missed_probes: stale,
        failback_delay_ticks: delay,
        node_recovery_tick: recovery@,
        node_failback_blocked: blocked@,
    };
    let seen_all = if assignments@.contains_key(vip) { Some(assignments@[vip]) } else { None };
    let seen = |n: u64| if assignments@.contains_key(vip) { Some(assignments@[vip]) } else { None };
    assert(seen =~= (|n: u64| seen_all));
    law_at_most_one_node_binds(has_leader, seen_all, nodes@, local_healthy@, consensus_fresh@, f);
    law_every_binding_node_is_counted(has_leader, seen, nodes@, local_healthy@, consensus_fresh@, f);
    let binding = Set::new(
        |i: int| 0 <= i < nodes@.len() && binds(
            has_leader,
            local_healthy@.contains_key(nodes@[i]) && local_healthy@[nodes@[i]],
            consensus_fresh@.contains_key(nodes@[i]) && consensus_fresh@[nodes@[i]],
            nodes@[i],
            seen(nodes@[i]),
            f,
        ),
    );
    assert(count == binding.len());
    if count == 1 {
        let i = binding.choose();
        assert(binding.contains(i)) by {
            if forall|x: int| !binding.contains(x) {
                assert(binding =~= Set::empty());
            }
        }
        assert(nodes@[i] == assignments@[vip].holder);
    }
    if assignments@.contains_key(vip) && nodes@.contains(assignments@[vip].holder) {
        let i = nodes@.index_of(assignments@[vip].holder);
        assert(nodes@[i] == assignments@[vip].holder);
        if binding.contains(i) {
            if binding.len() == 0 {
                binding.lemma_len0_is_empty();
            }
        }
    }
}

/// Where each node goes by what it has committed itself, as many nodes are counted as would bind by their
/// own view; a node without a view, or whose view has no such VIP, does not.
pub proof fn law_each_node_is_counted_by_its_own_view(
    has_leader: bool,
    vip: IpAddr,
    views: &HashMap<u64, AddrMap<VipAssignment>>,
    nodes: &[u64],
    local_healthy: &HashMap<u64, bool>,
    consensus_fresh: &HashMap<u64, bool>,
    node_health: &HashMap<u64, bool>,
    node_probe_ticks: &HashMap<u64, u64>,
    latest: u64,
    stale: u64,
    delay: u64,
    recovery: &HashMap<u64, u64>,
    blocked: &HashSet<u64>,
    count: usize,
)
    requires
        call_ensures(
            binder_count_for_vip_per_node_view,
            (
                has_leader,
                vip,
                views,
                nodes,
                local_healthy,
                consensus_fresh,
                node_health,
                node_probe_ticks,
                latest,
                stale,
                delay,
                recovery,
                blocked,
            ),
            count,
        ),
    ensures
        count == Set::new(
            |i: int| 0 <= i < nodes@.len() && views@.contains_key(nodes@[i]) && views@[nodes@[i]]@.contains_key(vip) && binds(
                has_leader,
                local_healthy@.contains_key(nodes@[i]) && local_healthy@[nodes@[i]],
                consensus_fresh@.contains_key(nodes@[i]) && consensus_fresh@[nodes@[i]],
                nodes@[i],
                Some(views@[nodes@[i]]@[vip]),
                NodeFacts {
                    node_health: node_health@,
                    node_probe_ticks: node_probe_ticks@,
                    latest_probe_tick: latest,
                    stale_missed_probes: stale,
                    failback_delay_ticks: delay,
                    node_recovery_tick: recovery@,
                    node_failback_blocked: blocked@,
                },
            ),
        ).len(),
{
    let f = NodeFacts {
        node_health: node_health@,
        node_probe_ticks: node_probe_ticks@,
        latest_probe_tick: latest,
        stale_missed_probes: stale,
        failback_delay_ticks: delay,
        node_recovery_tick: recovery@,
        node_failback_blocked: blocked@,
    };
    let seen = |n: u64| seen_by(views@, n, vip);
    law_every_binding_node_is_counted(has_leader, seen, nodes@, local_healthy@, consensus_fresh@, f);
    let all = Set::new(
        |i: int| 0 <= i < nodes@.len() && binds(
            has_leader,
            local_healthy@.contains_key(nodes@[i]) && local_healthy@[nodes@[i]],
            consensus_fresh@.contains_key(nodes@[i]) && consensus_fresh@[nodes@[i]],
            nodes@[i],
            seen(nodes@[i]),
            f,
        ),
    );
    let written = Set::new(
        |i: int| 0 <= i < nodes@.len() && views@.contains_key(nodes@[i]) && views@[nodes@[i]]@.contains_key(vip) && binds(
            has_leader,
            local_healthy@.contains_key(nodes@[i]) && local_healthy@[nodes@[i]],
            consensus_fresh@.contains_key(nodes@[i]) && consensus_fresh@[nodes@[i]],
            nodes@[i],
            Some(views@[nodes@[i]]@[vip]),
            f,
        ),
    );
    assert(all =~= written);
}

} // verus!
