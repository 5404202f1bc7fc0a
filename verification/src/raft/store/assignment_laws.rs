//! What applying an entry does to the committed assignments, in terms of the assignments before and
//! after it.

use vstd::prelude::*;

use std::collections::{HashMap, HashSet};

use crate::addr::IpAddr;
use crate::config::VipAddr;
use crate::ordmap::AddrMap;
use crate::raft::store::eligibility_laws::law_the_eligible_nodes_are_the_voters_that_nothing_keeps_out;
use crate::raft::store::handover_laws::{assignment_of, law_each_vip_is_decided_by_itself};
use crate::raft::store::placement::minimal_movement;
use crate::raft::store::placement_laws::{
    balanced, covers, holdings, law_balanced_assignment_is_kept,
    law_every_vip_is_held_by_an_eligible_node, law_fewest_vips_move, law_listing_order_is_irrelevant,
    law_spread_at_most_one, moved,
};
use crate::raft::store::state::{Replicated, Settings, VipAssignment};
use crate::raft::store::state_machine::{applied, eligible_in, health_reported, holders, reassigned};
use crate::raft::store::store_laws::consistent;
use crate::raft::store::vip_logic::{
    addresses, assign_vips_minimal_movement, assign_vips_round_robin_eligible, last_generation,
    next_probe_tick, recompute_vip_holder, reconcile_vip_assignments, round_robin,
};
use crate::raft::types::{
    EntryView, KafRequest, LogId, Membership, PayloadView, StoredMembershipView,
};

verus! {

/// Entries after which the holders are decided anew.
pub open spec fn decides_anew(e: EntryView) -> bool {
    e.payload is Membership || (e.payload is Normal && e.payload->Normal_0 is HealthUpdate)
}

/// The holders that such an entry decides on, and what comes of each assignment.
proof fn lemma_decided(c: Settings, r: Replicated, e: EntryView, vip: IpAddr) -> (new_holders: Map<IpAddr, u64>)
    requires
        c.vips.no_duplicates(),
        decides_anew(e),
    ensures
        ({
            let after = applied(c, r, e);
            let current = r.vip_assignments.map_values(|a: VipAssignment| a.holder);
            &&& new_holders == minimal_movement(eligible_in(c, after), c.vips, current)
            &&& after.vip_assignments.contains_key(vip) <==> c.vips.contains(vip) && new_holders.contains_key(vip)
            &&& after.vip_assignments.contains_key(vip) ==> after.vip_assignments[vip].holder == new_holders[vip]
        }),
{
    let start = Replicated { last_applied: Some(e.log_id), ..r };
    let before = match e.payload {
        PayloadView::Normal(KafRequest::HealthUpdate { node_id, healthy }) => health_reported(c, start, node_id, healthy),
        _ => Replicated { last_membership: applied(c, r, e).last_membership, ..start },
    };
    let after = applied(c, r, e);
    assert(after == reassigned(c, before));
    assert(eligible_in(c, after) == eligible_in(c, before));
    let current = r.vip_assignments.map_values(|a: VipAssignment| a.holder);
    assert(holders(before.vip_assignments) =~= current);
    let new_holders = minimal_movement(eligible_in(c, before), c.vips, current);
    law_each_vip_is_decided_by_itself(c.vips, new_holders, before.latest_probe_tick, before.vip_assignments, before.vip_generation, vip);
    new_holders
}

/// What comes of the assignment of a VIP that has a holder after a health report or a membership
/// change. With the holder it had, the assignment stays as it is, to the last field. A new holder
/// opens the next generation, waits for the old one, and for the next round; with none to wait for
/// it may start at once.
pub proof fn law_a_changed_holder_opens_a_generation_and_an_unchanged_one_keeps_everything(
    c: Settings,
    r: Replicated,
    e: EntryView,
    vip: IpAddr,
)
    requires
        c.vips.no_duplicates(),
        decides_anew(e),
        applied(c, r, e).vip_assignments.contains_key(vip),
    ensures
        ({
            let after = applied(c, r, e);
            let b = after.vip_assignments[vip];
            let used: u64 = if r.vip_generation.contains_key(vip) { r.vip_generation[vip] } else { 0 };
            let was = r.vip_assignments.contains_key(vip);
            let a = r.vip_assignments[vip];
            &&& was && a.holder == b.holder ==> b == a
            &&& was && a.holder != b.holder ==> {
                &&& b.previous_holder == Some(a.holder)
                &&& !b.previous_holder_released
                &&& after.latest_probe_tick < u64::MAX ==> b.activation_tick == after.latest_probe_tick + 1
                &&& after.latest_probe_tick == u64::MAX ==> b.activation_tick == u64::MAX
            }
            &&& !was ==> {
                &&& b.previous_holder is None
                &&& b.previous_holder_released
                &&& b.activation_tick == after.latest_probe_tick
            }
            &&& !(was && a.holder == b.holder) && used < u64::MAX ==> {
                &&& b.generation == used + 1
                &&& after.vip_generation.contains_key(vip)
                &&& after.vip_generation[vip] == used + 1
            }
            &&& !(was && a.holder == b.holder) && used == u64::MAX ==> b.generation == u64::MAX
        }),
{
    let start = Replicated { last_applied: Some(e.log_id), ..r };
    let before = match e.payload {
        PayloadView::Normal(KafRequest::HealthUpdate { node_id, healthy }) => health_reported(c, start, node_id, healthy),
        _ => Replicated { last_membership: applied(c, r, e).last_membership, ..start },
    };
    let new_holders = lemma_decided(c, r, e, vip);
    assert(holders(before.vip_assignments) =~= r.vip_assignments.map_values(|a: VipAssignment| a.holder));
    law_each_vip_is_decided_by_itself(c.vips, new_holders, before.latest_probe_tick, before.vip_assignments, before.vip_generation, vip);
    assert(applied(c, r, e) == reassigned(c, before));
    assert(assignment_of(before.vip_assignments, vip) == assignment_of(r.vip_assignments, vip));
    assert(last_generation(applied(c, r, e).vip_generation, vip) > 0 ==> applied(c, r, e).vip_generation.contains_key(vip));
}

/// A VIP is assigned after a health report or a membership change exactly if it is configured and
/// some voter is eligible, and then its holder is one of those.
pub proof fn law_every_configured_vip_has_an_eligible_holder(c: Settings, r: Replicated, e: EntryView, vip: IpAddr)
    requires
        c.vips.no_duplicates(),
        decides_anew(e),
    ensures
        ({
            let after = applied(c, r, e);
            &&& after.vip_assignments.contains_key(vip) <==> c.vips.contains(vip) && exists|n: u64| eligible_in(c, after).contains(n)
            &&& after.vip_assignments.contains_key(vip) ==> eligible_in(c, after).contains(after.vip_assignments[vip].holder)
        }),
{
    let after = applied(c, r, e);
    let new_holders = lemma_decided(c, r, e, vip);
    let current = r.vip_assignments.map_values(|a: VipAssignment| a.holder);
    law_every_vip_is_held_by_an_eligible_node(eligible_in(c, after), c.vips, current);
    assert(c.vips.to_set().contains(vip) == c.vips.contains(vip));
    if eligible_in(c, after).len() > 0 {
        assert(eligible_in(c, after).contains(eligible_in(c, after)[0]));
        assert(new_holders.contains_key(vip) == c.vips.to_set().contains(vip));
    }
}

/// The holders after the entry, as one map.
proof fn lemma_holders_after(c: Settings, r: Replicated, e: EntryView) -> (new_holders: Map<IpAddr, u64>)
    requires
        c.vips.no_duplicates(),
        decides_anew(e),
    ensures
        new_holders == minimal_movement(
            eligible_in(c, applied(c, r, e)),
            c.vips,
            r.vip_assignments.map_values(|a: VipAssignment| a.holder),
        ),
        new_holders == applied(c, r, e).vip_assignments.map_values(|a: VipAssignment| a.holder),
{
    let after = applied(c, r, e);
    let current = r.vip_assignments.map_values(|a: VipAssignment| a.holder);
    let new_holders = minimal_movement(eligible_in(c, after), c.vips, current);
    let got = after.vip_assignments.map_values(|a: VipAssignment| a.holder);
    law_every_vip_is_held_by_an_eligible_node(eligible_in(c, after), c.vips, current);
    assert forall|vip: IpAddr| #[trigger] new_holders.contains_key(vip) == got.contains_key(vip) && (got.contains_key(vip) ==> got[vip]
        == new_holders[vip]) by {
        let same = lemma_decided(c, r, e, vip);
        assert(c.vips.to_set().contains(vip) == c.vips.contains(vip));
    }
    assert(new_holders =~= got);
    new_holders
}

/// After a health report or a membership change no eligible voter holds more than one VIP more than
/// another.
pub proof fn law_vips_are_spread_evenly_over_the_eligible_voters(c: Settings, r: Replicated, e: EntryView, a: u64, b: u64)
    requires
        c.vips.no_duplicates(),
        decides_anew(e),
        eligible_in(c, applied(c, r, e)).contains(a),
        eligible_in(c, applied(c, r, e)).contains(b),
    ensures
        ({
            let after = applied(c, r, e).vip_assignments;
            after.dom().filter(|vip: IpAddr| after[vip].holder == a).len() <= after.dom().filter(|vip: IpAddr| after[vip].holder == b).len() + 1
        }),
{
    let after = applied(c, r, e);
    let held = lemma_holders_after(c, r, e);
    law_spread_at_most_one(eligible_in(c, after), c.vips, r.vip_assignments.map_values(|a: VipAssignment| a.holder));
    let taken = after.vip_assignments;
    assert(holdings(held, a) =~= taken.dom().filter(|vip: IpAddr| taken[vip].holder == a));
    assert(holdings(held, b) =~= taken.dom().filter(|vip: IpAddr| taken[vip].holder == b));
}

/// If every configured VIP is held, by nodes that are still eligible voters after a health report or a
/// membership change, and none of those holds more than one VIP more than another, then the entry
/// changes no assignment.
pub proof fn law_a_settled_assignment_is_left_alone(c: Settings, r: Replicated, e: EntryView)
    requires
        c.vips.no_duplicates(),
        consistent(c, r),
        decides_anew(e),
        forall|vip: IpAddr| #[trigger] c.vips.contains(vip) ==> {
            &&& r.vip_assignments.contains_key(vip)
            &&& eligible_in(c, applied(c, r, e)).contains(r.vip_assignments[vip].holder)
        },
        forall|a: u64, b: u64| #[trigger] eligible_in(c, applied(c, r, e)).contains(a) && #[trigger] eligible_in(c, applied(c, r, e)).contains(b)
            ==> r.vip_assignments.dom().filter(|vip: IpAddr| r.vip_assignments[vip].holder == a).len()
            <= r.vip_assignments.dom().filter(|vip: IpAddr| r.vip_assignments[vip].holder == b).len() + 1,
    ensures
        applied(c, r, e).vip_assignments == r.vip_assignments,
{
    let after = applied(c, r, e);
    let nodes = eligible_in(c, after);
    let current = r.vip_assignments.map_values(|a: VipAssignment| a.holder);
    let held = lemma_holders_after(c, r, e);
    if nodes.len() > 0 {
        let kept = current.restrict(c.vips.to_set());
        assert forall|vip: IpAddr| #[trigger] current.contains_key(vip) == c.vips.to_set().contains(vip) by {
            assert(c.vips.to_set().contains(vip) == c.vips.contains(vip));
            assert(current.contains_key(vip) == r.vip_assignments.contains_key(vip));
        }
        assert(kept =~= current);
        assert(current.dom() =~= c.vips.to_set());
        assert(covers(kept, nodes, c.vips)) by {
            assert forall|vip: IpAddr| #[trigger] kept.contains_key(vip) implies nodes.contains(kept[vip]) by {
                assert(c.vips.to_set().contains(vip) == c.vips.contains(vip));
                assert(c.vips.contains(vip));
            }
        }
        assert(balanced(kept, nodes)) by {
            assert forall|a: u64, b: u64| #![trigger holdings(kept, a), holdings(kept, b)] nodes.contains(a) && nodes.contains(b) implies
                holdings(kept, a).len() <= holdings(kept, b).len() + 1 by {
                assert(holdings(kept, a) =~= r.vip_assignments.dom().filter(|vip: IpAddr| r.vip_assignments[vip].holder == a));
                assert(holdings(kept, b) =~= r.vip_assignments.dom().filter(|vip: IpAddr| r.vip_assignments[vip].holder == b));
            }
        }
        law_balanced_assignment_is_kept(nodes, c.vips, current);
        assert(held == current);
    } else {
        if c.vips.len() > 0 {
            assert(c.vips.contains(c.vips[0]));
        }
        assert(held.dom() =~= Set::empty());
    }
    assert forall|vip: IpAddr| #[trigger] after.vip_assignments.contains_key(vip) == r.vip_assignments.contains_key(vip)
        && (r.vip_assignments.contains_key(vip) ==> after.vip_assignments[vip] == r.vip_assignments[vip]) by {
        assert(after.vip_assignments.contains_key(vip) == held.contains_key(vip));
        if r.vip_assignments.contains_key(vip) {
            assert(c.vips.contains(vip));
            assert(current.contains_key(vip) && held.contains_key(vip));
            assert(held[vip] == current[vip]);
            law_a_changed_holder_opens_a_generation_and_an_unchanged_one_keeps_everything(c, r, e, vip);
        } else if held.contains_key(vip) {
            assert(nodes.len() > 0);
            assert(current.contains_key(vip));
        }
    }
    assert(after.vip_assignments =~= r.vip_assignments);
}

/// Of all even assignments of the configured VIPs to the voters that are eligible after a health
/// report or a membership change, the one decided on takes the fewest VIPs from their holders.
pub proof fn law_no_even_assignment_moves_fewer_vips(c: Settings, r: Replicated, e: EntryView, other: Map<IpAddr, u64>)
    requires
        c.vips.no_duplicates(),
        decides_anew(e),
        exists|n: u64| eligible_in(c, applied(c, r, e)).contains(n),
        other.dom() == c.vips.to_set(),
        forall|vip: IpAddr| #[trigger] other.contains_key(vip) ==> eligible_in(c, applied(c, r, e)).contains(other[vip]),
        forall|a: u64, b: u64| #[trigger] eligible_in(c, applied(c, r, e)).contains(a) && #[trigger] eligible_in(c, applied(c, r, e)).contains(b)
            ==> other.dom().filter(|vip: IpAddr| other[vip] == a).len() <= other.dom().filter(|vip: IpAddr| other[vip] == b).len() + 1,
    ensures
        ({
            let (before, after) = (r.vip_assignments, applied(c, r, e).vip_assignments);
            c.vips.to_set().filter(|vip: IpAddr| !(before.contains_key(vip) && before[vip].holder == after[vip].holder)).len()
                <= c.vips.to_set().filter(|vip: IpAddr| !(before.contains_key(vip) && before[vip].holder == other[vip])).len()
        }),
{
    let (before, after) = (r.vip_assignments, applied(c, r, e).vip_assignments);
    let nodes = eligible_in(c, applied(c, r, e));
    let current = before.map_values(|a: VipAssignment| a.holder);
    let held = lemma_holders_after(c, r, e);
    let n = choose|n: u64| nodes.contains(n);
    assert(nodes.contains(n));
    assert(balanced(other, nodes)) by {
        assert forall|a: u64, b: u64| #![trigger holdings(other, a), holdings(other, b)] nodes.contains(a) && nodes.contains(b) implies
            holdings(other, a).len() <= holdings(other, b).len() + 1 by {
            assert(holdings(other, a) =~= other.dom().filter(|vip: IpAddr| other[vip] == a));
            assert(holdings(other, b) =~= other.dom().filter(|vip: IpAddr| other[vip] == b));
        }
    }
    law_fewest_vips_move(nodes, c.vips, current, other);
    law_every_vip_is_held_by_an_eligible_node(nodes, c.vips, current);
    assert(moved(current, held) =~= c.vips.to_set().filter(|vip: IpAddr| !(before.contains_key(vip) && before[vip].holder == after[vip].holder))) by {
        assert forall|vip: IpAddr| c.vips.to_set().contains(vip) implies (current.contains_key(vip) && current[vip] == held[vip])
            == (before.contains_key(vip) && before[vip].holder == after[vip].holder) by {
            assert(held.contains_key(vip));
        }
    }
    assert(moved(current, other) =~= c.vips.to_set().filter(|vip: IpAddr| !(before.contains_key(vip) && before[vip].holder == other[vip])));
}

/// What a health report does to what is known of the nodes. The reporting node is at the frontier,
/// which moves on by one round only if that node was at it already. A turn from unhealthy to healthy
/// starts the failback delay at that round, a failure ends it and blocks the node where failback is
/// off. All other nodes are left alone.
pub proof fn law_a_health_report_is_recorded_for_its_node_alone(c: Settings, r: Replicated, log_id: LogId, node: u64, healthy: bool)
    ensures
        ({
            let request = KafRequest::HealthUpdate { node_id: node, healthy };
            let after = applied(c, r, EntryView { log_id, payload: PayloadView::Normal(request) });
            let failed = r.node_health.contains_key(node) && !r.node_health[node];
            &&& after.last_applied == Some(log_id)
            &&& after.last_membership == r.last_membership
            &&& after.cluster_epoch == r.cluster_epoch
            &&& after.node_health == r.node_health.insert(node, healthy)
            &&& after.node_probe_ticks == r.node_probe_ticks.insert(node, after.latest_probe_tick)
            &&& after.latest_probe_tick >= r.latest_probe_tick
            &&& r.node_probe_ticks.contains_key(node) && r.node_probe_ticks[node] < r.latest_probe_tick ==> after.latest_probe_tick
                == r.latest_probe_tick
            &&& r.node_probe_ticks.contains_key(node) && r.latest_probe_tick <= r.node_probe_ticks[node] < u64::MAX ==> after.latest_probe_tick
                == r.node_probe_ticks[node] + 1
            &&& r.node_probe_ticks.contains_key(node) && r.node_probe_ticks[node] == u64::MAX ==> after.latest_probe_tick == u64::MAX
            &&& !r.node_probe_ticks.contains_key(node) && r.latest_probe_tick > 0 ==> after.latest_probe_tick == r.latest_probe_tick
            &&& !r.node_probe_ticks.contains_key(node) && r.latest_probe_tick == 0 ==> after.latest_probe_tick == 1
            &&& healthy && failed ==> after.node_recovery_tick == r.node_recovery_tick.insert(node, after.latest_probe_tick)
            &&& healthy && !failed ==> after.node_recovery_tick == r.node_recovery_tick
            &&& !healthy ==> after.node_recovery_tick == r.node_recovery_tick.remove(node)
            &&& !healthy && !c.failback ==> after.node_failback_blocked == r.node_failback_blocked.insert(node)
            &&& healthy || c.failback ==> after.node_failback_blocked == r.node_failback_blocked
        }),
{
}

/// A membership change takes effect as it was committed, and changes nothing that is known of the
/// nodes. A blank entry changes nothing but the position in the log, and the first cluster id stands.
pub proof fn law_other_entries_leave_the_nodes_alone(c: Settings, r: Replicated, e: EntryView)
    requires
        !(e.payload is Normal && e.payload->Normal_0 is HealthUpdate),
    ensures
        ({
            let after = applied(c, r, e);
            &&& after.last_applied == Some(e.log_id)
            &&& after.node_health == r.node_health
            &&& after.node_probe_ticks == r.node_probe_ticks
            &&& after.latest_probe_tick == r.latest_probe_tick
            &&& after.node_recovery_tick == r.node_recovery_tick
            &&& after.node_failback_blocked == r.node_failback_blocked
            &&& e.payload is Membership ==> {
                &&& after.last_membership.log_id == Some(e.log_id)
                &&& after.last_membership.membership == e.payload->Membership_0
                &&& after.cluster_epoch == r.cluster_epoch
            }
            &&& !(e.payload is Membership) ==> after.last_membership == r.last_membership && after.vip_generation == r.vip_generation
            &&& e.payload is Blank ==> after.vip_assignments == r.vip_assignments && after.cluster_epoch == r.cluster_epoch
            &&& e.payload matches PayloadView::Normal(KafRequest::ClusterFormed { cluster_id }) ==> {
                &&& after.vip_assignments == r.vip_assignments
                &&& r.cluster_epoch is None ==> after.cluster_epoch == Some(cluster_id)
                &&& r.cluster_epoch is Some ==> after.cluster_epoch == r.cluster_epoch
            }
            &&& e.payload matches PayloadView::Normal(KafRequest::VipReleased { node_id, vip, generation }) ==> {
                let a = r.vip_assignments[vip];
                let counts = r.vip_assignments.contains_key(vip) && a.generation == generation && a.previous_holder == Some(node_id);
                &&& after.cluster_epoch == r.cluster_epoch
                &&& after.vip_assignments.dom() == r.vip_assignments.dom()
                &&& forall|v: IpAddr| #[trigger] r.vip_assignments.contains_key(v) ==> {
                    let (x, y) = (r.vip_assignments[v], after.vip_assignments[v]);
                    &&& y.holder == x.holder && y.generation == x.generation && y.previous_holder == x.previous_holder
                    &&& y.activation_tick == x.activation_tick
                    &&& y.previous_holder_released == (x.previous_holder_released || (v == vip && counts))
                }
            }
        }),
{
    if let PayloadView::Normal(KafRequest::VipReleased { node_id, vip, generation }) = e.payload {
        assert(applied(c, r, e).vip_assignments.dom() =~= r.vip_assignments.dom());
    }
}

/// Generations are counted per VIP: one that did not change hands keeps its number, also while it is
/// not assigned.
pub proof fn law_only_changed_hands_use_up_a_generation(c: Settings, r: Replicated, e: EntryView, vip: IpAddr)
    requires
        c.vips.no_duplicates(),
        decides_anew(e),
        ({
            let after = applied(c, r, e);
            ||| !after.vip_assignments.contains_key(vip)
            ||| r.vip_assignments.contains_key(vip) && r.vip_assignments[vip].holder == after.vip_assignments[vip].holder
        }),
    ensures
        ({
            let after = applied(c, r, e);
            (if after.vip_generation.contains_key(vip) { after.vip_generation[vip] } else { 0 }) == (if r.vip_generation.contains_key(vip) {
                r.vip_generation[vip]
            } else {
                0
            })
        }),
{
    let start = Replicated { last_applied: Some(e.log_id), ..r };
    let before = match e.payload {
        PayloadView::Normal(KafRequest::HealthUpdate { node_id, healthy }) => health_reported(c, start, node_id, healthy),
        _ => Replicated { last_membership: applied(c, r, e).last_membership, ..start },
    };
    let new_holders = lemma_decided(c, r, e, vip);
    assert(holders(before.vip_assignments) =~= r.vip_assignments.map_values(|a: VipAssignment| a.holder));
    law_each_vip_is_decided_by_itself(c.vips, new_holders, before.latest_probe_tick, before.vip_assignments, before.vip_generation, vip);
    assert(applied(c, r, e) == reassigned(c, before));
}

/// A report takes a node to the lowest round that is beyond its last one and not behind the frontier.
pub proof fn law_a_report_takes_the_next_round_that_is_not_behind(prev: Option<u64>, latest: u64, tick: u64, t: u64)
    requires
        call_ensures(next_probe_tick, (prev, latest), tick),
    ensures
        tick >= latest,
        tick >= 1,
        prev matches Some(p) ==> tick > p || tick == u64::MAX,
        t >= latest && t >= 1 && (prev is None || t > prev->0) ==> t >= tick,
{
}

/// In a round robin over distinct VIPs, the one at a position goes to the node at that position, counted
/// around.
pub proof fn law_round_robin_counts_around(eligible: &[u64], vips: &[IpAddr], i: int)
    requires
        vips@.no_duplicates(),
        eligible@.len() > 0,
        0 <= i < vips@.len(),
    ensures
        forall|out: &mut AddrMap<u64>| #[trigger] call_ensures(assign_vips_round_robin_eligible, (eligible, vips, out), ()) ==> {
            let after = (*final(out))@;
            &&& after.dom() == vips@.to_set()
            &&& after[vips@[i]] == eligible@[i % eligible@.len() as int]
        },
{
    lemma_round_robin(eligible@, vips@);
}

proof fn lemma_round_robin(eligible: Seq<u64>, vips: Seq<IpAddr>)
    requires
        vips.no_duplicates(),
        eligible.len() > 0,
    ensures
        round_robin(eligible, vips).dom() == vips.to_set(),
        forall|i: int| 0 <= i < vips.len() ==> round_robin(eligible, vips)[#[trigger] vips[i]] == eligible[i % eligible.len() as int],
    decreases vips.len(),
{
    if vips.len() > 0 {
        let front = vips.drop_last();
        lemma_round_robin(eligible, front);
        assert forall|i: int| 0 <= i < vips.len() implies round_robin(eligible, vips)[#[trigger] vips[i]] == eligible[i % eligible.len() as int] by {
            if i < front.len() {
                assert(front[i] == vips[i]);
                assert(vips[i] != vips[vips.len() - 1]);
            }
        }
        assert(round_robin(eligible, vips).dom() =~= vips.to_set()) by {
            assert forall|v: IpAddr| vips.contains(v) == (front.contains(v) || v == vips.last()) by {
                if vips.contains(v) && v != vips.last() {
                    assert(front[vips.index_of(v)] == v);
                }
                if front.contains(v) {
                    assert(vips[front.index_of(v)] == v);
                }
                assert(vips[vips.len() - 1] == vips.last());
            }
        }
    } else {
        assert(round_robin(eligible, vips).dom() =~= vips.to_set());
    }
}

/// An assignment of distinct VIPs gives each to an eligible node, evenly, and no other even assignment
/// takes fewer of them from their holders; without an eligible node it is empty.
pub proof fn law_an_assignment_is_complete_even_and_moves_the_fewest(
    eligible: &[u64],
    vips: &[IpAddr],
    current: &AddrMap<u64>,
    other: Map<IpAddr, u64>,
    vip: IpAddr,
    a: u64,
    b: u64,
)
    requires
        vips@.no_duplicates(),
    ensures
        forall|out: &mut AddrMap<u64>| #[trigger] call_ensures(assign_vips_minimal_movement, (eligible, vips, current, out), ()) ==> {
            let after = (*final(out))@;
            &&& after.contains_key(vip) <==> vips@.contains(vip) && eligible@.len() > 0
            &&& after.contains_key(vip) ==> eligible@.contains(after[vip])
            &&& eligible@.contains(a) && eligible@.contains(b) ==> after.dom().filter(|v: IpAddr| after[v] == a).len() <= after.dom().filter(
                |v: IpAddr| after[v] == b,
            ).len() + 1
            &&& eligible@.len() > 0 && covers(other, eligible@, vips@) && balanced(other, eligible@) ==> moved(current@, after).len() <= moved(
                current@,
                other,
            ).len()
        },
{
    let (e, l, c) = (eligible@, vips@, current@);
    law_every_vip_is_held_by_an_eligible_node(e, l, c);
    law_spread_at_most_one(e, l, c);
    let after = minimal_movement(e, l, c);
    assert(l.to_set().contains(vip) == l.contains(vip));
    assert(after.contains_key(vip) == after.dom().contains(vip));
    assert(holdings(after, a) =~= after.dom().filter(|v: IpAddr| after[v] == a));
    assert(holdings(after, b) =~= after.dom().filter(|v: IpAddr| after[v] == b));
    if e.len() > 0 && covers(other, e, l) && balanced(other, e) {
        law_fewest_vips_move(e, l, c, other);
    }
}

/// Recomputing the holders is assigning the addresses of the list to the voters that nothing keeps out.
pub proof fn law_holders_are_recomputed_over_the_eligible_voters(
    membership: &Membership,
    node_health: &HashMap<u64, bool>,
    node_probe_ticks: &HashMap<u64, u64>,
    latest_probe_tick: u64,
    stale_missed_probes: u64,
    failback_delay_ticks: u64,
    node_recovery_tick: &HashMap<u64, u64>,
    node_failback_blocked: &HashSet<u64>,
    vip_list: &[(VipAddr, String)],
    current: &AddrMap<u64>,
    eligible: &[u64],
    vips: &[IpAddr],
)
    requires
        vips@ == vip_list@.map_values(|v: (VipAddr, String)| v.0.addr),
        forall|n: u64| #[trigger] eligible@.contains(n) <==> {
            &&& exists|i: int| 0 <= i < membership.configs@.len() && (#[trigger] membership.configs@[i])@.contains(n)
            &&& !node_failback_blocked@.contains(n)
            &&& node_health@.contains_key(n) && node_health@[n]
            &&& node_probe_ticks@.contains_key(n)
            &&& latest_probe_tick <= node_probe_ticks@[n] + stale_missed_probes
            &&& failback_delay_ticks == 0 || !node_recovery_tick@.contains_key(n) || latest_probe_tick >= node_recovery_tick@[n]
                + failback_delay_ticks
        },
    ensures
        forall|x: &mut AddrMap<u64>, y: &mut AddrMap<u64>|
            ({
                &&& #[trigger] call_ensures(
                    recompute_vip_holder,
                    (
                        membership,
                        node_health,
                        node_probe_ticks,
                        latest_probe_tick,
                        stale_missed_probes,
                        failback_delay_ticks,
                        node_recovery_tick,
                        node_failback_blocked,
                        vip_list,
                        current,
                        x,
                    ),
                    (),
                )
                &&& #[trigger] call_ensures(assign_vips_minimal_movement, (eligible, vips, current, y), ())
            }) ==> (*final(x))@ == (*final(y))@,
{
    let r = Replicated {
        last_applied: None,
        last_membership: StoredMembershipView { log_id: None, membership: membership@ },
        node_health: node_health@,
        node_probe_ticks: node_probe_ticks@,
        latest_probe_tick,
        vip_assignments: Map::empty(),
        vip_generation: Map::empty(),
        cluster_epoch: None,
        node_recovery_tick: node_recovery_tick@,
        node_failback_blocked: node_failback_blocked@,
    };
    let c = Settings { vips: vips@, stale_missed_probes, failback: true, failback_delay_ticks };
    let found = eligible_in(c, r);
    assert forall|n: u64| found.contains(n) == eligible@.contains(n) by {
        law_the_eligible_nodes_are_the_voters_that_nothing_keeps_out(c, r, n);
        let configs = membership@.configs;
        assert((exists|i: int| 0 <= i < membership.configs@.len() && (#[trigger] membership.configs@[i])@.contains(n)) == (exists|i: int|
            0 <= i < configs.len() && (#[trigger] configs[i]).contains(n))) by {
            if exists|i: int| 0 <= i < membership.configs@.len() && (#[trigger] membership.configs@[i])@.contains(n) {
                let i = choose|i: int| 0 <= i < membership.configs@.len() && (#[trigger] membership.configs@[i])@.contains(n);
                assert(configs[i].contains(n));
            }
            if exists|i: int| 0 <= i < configs.len() && (#[trigger] configs[i]).contains(n) {
                let i = choose|i: int| 0 <= i < configs.len() && (#[trigger] configs[i]).contains(n);
                assert(membership.configs@[i]@.contains(n));
            }
        }
    }
    assert(found.to_set() =~= eligible@.to_set());
    law_listing_order_is_irrelevant(found, eligible@, vips@, vips@, current@);
    assert(addresses(vip_list@) =~= vips@);
}

/// Merging new holders into the assignments, VIP by VIP: one without a new holder loses its assignment,
/// one with the same holder keeps it, and one with another opens the next generation, which waits for the
/// holder before it and for the next round if there was one.
pub proof fn law_new_holders_are_merged_vip_by_vip(new_holders: &AddrMap<u64>, latest: u64, vip_list: &[(VipAddr, String)], vip: IpAddr)
    requires
        vip_list@.map_values(|v: (VipAddr, String)| v.0.addr).no_duplicates(),
    ensures
        forall|x: &mut AddrMap<VipAssignment>, g: &mut AddrMap<u64>| #[trigger]
            call_ensures(reconcile_vip_assignments, (new_holders, latest, vip_list, x, g), ()) ==> {
                let (before, after) = ((*x)@, (*final(x))@);
                let used: u64 = if (*g)@.contains_key(vip) { (*g)@[vip] } else { 0 };
                let holder = new_holders@[vip];
                let listed = vip_list@.map_values(|v: (VipAddr, String)| v.0.addr).contains(vip);
                &&& after.contains_key(vip) <==> listed && new_holders@.contains_key(vip)
                &&& after.contains_key(vip) ==> after[vip].holder == holder
                &&& after.contains_key(vip) && before.contains_key(vip) && before[vip].holder == holder ==> after[vip] == before[vip]
                &&& after.contains_key(vip) && before.contains_key(vip) && before[vip].holder != holder ==> after[vip] == (
                VipAssignment {
                    holder,
                    generation: if used < u64::MAX { (used + 1) as u64 } else { u64::MAX },
                    previous_holder: Some(before[vip].holder),
                    previous_holder_released: false,
                    activation_tick: if latest < u64::MAX { (latest + 1) as u64 } else { u64::MAX },
                })
                &&& after.contains_key(vip) && !before.contains_key(vip) ==> after[vip] == (VipAssignment {
                    holder,
                    generation: if used < u64::MAX { (used + 1) as u64 } else { u64::MAX },
                    previous_holder: None,
                    previous_holder_released: true,
                    activation_tick: latest,
                })
            },
{
    assert forall|x: &mut AddrMap<VipAssignment>, g: &mut AddrMap<u64>| #[trigger]
        call_ensures(reconcile_vip_assignments, (new_holders, latest, vip_list, x, g), ()) implies ({
        let (before, after) = ((*x)@, (*final(x))@);
        let used: u64 = if (*g)@.contains_key(vip) { (*g)@[vip] } else { 0 };
        let holder = new_holders@[vip];
        let listed = vip_list@.map_values(|v: (VipAddr, String)| v.0.addr).contains(vip);
        &&& after.contains_key(vip) <==> listed && new_holders@.contains_key(vip)
        &&& after.contains_key(vip) ==> after[vip].holder == holder
        &&& after.contains_key(vip) && before.contains_key(vip) && before[vip].holder == holder ==> after[vip] == before[vip]
        &&& after.contains_key(vip) && before.contains_key(vip) && before[vip].holder != holder ==> after[vip] == (
        VipAssignment {
            holder,
            generation: if used < u64::MAX { (used + 1) as u64 } else { u64::MAX },
            previous_holder: Some(before[vip].holder),
            previous_holder_released: false,
            activation_tick: if latest < u64::MAX { (latest + 1) as u64 } else { u64::MAX },
        })
        &&& after.contains_key(vip) && !before.contains_key(vip) ==> after[vip] == (VipAssignment {
            holder,
            generation: if used < u64::MAX { (used + 1) as u64 } else { u64::MAX },
            previous_holder: None,
            previous_holder_released: true,
            activation_tick: latest,
        })
    }) by {
        assert(addresses(vip_list@) =~= vip_list@.map_values(|v: (VipAddr, String)| v.0.addr));
        law_each_vip_is_decided_by_itself(addresses(vip_list@), new_holders@, latest, (*x)@, (*g)@, vip);
    }
}

/// The holders after a health report or a membership change are the assignment of the configured VIPs to
/// the voters that are eligible then, made from the holders before it.
pub proof fn law_an_entry_assigns_the_vips_from_the_holders_before_it(c: Settings, r: Replicated, e: EntryView)
    requires
        c.vips.no_duplicates(),
        decides_anew(e),
    ensures
        applied(c, r, e).vip_assignments.map_values(|a: VipAssignment| a.holder) == minimal_movement(
            eligible_in(c, applied(c, r, e)),
            c.vips,
            r.vip_assignments.map_values(|a: VipAssignment| a.holder),
        ),
{
    let held = lemma_holders_after(c, r, e);
}

} // verus!
