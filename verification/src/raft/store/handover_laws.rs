//! What holds of every handover of VIPs from one holder to the next.

use vstd::prelude::*;

use crate::addr::IpAddr;
use crate::config::{missed_probes_of, HealthConfig};
use crate::raft::store::state::VipAssignment;
use crate::raft::store::vip_logic::{eligible, handover, last_generation, next_tick, successor};

verus! {

/// The assignment of a VIP, if it has one.
pub open spec fn assignment_of(assignments: Map<IpAddr, VipAssignment>, vip: IpAddr) -> Option<VipAssignment> {
    if assignments.contains_key(vip) { Some(assignments[vip]) } else { None }
}

/// With every VIP listed once, each is decided by itself: it has an assignment exactly if it has a
/// new holder, and that is the successor of its old assignment. Other VIPs lose theirs and keep
/// their generation.
pub proof fn law_each_vip_is_decided_by_itself(
    vips: Seq<IpAddr>,
    new_holders: Map<IpAddr, u64>,
    latest_probe_tick: u64,
    assignments: Map<IpAddr, VipAssignment>,
    generations: Map<IpAddr, u64>,
    vip: IpAddr,
)
    requires
        vips.no_duplicates(),
    ensures
        ({
            let h = handover(vips, new_holders, latest_probe_tick, assignments, generations);
            let was = assignment_of(assignments, vip);
            let used = last_generation(generations, vip);
            &&& h.decided.contains_key(vip) <==> vips.contains(vip) && new_holders.contains_key(vip)
            &&& h.decided.contains_key(vip) ==> h.decided[vip] == successor(was, new_holders[vip], used, latest_probe_tick)
            &&& h.pending.contains_key(vip) <==> assignments.contains_key(vip) && !vips.contains(vip)
            &&& h.pending.contains_key(vip) ==> h.pending[vip] == assignments[vip]
            &&& last_generation(h.generations, vip) == if h.decided.contains_key(vip) && !(was is Some && was->0.holder == new_holders[vip]) {
                h.decided[vip].generation
            } else {
                used
            }
        }),
    decreases vips.len(),
{
    if vips.len() > 0 {
        let front = vips.drop_last();
        law_each_vip_is_decided_by_itself(front, new_holders, latest_probe_tick, assignments, generations, vip);
        assert(vips.contains(vip) == (front.contains(vip) || vip == vips.last())) by {
            if vips.contains(vip) && vip != vips.last() {
                assert(front[vips.index_of(vip)] == vip);
            }
            if front.contains(vip) {
                assert(vips[front.index_of(vip)] == vip);
            }
            assert(vips[vips.len() - 1] == vips.last());
        }
        if vip == vips.last() {
            assert(!front.contains(vip));
        }
    }
}

/// No generation ever goes back, and a VIP that changes hands opens a new one (until the numbers
/// run out).
pub proof fn law_generations_never_go_back(
    vips: Seq<IpAddr>,
    new_holders: Map<IpAddr, u64>,
    latest_probe_tick: u64,
    assignments: Map<IpAddr, VipAssignment>,
    generations: Map<IpAddr, u64>,
    vip: IpAddr,
)
    requires
        vips.no_duplicates(),
    ensures
        ({
            let h = handover(vips, new_holders, latest_probe_tick, assignments, generations);
            let (was, used) = (assignment_of(assignments, vip), last_generation(generations, vip));
            &&& last_generation(h.generations, vip) >= used
            &&& h.decided.contains_key(vip) && !(was is Some && was->0.holder == h.decided[vip].holder) && used < u64::MAX ==> {
                &&& h.decided[vip].generation == used + 1
                &&& last_generation(h.generations, vip) == used + 1
            }
        }),
{
    law_each_vip_is_decided_by_itself(vips, new_holders, latest_probe_tick, assignments, generations, vip);
}

/// A handover that takes a VIP from one node to another names the old holder as the one that has
/// yet to release, and keeps the new one waiting past the current round.
pub proof fn law_new_holder_waits_for_the_old_one(
    vips: Seq<IpAddr>,
    new_holders: Map<IpAddr, u64>,
    latest_probe_tick: u64,
    assignments: Map<IpAddr, VipAssignment>,
    generations: Map<IpAddr, u64>,
    vip: IpAddr,
)
    requires
        vips.no_duplicates(),
        assignments.contains_key(vip),
        vips.contains(vip),
        new_holders.contains_key(vip),
        new_holders[vip] != assignments[vip].holder,
    ensures
        ({
            let a = handover(vips, new_holders, latest_probe_tick, assignments, generations).decided[vip];
            &&& a.previous_holder == Some(assignments[vip].holder)
            &&& !a.previous_holder_released
            &&& latest_probe_tick < u64::MAX ==> a.activation_tick > latest_probe_tick
        }),
{
    law_each_vip_is_decided_by_itself(vips, new_holders, latest_probe_tick, assignments, generations, vip);
}

/// A report brings a node level with the frontier: its new round is the frontier's or beyond, so
/// it is not stale whatever the window is.
pub proof fn law_a_report_makes_a_node_fresh(prev: Option<u64>, latest_probe_tick: u64)
    ensures
        next_tick(prev, latest_probe_tick) >= latest_probe_tick,
        prev matches Some(tick) ==> tick < u64::MAX ==> next_tick(prev, latest_probe_tick) > tick,
{
}

/// A node that stops reporting is out once the frontier is past its window.
pub proof fn law_a_silent_node_becomes_ineligible(
    node_id: u64,
    node_health: Map<u64, bool>,
    node_probe_ticks: Map<u64, u64>,
    latest_probe_tick: u64,
    stale_missed_probes: u64,
    failback_delay_ticks: u64,
    node_recovery_tick: Map<u64, u64>,
    node_failback_blocked: Set<u64>,
)
    requires
        node_probe_ticks.contains_key(node_id),
        latest_probe_tick > node_probe_ticks[node_id] + stale_missed_probes,
    ensures
        !eligible(
            node_id,
            node_health,
            node_probe_ticks,
            latest_probe_tick,
            stale_missed_probes,
            failback_delay_ticks,
            node_recovery_tick,
            node_failback_blocked,
        ),
{
}

/// A healthy node that has missed a single probe round stays eligible, whatever the window is.
pub proof fn law_one_missed_probe_is_tolerated(
    node_id: u64,
    node_health: Map<u64, bool>,
    node_probe_ticks: Map<u64, u64>,
    latest_probe_tick: u64,
    health: HealthConfig,
    failback_delay_ticks: u64,
    node_recovery_tick: Map<u64, u64>,
    node_failback_blocked: Set<u64>,
    stale_missed_probes: u64,
)
    requires
        stale_missed_probes == missed_probes_of(health.interval_ms, health.stale_secs),
        !node_failback_blocked.contains(node_id),
        !node_recovery_tick.contains_key(node_id),
        node_health.contains_key(node_id) && node_health[node_id],
        node_probe_ticks.contains_key(node_id),
        latest_probe_tick <= node_probe_ticks[node_id] + 1,
    ensures
        eligible(
            node_id,
            node_health,
            node_probe_ticks,
            latest_probe_tick,
            stale_missed_probes,
            failback_delay_ticks,
            node_recovery_tick,
            node_failback_blocked,
        ),
{
}

} // verus!
