//! Deterministic VIP eligibility and assignment.
//!
//! Everything here is a function of plain data and walks sorted structures only, so all nodes and
//! all replays of the log agree on the outcome.

use vstd::prelude::*;

use std::collections::{HashMap, HashSet};

use crate::addr::IpAddr;
use crate::config::VipAddr;
use crate::order::{lemma_sorted_distinct, sort, sorted_distinct};
use crate::ordmap::{AddrMap, AddrSet, OrdMap};
use crate::raft::store::placement::{
    is_highest, is_least, is_most, keep_pass, least, lemma_least, lemma_most,
    lemma_shift_decreases, minimal_movement, most, orphans, put, rebalance, shift, spread_pass,
    sum_of_squares, uneven, Placement,
};
use crate::raft::store::state::{VipAssignment, OWNERSHIP_ACTIVATION_HOLDOFF_TICKS};
use crate::raft::types::{voters, Membership, MembershipView};

verus! {

/// The loads as numbers without bound.
pub open spec fn loads(load: Seq<usize>) -> Seq<nat> {
    load.map_values(|l: usize| l as nat)
}

spec fn placement_of(out: Map<IpAddr, u64>, load: Seq<usize>, held: Seq<AddrSet>) -> Placement {
    Placement { out, load: loads(load), held: held.map_values(|s: AddrSet| s@.dom()) }
}

/// Index of the extreme load, the lowest index (hence the lowest id) on ties.
///
/// `greatest` picks the extreme. `None` only when there is no node.
fn extreme_loaded_node(load: &[usize], greatest: bool) -> (best: Option<usize>)
    ensures
        best is None <==> load@.len() == 0,
        best matches Some(i) ==> if greatest {
            is_most(loads(load@), i as int)
        } else {
            is_least(loads(load@), i as int)
        },
{
    if load.len() == 0 {
        return None;
    }
    let ghost all = loads(load@);
    let mut best: usize = 0;
    let mut i: usize = 1;
    while i < load.len()
        invariant
            all == loads(load@),
            best < i <= load@.len(),
            greatest ==> forall|j: int| 0 <= j < i ==> #[trigger] all[j] <= all[best as int],
            greatest ==> forall|j: int| 0 <= j < best ==> #[trigger] all[j] < all[best as int],
            !greatest ==> forall|j: int| 0 <= j < i ==> all[best as int] <= #[trigger] all[j],
            !greatest ==> forall|j: int| 0 <= j < best ==> all[best as int] < #[trigger] all[j],
        decreases load@.len() - i,
    {
        if (greatest && load[i] > load[best]) || (!greatest && load[i] < load[best]) {
            best = i;
        }
        i += 1;
    }
    Some(best)
}

/// Node with the fewest assigned VIPs.
fn least_loaded_node(load: &[usize]) -> (best: Option<usize>)
    ensures
        best is None <==> load@.len() == 0,
        best matches Some(i) ==> i == least(loads(load@)) && is_least(loads(load@), i as int),
{
    let best = extreme_loaded_node(load, false);
    proof {
        if let Some(i) = best {
            let l = loads(load@);
            lemma_least(l);
            assert(l[i as int] <= l[least(l)] && l[least(l)] <= l[i as int]);
        }
    }
    best
}

/// Node with the most assigned VIPs.
fn most_loaded_node(load: &[usize]) -> (best: Option<usize>)
    ensures
        best is None <==> load@.len() == 0,
        best matches Some(i) ==> i == most(loads(load@)) && is_most(loads(load@), i as int),
{
    let best = extreme_loaded_node(load, true);
    proof {
        if let Some(i) = best {
            let l = loads(load@);
            lemma_most(l);
            assert(l[i as int] <= l[most(l)] && l[most(l)] <= l[i as int]);
        }
    }
    best
}

/// Position of `id` in an ascending list of node ids.
fn position_of(nodes: &[u64], id: u64) -> (at: Option<usize>)
    requires
        nodes@.no_duplicates(),
    ensures
        match at {
            Some(i) => nodes@.contains(id) && i == nodes@.index_of(id) && i < nodes@.len() && nodes@[i as int] == id,
            None => !nodes@.contains(id),
        },
{
    let mut i: usize = 0;
    while i < nodes.len()
        invariant
            i <= nodes@.len(),
            nodes@.no_duplicates(),
            forall|j: int| 0 <= j < i ==> nodes@[j] != id,
        decreases nodes@.len() - i,
    {
        if nodes[i] == id {
            assert(nodes@.contains(id));
            return Some(i);
        }
        i += 1;
    }
    None
}

/// Deterministic, stable, minimal-movement, load-balancing VIP assignment.
///
/// `current_holders` maps each VIP to its prior committed holder. A VIP whose holder is missing
/// or no longer eligible is an orphan and is placed anew; every other VIP stays where it is unless
/// the load spread is more than one.
///
/// 1. keep every VIP whose holder is still eligible;
/// 2. place each orphan, in ascending order, on the least-loaded eligible node;
/// 3. rebalance until the load spread is at most one, each step moving the donor's highest VIP.
pub fn assign_vips_minimal_movement(
    eligible: &[u64],
    vip_addrs_in_order: &[IpAddr],
    current_holders: &AddrMap<u64>,
    out: &mut AddrMap<u64>,
)
    ensures
        final(out)@ == minimal_movement(eligible@, vip_addrs_in_order@, current_holders@),
{
    *out = OrdMap::new();
    if eligible.len() == 0 {
        return;
    }
    let nodes = distinct_ids(eligible);
    let vips = sort(vip_addrs_in_order);
    let n: usize = nodes.len();
    let ghost current = current_holders@;

    let mut load: Vec<usize> = Vec::new();
    let mut held: Vec<AddrSet> = Vec::new();
    while load.len() < n
        invariant
            n == nodes@.len(),
            load@.len() <= n,
            held@.len() == load@.len(),
            forall|i: int| 0 <= i < load@.len() ==> load@[i] == 0,
            forall|i: int| 0 <= i < held@.len() ==> (#[trigger] held@[i])@.dom() =~= Set::<IpAddr>::empty(),
        decreases n - load@.len(),
    {
        load.push(0);
        held.push(OrdMap::new());
    }

    // Pass 1: keep VIPs whose current holder is still eligible.
    let mut left_over: Vec<IpAddr> = Vec::new();
    let mut k: usize = 0;
    proof {
        assert(placement_of(out@, load@, held@) =~= keep_pass(nodes@, vips@.take(0), current));
        assert(orphans(nodes@, vips@.take(0), current) =~= Seq::empty()) by { reveal(Seq::filter); }
    }
    while k < vips.len()
        invariant
            n == nodes@.len(),
            n == load@.len(),
            n == held@.len(),
            nodes@.no_duplicates(),
            current == current_holders@,
            k <= vips@.len(),
            placement_of(out@, load@, held@) == keep_pass(nodes@, vips@.take(k as int), current),
            left_over@ == orphans(nodes@, vips@.take(k as int), current),
            forall|i: int| 0 <= i < n ==> #[trigger] load@[i] + left_over@.len() <= k,
        decreases vips@.len() - k,
    {
        let vip = vips[k];
        let ghost before = placement_of(out@, load@, held@);
        proof {
            reveal(Seq::filter);
            assert(vips@.take(k + 1).drop_last() =~= vips@.take(k as int));
            assert(vips@.take(k + 1).last() == vip);
        }
        let stays = match current_holders.get(&vip) {
            Some(holder) => position_of(&nodes, *holder),
            None => None,
        };
        match stays {
            Some(at) => {
                out.insert(vip, nodes[at]);
                load[at] = load[at] + 1;
                held[at].insert(vip, ());
                proof {
                    assert(placement_of(out@, load@, held@) =~~= put(before, nodes@, vip, at as int));
                }
            },
            None => {
                left_over.push(vip);
            },
        }
        k += 1;
    }

    // Pass 2: orphans go to the least-loaded node.
    let mut j: usize = 0;
    let ghost kept = placement_of(out@, load@, held@);
    proof {
        assert(vips@.take(k as int) =~= vips@);
        assert(left_over@.take(0) =~= Seq::empty());
    }
    while j < left_over.len()
        invariant
            n == nodes@.len(),
            n > 0,
            n == load@.len(),
            n == held@.len(),
            j <= left_over@.len(),
            k == vips@.len(),
            placement_of(out@, load@, held@) == spread_pass(kept, nodes@, left_over@.take(j as int)),
            forall|i: int| 0 <= i < n ==> #[trigger] load@[i] + (left_over@.len() - j) <= vips@.len(),
        decreases left_over@.len() - j,
    {
        let vip = left_over[j];
        let ghost before = placement_of(out@, load@, held@);
        proof {
            assert(left_over@.take(j + 1).drop_last() =~= left_over@.take(j as int));
            assert(left_over@.take(j + 1).last() == vip);
        }
        if let Some(at) = least_loaded_node(&load) {
            out.insert(vip, nodes[at]);
            load[at] = load[at] + 1;
            held[at].insert(vip, ());
            proof {
                assert(placement_of(out@, load@, held@) =~~= put(before, nodes@, vip, at as int));
            }
        }
        j += 1;
    }
    proof { assert(left_over@.take(j as int) =~= left_over@); }

    // Pass 3: even out the loads.
    let ghost goal = rebalance(placement_of(out@, load@, held@), nodes@);
    let mut done = false;
    while !done
        invariant
            n == nodes@.len(),
            n > 0,
            n == load@.len(),
            n == held@.len(),
            rebalance(placement_of(out@, load@, held@), nodes@) == goal,
            done ==> placement_of(out@, load@, held@) == goal,
            forall|i: int| 0 <= i < n ==> #[trigger] load@[i] <= vips@.len(),
        decreases sum_of_squares(loads(load@)), (if done { 0int } else { 1int }),
    {
        let ghost before = placement_of(out@, load@, held@);
        done = true;
        if let Some(donor) = most_loaded_node(&load) {
            if let Some(receiver) = least_loaded_node(&load) {
                let ghost l = loads(load@);
                assert(l[donor as int] == load@[donor as int] && l[receiver as int] == load@[receiver as int]);
                if load[donor] > 1 && load[donor] - 1 > load[receiver] {
                    let highest = match held[donor].last() {
                        Some((vip, _)) => Some(*vip),
                        None => None,
                    };
                    proof {
                        assert(before.held[donor as int] == held@[donor as int]@.dom());
                        if highest is None {
                            assert(before.held[donor as int] =~= Set::<IpAddr>::empty());
                        }
                    }
                    if let Some(vip) = highest {
                        proof {
                            let s = before.held[donor as int];
                            assert(s.contains(vip));
                            assert(is_highest(s, vip));
                            lemma_highest(s, vip);
                            assert(uneven(before));
                            lemma_shift_decreases(before, nodes@);
                        }
                        out.insert(vip, nodes[receiver]);
                        held[donor].remove(&vip);
                        held[receiver].insert(vip, ());
                        load[donor] = load[donor] - 1;
                        load[receiver] = load[receiver] + 1;
                        done = false;
                        proof {
                            assert(placement_of(out@, load@, held@) =~~= shift(before, nodes@, donor as int, receiver as int));
                        }
                    }
                }
            }
        }
    }
}

/// The highest address of a set is unique.
proof fn lemma_highest(vips: Set<IpAddr>, vip: IpAddr)
    requires
        is_highest(vips, vip),
    ensures
        crate::raft::store::placement::highest(vips) == vip,
{
    let other = crate::raft::store::placement::highest(vips);
    assert(is_highest(vips, other));
    assert(vips.contains(other) && vips.contains(vip));
}

/// The ids in ascending order, each once.
fn distinct_ids(ids: &[u64]) -> (s: Vec<u64>)
    ensures
        s@ == sorted_distinct(ids@),
        s@.no_duplicates(),
        s@.len() == 0 <==> ids@.len() == 0,
        forall|id: u64| #[trigger] s@.contains(id) == ids@.contains(id),
{
    let mut set: OrdMap<u64, ()> = OrdMap::new();
    let mut i: usize = 0;
    while i < ids.len()
        invariant
            i <= ids@.len(),
            forall|id: u64| #[trigger] set@.contains_key(id) == ids@.take(i as int).contains(id),
        decreases ids@.len() - i,
    {
        set.insert(ids[i], ());
        proof {
            assert(ids@.take(i + 1) =~= ids@.take(i as int).push(ids@[i as int]));
            assert forall|id: u64| ids@.take(i + 1).contains(id) == (ids@.take(i as int).contains(id) || id == ids@[i as int]) by {
                if ids@.take(i as int).contains(id) {
                    let x = ids@.take(i as int).index_of(id);
                    assert(ids@.take(i + 1)[x] == id);
                }
                assert(ids@.take(i + 1)[i as int] == ids@[i as int]);
            }
        }
        i += 1;
    }
    let s = set.keys();
    proof {
        assert(ids@.take(i as int) =~= ids@);
        assert(s@.to_set() =~= ids@.to_set());
        lemma_sorted_distinct(ids@, s@);
        if ids@.len() > 0 {
            assert(ids@.contains(ids@[0]));
            assert(s@.contains(ids@[0]));
        }
        if s@.len() > 0 {
            assert(s@.contains(s@[0]));
        }
    }
    s
}

/// How many different ids there are.
pub fn count_distinct(ids: &[u64]) -> (n: usize)
    ensures
        n == ids@.to_set().len(),
{
    let distinct = distinct_ids(ids);
    proof {
        distinct@.unique_seq_to_set();
        assert(distinct@.to_set() =~= ids@.to_set());
    }
    distinct.len()
}

/// `a + b`, or the greatest number there is.
pub open spec fn saturating_sum(a: u64, b: u64) -> u64 {
    if a + b > u64::MAX { u64::MAX } else { (a + b) as u64 }
}

/// A node may hold a VIP: it is not blocked, its last report is healthy, its last committed probe
/// round is no more than `stale_missed_probes` behind the cluster's, and if it is recovering, at
/// least `failback_delay_ticks` rounds have passed since it recovered.
pub open spec fn eligible(
    node_id: u64,
    node_health: Map<u64, bool>,
    node_probe_ticks: Map<u64, u64>,
    latest_probe_tick: u64,
    stale_missed_probes: u64,
    failback_delay_ticks: u64,
    node_recovery_tick: Map<u64, u64>,
    node_failback_blocked: Set<u64>,
) -> bool {
    &&& !node_failback_blocked.contains(node_id)
    &&& node_health.contains_key(node_id) && node_health[node_id]
    &&& node_probe_ticks.contains_key(node_id)
    &&& latest_probe_tick - node_probe_ticks[node_id] <= stale_missed_probes
    &&& failback_delay_ticks > 0 && node_recovery_tick.contains_key(node_id)
        ==> latest_probe_tick - node_recovery_tick[node_id] >= failback_delay_ticks
}

/// Decide whether `node_id` is currently eligible to hold a VIP.
///
/// A node that was never unhealthy has no recovery tick and is not delayed.
pub fn is_node_eligible(
    node_id: u64,
    node_health: &HashMap<u64, bool>,
    node_probe_ticks: &HashMap<u64, u64>,
    latest_probe_tick: u64,
    stale_missed_probes: u64,
    failback_delay_ticks: u64,
    node_recovery_tick: &HashMap<u64, u64>,
    node_failback_blocked: &HashSet<u64>,
) -> (b: bool)
    ensures
        b == eligible(
            node_id,
            node_health@,
            node_probe_ticks@,
            latest_probe_tick,
            stale_missed_probes,
            failback_delay_ticks,
            node_recovery_tick@,
            node_failback_blocked@,
        ),
{
    broadcast use vstd::std_specs::hash::group_hash_axioms;

    if node_failback_blocked.contains(&node_id) {
        return false;
    }
    let healthy = match node_health.get(&node_id) {
        Some(healthy) => *healthy,
        None => false,
    };
    if !healthy {
        return false;
    }
    let last_tick: u64 = match node_probe_ticks.get(&node_id) {
        Some(tick) => *tick,
        None => return false,
    };
    if latest_probe_tick.saturating_sub(last_tick) > stale_missed_probes {
        return false;
    }
    if failback_delay_ticks > 0 {
        if let Some(recovery_tick) = node_recovery_tick.get(&node_id) {
            if latest_probe_tick.saturating_sub(*recovery_tick) < failback_delay_ticks {
                return false;
            }
        }
    }
    true
}

/// One more than the node's last committed round, but never behind the cluster's frontier.
pub open spec fn next_tick(prev: Option<u64>, latest_probe_tick: u64) -> u64 {
    let own = saturating_sum(match prev { Some(tick) => tick, None => 0 }, 1);
    if own < latest_probe_tick { latest_probe_tick } else { own }
}

/// Compute a node's next committed probe tick when it publishes a health update.
///
/// A node returning after downtime catches up with the frontier in a single update, while a node
/// that has stopped publishing keeps falling behind.
pub fn next_probe_tick(prev: Option<u64>, latest_probe_tick: u64) -> (tick: u64)
    ensures
        tick == next_tick(prev, latest_probe_tick),
{
    let last: u64 = match prev {
        Some(tick) => tick,
        None => 0,
    };
    let own: u64 = last.saturating_add(1);
    if own < latest_probe_tick {
        latest_probe_tick
    } else {
        own
    }
}

/// The voters that may hold a VIP, in ascending order.
pub open spec fn eligible_voters(
    membership: MembershipView,
    node_health: Map<u64, bool>,
    node_probe_ticks: Map<u64, u64>,
    latest_probe_tick: u64,
    stale_missed_probes: u64,
    failback_delay_ticks: u64,
    node_recovery_tick: Map<u64, u64>,
    node_failback_blocked: Set<u64>,
) -> Seq<u64> {
    sorted_distinct(voters(membership.configs)).filter(
        |id: u64| eligible(
            id,
            node_health,
            node_probe_ticks,
            latest_probe_tick,
            stale_missed_probes,
            failback_delay_ticks,
            node_recovery_tick,
            node_failback_blocked,
        ),
    )
}

fn eligible_nodes(
    membership: &Membership,
    node_health: &HashMap<u64, bool>,
    node_probe_ticks: &HashMap<u64, u64>,
    latest_probe_tick: u64,
    stale_missed_probes: u64,
    failback_delay_ticks: u64,
    node_recovery_tick: &HashMap<u64, u64>,
    node_failback_blocked: &HashSet<u64>,
) -> (ids: Vec<u64>)
    ensures
        ids@ == eligible_voters(
            membership@,
            node_health@,
            node_probe_ticks@,
            latest_probe_tick,
            stale_missed_probes,
            failback_delay_ticks,
            node_recovery_tick@,
            node_failback_blocked@,
        ),
{
    let voters = membership.voter_ids();
    let members = distinct_ids(&voters);
    let ghost pred = |id: u64| eligible(
        id,
        node_health@,
        node_probe_ticks@,
        latest_probe_tick,
        stale_missed_probes,
        failback_delay_ticks,
        node_recovery_tick@,
        node_failback_blocked@,
    );
    let mut ids: Vec<u64> = Vec::new();
    let mut i: usize = 0;
    assert(members@.take(0).filter(pred) =~= Seq::empty()) by { reveal(Seq::filter); }
    while i < members.len()
        invariant
            i <= members@.len(),
            pred == (|id: u64| eligible(
                id,
                node_health@,
                node_probe_ticks@,
                latest_probe_tick,
                stale_missed_probes,
                failback_delay_ticks,
                node_recovery_tick@,
                node_failback_blocked@,
            )),
            ids@ == members@.take(i as int).filter(pred),
        decreases members@.len() - i,
    {
        proof {
            reveal(Seq::filter);
            assert(members@.take(i + 1).drop_last() =~= members@.take(i as int));
            assert(members@.take(i + 1).last() == members@[i as int]);
        }
        if is_node_eligible(
            members[i],
            node_health,
            node_probe_ticks,
            latest_probe_tick,
            stale_missed_probes,
            failback_delay_ticks,
            node_recovery_tick,
            node_failback_blocked,
        ) {
            ids.push(members[i]);
        }
        i += 1;
    }
    assert(members@.take(i as int) =~= members@);
    ids
}

/// The addresses of a VIP list.
pub open spec fn addresses(vip_list: Seq<(VipAddr, String)>) -> Seq<IpAddr> {
    vip_list.map_values(|v: (VipAddr, String)| v.0.addr)
}

/// Recompute the holder of every VIP from membership, reported health, committed probe rounds, the
/// configured VIP list and the prior committed holders.
///
/// Eligible nodes are the voters for which [`is_node_eligible`] holds. VIPs stay on their current
/// eligible holder where possible, and only orphaned or imbalanced VIPs move.
pub fn recompute_vip_holder(
    membership: &Membership,
    node_health: &HashMap<u64, bool>,
    node_probe_ticks: &HashMap<u64, u64>,
    latest_probe_tick: u64,
    stale_missed_probes: u64,
    failback_delay_ticks: u64,
    node_recovery_tick: &HashMap<u64, u64>,
    node_failback_blocked: &HashSet<u64>,
    vip_list: &[(VipAddr, String)],
    current_holders: &AddrMap<u64>,
    out: &mut AddrMap<u64>,
)
    ensures
        final(out)@ == minimal_movement(
            eligible_voters(
                membership@,
                node_health@,
                node_probe_ticks@,
                latest_probe_tick,
                stale_missed_probes,
                failback_delay_ticks,
                node_recovery_tick@,
                node_failback_blocked@,
            ),
            addresses(vip_list@),
            current_holders@,
        ),
{
    let ids = eligible_nodes(
        membership,
        node_health,
        node_probe_ticks,
        latest_probe_tick,
        stale_missed_probes,
        failback_delay_ticks,
        node_recovery_tick,
        node_failback_blocked,
    );
    let mut vips: Vec<IpAddr> = Vec::new();
    let mut i: usize = 0;
    while i < vip_list.len()
        invariant
            i <= vip_list@.len(),
            vips@ == addresses(vip_list@).take(i as int),
        decreases vip_list@.len() - i,
    {
        vips.push(vip_list[i].0.addr);
        i += 1;
        assert(vips@ =~= addresses(vip_list@).take(i as int));
    }
    assert(vips@ =~= addresses(vip_list@));
    assign_vips_minimal_movement(&ids, &vips, current_holders, out);
}

/// The generation last used for a VIP.
pub open spec fn last_generation(generations: Map<IpAddr, u64>, vip: IpAddr) -> u64 {
    if generations.contains_key(vip) { generations[vip] } else { 0 }
}

/// The assignment that follows `old` when `holder` is to hold the VIP.
///
/// The same holder keeps its assignment. A new holder opens a new generation; it takes over from
/// the old holder, which has yet to release, or from nobody.
pub open spec fn successor(
    old_assignment: Option<VipAssignment>,
    holder: u64,
    used_generation: u64,
    latest_probe_tick: u64,
) -> VipAssignment {
    match old_assignment {
        Some(existing) => if existing.holder == holder {
            existing
        } else {
            VipAssignment {
                holder,
                generation: saturating_sum(used_generation, 1),
                previous_holder: Some(existing.holder),
                previous_holder_released: false,
                activation_tick: saturating_sum(latest_probe_tick, OWNERSHIP_ACTIVATION_HOLDOFF_TICKS),
            }
        },
        None => VipAssignment {
            holder,
            generation: saturating_sum(used_generation, 1),
            previous_holder: None,
            previous_holder_released: true,
            activation_tick: latest_probe_tick,
        },
    }
}

/// Assignments on the way from the old to the new ones: those already decided, those of the old
/// ones not yet looked at, and the generations used.
#[verifier::ext_equal]
pub struct Handover {
    pub decided: Map<IpAddr, VipAssignment>,
    pub pending: Map<IpAddr, VipAssignment>,
    pub generations: Map<IpAddr, u64>,
}

/// Decide one VIP. Without a new holder it has no assignment, and its generation stays used.
pub open spec fn decide(h: Handover, vip: IpAddr, new_holders: Map<IpAddr, u64>, latest_probe_tick: u64) -> Handover {
    let old_assignment = if h.pending.contains_key(vip) { Some(h.pending[vip]) } else { None };
    let pending = h.pending.remove(vip);
    if !new_holders.contains_key(vip) {
        Handover { pending, ..h }
    } else {
        let next = successor(old_assignment, new_holders[vip], last_generation(h.generations, vip), latest_probe_tick);
        Handover {
            decided: h.decided.insert(vip, next),
            pending,
            generations: if old_assignment is Some && old_assignment->0.holder == new_holders[vip] {
                h.generations
            } else {
                h.generations.insert(vip, next.generation)
            },
        }
    }
}

/// Decide all VIPs of a list, one after the other.
pub open spec fn handover(
    vips: Seq<IpAddr>,
    new_holders: Map<IpAddr, u64>,
    latest_probe_tick: u64,
    assignments: Map<IpAddr, VipAssignment>,
    generations: Map<IpAddr, u64>,
) -> Handover
    decreases vips.len(),
{
    if vips.len() == 0 {
        Handover { decided: Map::empty(), pending: assignments, generations }
    } else {
        decide(
            handover(vips.drop_last(), new_holders, latest_probe_tick, assignments, generations),
            vips.last(),
            new_holders,
            latest_probe_tick,
        )
    }
}

/// Merge the newly recomputed holders into the committed fenced assignment state.
///
/// Every holder change bumps the per-VIP generation and records the previous holder that has to
/// release before a healthy replacement may activate.
pub fn reconcile_vip_assignments(
    new_holders: &AddrMap<u64>,
    latest_probe_tick: u64,
    vip_list: &[(VipAddr, String)],
    out_assignments: &mut AddrMap<VipAssignment>,
    vip_generation: &mut AddrMap<u64>,
)
    ensures
        ({
            let h = handover(
                addresses(vip_list@),
                new_holders@,
                latest_probe_tick,
                old(out_assignments)@,
                old(vip_generation)@,
            );
            &&& final(out_assignments)@ == h.decided
            &&& final(vip_generation)@ == h.generations
        }),
{
    let ghost (assignments, generations) = (out_assignments@, vip_generation@);
    let ghost vips = addresses(vip_list@);
    let mut next: AddrMap<VipAssignment> = OrdMap::new();
    let mut i: usize = 0;
    proof { assert(vips.take(0) =~= Seq::empty()); }
    while i < vip_list.len()
        invariant
            i <= vip_list@.len(),
            vips == addresses(vip_list@),
            (Handover { decided: next@, pending: out_assignments@, generations: vip_generation@ })
                == handover(vips.take(i as int), new_holders@, latest_probe_tick, assignments, generations),
        decreases vip_list@.len() - i,
    {
        let vip = vip_list[i].0.addr;
        let ghost before = Handover { decided: next@, pending: out_assignments@, generations: vip_generation@ };
        proof {
            assert(vips.take(i + 1).drop_last() =~= vips.take(i as int));
            assert(vips.take(i + 1).last() == vip);
        }
        let old_assignment = out_assignments.remove(&vip);
        let current_generation: u64 = match vip_generation.get(&vip) {
            Some(generation) => *generation,
            None => 0,
        };
        if let Some(holder) = new_holders.get(&vip) {
            let assignment = match old_assignment {
                Some(existing) => {
                    if existing.holder == *holder {
                        existing
                    } else {
                        let generation: u64 = current_generation.saturating_add(1);
                        vip_generation.insert(vip, generation);
                        VipAssignment {
                            holder: *holder,
                            generation,
                            previous_holder: Some(existing.holder),
                            previous_holder_released: false,
                            activation_tick: latest_probe_tick.saturating_add(OWNERSHIP_ACTIVATION_HOLDOFF_TICKS),
                        }
                    }
                },
                None => {
                    let generation: u64 = current_generation.saturating_add(1);
                    vip_generation.insert(vip, generation);
                    VipAssignment {
                        holder: *holder,
                        generation,
                        previous_holder: None,
                        previous_holder_released: true,
                        activation_tick: latest_probe_tick,
                    }
                },
            };
            next.insert(vip, assignment);
        }
        i += 1;
        proof {
            assert((Handover { decided: next@, pending: out_assignments@, generations: vip_generation@ })
                =~= decide(before, vip, new_holders@, latest_probe_tick));
        }
    }
    proof { assert(vips.take(i as int) =~= vips); }
    *out_assignments = next;
}

/// VIP `i` goes to eligible node `i` modulo their number; a VIP listed twice goes where its last
/// listing says.
pub open spec fn round_robin(eligible: Seq<u64>, vips: Seq<IpAddr>) -> Map<IpAddr, u64>
    decreases vips.len(),
{
    if eligible.len() == 0 || vips.len() == 0 {
        Map::empty()
    } else {
        let i = vips.len() - 1;
        round_robin(eligible, vips.drop_last()).insert(vips[i], eligible[i % eligible.len() as int])
    }
}

/// Assign VIPs to holders in list order, round-robin over `eligible`.
///
/// This is where [`assign_vips_minimal_movement`] puts the VIPs when none is held yet.
pub fn assign_vips_round_robin_eligible(
    eligible: &[u64],
    vip_addrs_in_order: &[IpAddr],
    out: &mut AddrMap<u64>,
)
    ensures
        final(out)@ == round_robin(eligible@, vip_addrs_in_order@),
{
    *out = OrdMap::new();
    if eligible.len() == 0 {
        return;
    }
    let ghost vips = vip_addrs_in_order@;
    let mut i: usize = 0;
    while i < vip_addrs_in_order.len()
        invariant
            eligible@.len() > 0,
            i <= vips.len(),
            vips == vip_addrs_in_order@,
            out@ == round_robin(eligible@, vips.take(i as int)),
        decreases vips.len() - i,
    {
        let holder: u64 = eligible[i % eligible.len()];
        proof {
            assert(vips.take(i + 1).drop_last() =~= vips.take(i as int));
            assert(vips.take(i + 1)[i as int] == vips[i as int]);
        }
        out.insert(vip_addrs_in_order[i], holder);
        i += 1;
    }
    proof { assert(vips.take(i as int) =~= vips); }
}

} // verus!
