//! Which nodes may hold a VIP, and when: reason by reason, and over the log.

use vstd::prelude::*;

use std::collections::{HashMap, HashSet};

use crate::raft::store::state::{Replicated, Settings};
use crate::raft::store::state_machine::{applied, applied_all, eligible_in};
use crate::raft::store::store_laws::lemma_eligible_in;
use crate::raft::store::vip_logic::is_node_eligible;
use crate::raft::types::{voters, EntryView, KafRequest, LogId, PayloadView};

verus! {

/// A node is eligible exactly if none of five things keeps it out: it is blocked, its last report
/// is not a healthy one, it has no probe round, the frontier is further ahead of it than the window
/// allows, or the frontier has not yet reached the end of its failback delay. The window has no part
/// in the delay, and the delay none in the window.
pub proof fn law_a_node_is_eligible_unless_something_keeps_it_out(
    node_id: u64,
    node_health: &HashMap<u64, bool>,
    node_probe_ticks: &HashMap<u64, u64>,
    latest_probe_tick: u64,
    stale_missed_probes: u64,
    failback_delay_ticks: u64,
    node_recovery_tick: &HashMap<u64, u64>,
    node_failback_blocked: &HashSet<u64>,
    b: bool,
)
    requires
        call_ensures(
            is_node_eligible,
            (
                node_id,
                node_health,
                node_probe_ticks,
                latest_probe_tick,
                stale_missed_probes,
                failback_delay_ticks,
                node_recovery_tick,
                node_failback_blocked,
            ),
            b,
        ),
    ensures
        node_failback_blocked@.contains(node_id) ==> !b,
        !node_health@.contains_key(node_id) ==> !b,
        node_health@.contains_key(node_id) && !node_health@[node_id] ==> !b,
        !node_probe_ticks@.contains_key(node_id) ==> !b,
        node_probe_ticks@.contains_key(node_id) && latest_probe_tick > node_probe_ticks@[node_id] + stale_missed_probes ==> !b,
        failback_delay_ticks > 0 && node_recovery_tick@.contains_key(node_id) && latest_probe_tick < node_recovery_tick@[node_id]
            + failback_delay_ticks ==> !b,
        ({
            &&& !node_failback_blocked@.contains(node_id)
            &&& node_health@.contains_key(node_id) && node_health@[node_id]
            &&& node_probe_ticks@.contains_key(node_id)
            &&& latest_probe_tick <= node_probe_ticks@[node_id] + stale_missed_probes
            &&& failback_delay_ticks == 0 || !node_recovery_tick@.contains_key(node_id) || latest_probe_tick
                >= node_recovery_tick@[node_id] + failback_delay_ticks
        }) ==> b,
{
}

/// The same facts in the terms of a state: an eligible node is a voter of one of the voter sets that
/// nothing keeps out.
pub proof fn law_the_eligible_nodes_are_the_voters_that_nothing_keeps_out(c: Settings, r: Replicated, node: u64)
    ensures
        eligible_in(c, r).contains(node) <==> {
            &&& exists|i: int| 0 <= i < r.last_membership.membership.configs.len() && (#[trigger] r.last_membership.membership.configs[i]).contains(node)
            &&& !r.node_failback_blocked.contains(node)
            &&& r.node_health.contains_key(node) && r.node_health[node]
            &&& r.node_probe_ticks.contains_key(node)
            &&& r.latest_probe_tick <= r.node_probe_ticks[node] + c.stale_missed_probes
            &&& c.failback_delay_ticks == 0 || !r.node_recovery_tick.contains_key(node) || r.latest_probe_tick
                >= r.node_recovery_tick[node] + c.failback_delay_ticks
        },
{
    lemma_eligible_in(c, r, node);
    lemma_voters(r.last_membership.membership.configs, node);
}

/// The voters are the members of the voter sets.
pub proof fn lemma_voters(configs: Seq<Seq<u64>>, node: u64)
    ensures
        voters(configs).contains(node) <==> exists|i: int| 0 <= i < configs.len() && (#[trigger] configs[i]).contains(node),
    decreases configs.len(),
{
    if configs.len() > 0 {
        let (front, last) = (configs.drop_last(), configs.last());
        lemma_voters(front, node);
        let all = voters(configs);
        if all.contains(node) {
            let k = all.index_of(node);
            if k < voters(front).len() {
                assert(voters(front)[k] == node);
                let i = choose|i: int| 0 <= i < front.len() && (#[trigger] front[i]).contains(node);
                assert(configs[i].contains(node));
            } else {
                assert(last[k - voters(front).len()] == node);
                assert(configs[configs.len() - 1].contains(node));
            }
        }
        if exists|i: int| 0 <= i < configs.len() && (#[trigger] configs[i]).contains(node) {
            let i = choose|i: int| 0 <= i < configs.len() && (#[trigger] configs[i]).contains(node);
            if i < front.len() {
                assert(front[i].contains(node));
                assert(all[voters(front).index_of(node)] == node);
            } else {
                assert(all[voters(front).len() + last.index_of(node)] == node);
            }
        }
    }
}

/// What is true of a node from its recovery at round `t` on: it is unhealthy, or it recovered no
/// earlier than that.
spec fn waits_since(r: Replicated, node: u64, t: u64) -> bool {
    &&& r.node_health.contains_key(node)
    &&& r.latest_probe_tick >= t
    &&& r.node_health[node] ==> r.node_recovery_tick.contains_key(node) && r.node_recovery_tick[node] >= t
}

proof fn lemma_waits_since(c: Settings, r: Replicated, entries: Seq<EntryView>, node: u64, t: u64)
    requires
        waits_since(r, node, t),
    ensures
        waits_since(applied_all(c, r, entries), node, t),
    decreases entries.len(),
{
    if entries.len() > 0 {
        lemma_waits_since(c, r, entries.drop_last(), node, t);
    }
}

/// A node whose report turns from unhealthy to healthy at some round is in no later state eligible
/// before the failback delay has passed since that round, whatever is applied in between and
/// whatever the staleness window is.
pub proof fn law_a_recovered_node_waits_out_the_whole_delay(
    c: Settings,
    r: Replicated,
    log_id: LogId,
    node: u64,
    entries: Seq<EntryView>,
)
    requires
        r.node_health.contains_key(node),
        !r.node_health[node],
    ensures
        ({
            let request = KafRequest::HealthUpdate { node_id: node, healthy: true };
            let recovered = applied(c, r, EntryView { log_id, payload: PayloadView::Normal(request) });
            let later = applied_all(c, recovered, entries);
            later.latest_probe_tick < recovered.latest_probe_tick + c.failback_delay_ticks ==> !eligible_in(c, later).contains(node)
        }),
{
    let request = KafRequest::HealthUpdate { node_id: node, healthy: true };
    let recovered = applied(c, r, EntryView { log_id, payload: PayloadView::Normal(request) });
    let t = recovered.latest_probe_tick;
    lemma_waits_since(c, recovered, entries, node, t);
    law_the_eligible_nodes_are_the_voters_that_nothing_keeps_out(c, applied_all(c, recovered, entries), node);
}

/// What is true of a node that goes on reporting healthy after it recovered at round `t`.
spec fn back_since(r: Replicated, node: u64, t: u64) -> bool {
    &&& r.node_health.contains_key(node) && r.node_health[node]
    &&& r.node_recovery_tick.contains_key(node) && r.node_recovery_tick[node] == t
}

proof fn lemma_back_since(c: Settings, r: Replicated, entries: Seq<EntryView>, node: u64, t: u64)
    requires
        back_since(r, node, t),
        forall|i: int| 0 <= i < entries.len() ==> (#[trigger] entries[i]).payload != PayloadView::Normal(
            KafRequest::HealthUpdate { node_id: node, healthy: false },
        ),
    ensures
        back_since(applied_all(c, r, entries), node, t),
    decreases entries.len(),
{
    if entries.len() > 0 {
        let front = entries.drop_last();
        assert forall|i: int| 0 <= i < front.len() implies (#[trigger] front[i]).payload != PayloadView::Normal(
            KafRequest::HealthUpdate { node_id: node, healthy: false },
        ) by {
            assert(entries[i].payload == front[i].payload);
        }
        lemma_back_since(c, r, front, node, t);
        assert(entries[entries.len() - 1] == entries.last());
    }
}

/// A voter that recovered and has reported no failure since is eligible again once the delay has
/// passed and its last report is within the window, unless it is blocked.
pub proof fn law_a_recovered_node_is_back_after_the_delay(
    c: Settings,
    r: Replicated,
    log_id: LogId,
    node: u64,
    entries: Seq<EntryView>,
)
    requires
        r.node_health.contains_key(node),
        !r.node_health[node],
        forall|i: int| 0 <= i < entries.len() ==> (#[trigger] entries[i]).payload != PayloadView::Normal(
            KafRequest::HealthUpdate { node_id: node, healthy: false },
        ),
    ensures
        ({
            let request = KafRequest::HealthUpdate { node_id: node, healthy: true };
            let recovered = applied(c, r, EntryView { log_id, payload: PayloadView::Normal(request) });
            let later = applied_all(c, recovered, entries);
            ({
                &&& exists|i: int| 0 <= i < later.last_membership.membership.configs.len() && (#[trigger] later.last_membership.membership.configs[i]).contains(node)
                &&& !later.node_failback_blocked.contains(node)
                &&& later.node_probe_ticks.contains_key(node)
                &&& later.latest_probe_tick <= later.node_probe_ticks[node] + c.stale_missed_probes
                &&& later.latest_probe_tick >= recovered.latest_probe_tick + c.failback_delay_ticks
            }) ==> eligible_in(c, later).contains(node)
        }),
{
    let request = KafRequest::HealthUpdate { node_id: node, healthy: true };
    let recovered = applied(c, r, EntryView { log_id, payload: PayloadView::Normal(request) });
    lemma_back_since(c, recovered, entries, node, recovered.latest_probe_tick);
    law_the_eligible_nodes_are_the_voters_that_nothing_keeps_out(c, applied_all(c, recovered, entries), node);
}

} // verus!
