//! What holds of the replicated state and of the log, whatever is applied, purged or installed.

use vstd::prelude::*;

use crate::addr::IpAddr;
use crate::order::{ascending, lemma_sorted_distinct_exists, sorted_distinct};
use crate::raft::store::handover_laws::law_each_vip_is_decided_by_itself;
use crate::raft::store::log::{
    appended, commit_frontier, covers_boundary, entries_in, in_range, indices_in, purged, tail_id,
    truncated, IndexBound,
};
use crate::raft::store::placement::minimal_movement;
use crate::raft::store::placement_laws::law_every_vip_is_held_by_an_eligible_node;
use crate::raft::store::state::{
    blank, snapshot_id_at, Replicated, Settings, StorageView, VipAssignment,
};
use crate::raft::store::state_machine::{
    ack_counts, adopted, applied, applied_all, eligible_in, health_reported, holders, installed,
    reassigned, vip_released,
};
use crate::raft::store::vip_logic::{eligible, last_generation};
use crate::raft::types::{voters, EntryView, KafRequest, LogId, PayloadView};
use crate::text::{all_digits, decimal, digit_value, lemma_numeral, lemma_numeral_injective};

verus! {

/// Some node is at this probe round, unless it is the very start.
pub open spec fn reached(ticks: Map<u64, u64>, round: u64) -> bool {
    round > 0 ==> exists|n: u64| #[trigger] ticks.contains_key(n) && ticks[n] == round
}

/// What every reachable replicated state keeps.
pub open spec fn consistent(c: Settings, r: Replicated) -> bool {
    // No node is ahead of the frontier, and some node is at it.
    &&& forall|n: u64| #[trigger] r.node_probe_ticks.contains_key(n) ==> r.node_probe_ticks[n] <= r.latest_probe_tick
    &&& reached(r.node_probe_ticks, r.latest_probe_tick)
    // Only nodes that have reported have a probe round, and the other way round.
    &&& r.node_probe_ticks.dom() == r.node_health.dom()
    // Only healthy nodes are recovering, and not since the future.
    &&& forall|n: u64| #[trigger] r.node_recovery_tick.contains_key(n) ==> {
        &&& r.node_health.contains_key(n) && r.node_health[n]
        &&& r.node_recovery_tick[n] <= r.node_probe_ticks[n]
    }
    // Nodes are blocked only where failback is off.
    &&& c.failback ==> r.node_failback_blocked == Set::<u64>::empty()
    &&& forall|vip: IpAddr| #[trigger] r.vip_assignments.contains_key(vip) ==> {
        let a = r.vip_assignments[vip];
        // Only configured VIPs are assigned, in the generation last used for them.
        &&& c.vips.contains(vip)
        &&& a.generation == last_generation(r.vip_generation, vip)
        // A VIP is taken over from another node, or from none, and then nothing is waited for.
        &&& a.previous_holder != Some(a.holder)
        &&& a.previous_holder is None ==> a.previous_holder_released
    }
}

/// A fresh state is consistent.
pub proof fn law_fresh_state_is_consistent(c: Settings)
    ensures
        consistent(c, blank()),
{
    assert(blank().node_probe_ticks.dom() =~= blank().node_health.dom());
}

proof fn lemma_reassigned(c: Settings, r: Replicated)
    requires
        c.vips.no_duplicates(),
        consistent(c, r),
    ensures
        consistent(c, reassigned(c, r)),
{
    let next = reassigned(c, r);
    let new_holders = minimal_movement(eligible_in(c, r), c.vips, holders(r.vip_assignments));
    assert forall|vip: IpAddr| #[trigger] next.vip_assignments.contains_key(vip) implies {
        let a = next.vip_assignments[vip];
        &&& c.vips.contains(vip)
        &&& a.generation == last_generation(next.vip_generation, vip)
        &&& a.previous_holder != Some(a.holder)
        &&& a.previous_holder is None ==> a.previous_holder_released
    } by {
        law_each_vip_is_decided_by_itself(c.vips, new_holders, r.latest_probe_tick, r.vip_assignments, r.vip_generation, vip);
        if r.vip_assignments.contains_key(vip) {
            assert(r.vip_assignments[vip].generation == last_generation(r.vip_generation, vip));
        }
    }
}

/// Applying an entry keeps the state consistent.
pub proof fn law_applying_keeps_consistency(c: Settings, r: Replicated, e: EntryView)
    requires
        c.vips.no_duplicates(),
        consistent(c, r),
    ensures
        consistent(c, applied(c, r, e)),
{
    let start = Replicated { last_applied: Some(e.log_id), ..r };
    assert(consistent(c, start));
    match e.payload {
        PayloadView::Normal(KafRequest::HealthUpdate { node_id, healthy }) => {
            let next = health_reported(c, start, node_id, healthy);
            assert(next.node_probe_ticks.dom() =~= next.node_health.dom());
            assert(next.node_probe_ticks.contains_key(node_id));
            assert(consistent(c, next));
            lemma_reassigned(c, next);
        },
        PayloadView::Normal(KafRequest::VipReleased { node_id, vip, generation }) => {
            let next = vip_released(start, node_id, vip, generation);
            assert(start.node_probe_ticks == next.node_probe_ticks);
        },
        PayloadView::Membership(membership) => {
            let next = applied(c, r, e);
            let before = Replicated { last_membership: next.last_membership, ..start };
            assert(consistent(c, before));
            lemma_reassigned(c, before);
        },
        _ => {
        },
    }
}

/// Applying any list of entries keeps the state consistent.
pub proof fn law_every_reachable_state_is_consistent(c: Settings, r: Replicated, entries: Seq<EntryView>)
    requires
        c.vips.no_duplicates(),
        consistent(c, r),
    ensures
        consistent(c, applied_all(c, r, entries)),
    decreases entries.len(),
{
    if entries.len() > 0 {
        law_every_reachable_state_is_consistent(c, r, entries.drop_last());
        law_applying_keeps_consistency(c, applied_all(c, r, entries.drop_last()), entries.last());
    }
}

/// The nodes that may hold a VIP in this state are the eligible voters.
pub proof fn lemma_eligible_in(c: Settings, r: Replicated, node: u64)
    ensures
        eligible_in(c, r).contains(node) <==> {
            &&& voters(r.last_membership.membership.configs).contains(node)
            &&& eligible(
                node,
                r.node_health,
                r.node_probe_ticks,
                r.latest_probe_tick,
                c.stale_missed_probes,
                c.failback_delay_ticks,
                r.node_recovery_tick,
                r.node_failback_blocked,
            )
        },
{
    let all = voters(r.last_membership.membership.configs);
    let list = sorted_distinct(all);
    lemma_sorted_distinct_exists(all);
    let pred = |id: u64| eligible(
        id,
        r.node_health,
        r.node_probe_ticks,
        r.latest_probe_tick,
        c.stale_missed_probes,
        c.failback_delay_ticks,
        r.node_recovery_tick,
        r.node_failback_blocked,
    );
    assert(list.filter(pred) =~= eligible_in(c, r));
    let chosen = list.filter(pred);
    if chosen.contains(node) {
        list.lemma_filter_contains_rev(pred, node);
        let i = chosen.index_of(node);
        list.lemma_filter_pred(pred, i);
        assert(pred(node));
    }
    if all.contains(node) && pred(node) {
        assert(list.contains(node));
        list.lemma_filter_contains(pred, list.index_of(node));
    }
}

/// After a health report or a membership change, every assigned VIP is held by an eligible voter,
/// and with any such voter every configured VIP is assigned.
pub proof fn law_vips_are_held_by_eligible_voters(c: Settings, r: Replicated, e: EntryView, vip: IpAddr)
    requires
        c.vips.no_duplicates(),
        e.payload is Membership || (e.payload is Normal && e.payload->Normal_0 is HealthUpdate),
    ensures
        ({
            let after = applied(c, r, e);
            &&& after.vip_assignments.contains_key(vip) <==> c.vips.contains(vip) && eligible_in(c, after).len() > 0
            &&& after.vip_assignments.contains_key(vip) ==> {
                let node = after.vip_assignments[vip].holder;
                &&& voters(after.last_membership.membership.configs).contains(node)
                &&& eligible(
                    node,
                    after.node_health,
                    after.node_probe_ticks,
                    after.latest_probe_tick,
                    c.stale_missed_probes,
                    c.failback_delay_ticks,
                    after.node_recovery_tick,
                    after.node_failback_blocked,
                )
            }
        }),
{
    let start = Replicated { last_applied: Some(e.log_id), ..r };
    let before = match e.payload {
        PayloadView::Normal(KafRequest::HealthUpdate { node_id, healthy }) => health_reported(c, start, node_id, healthy),
        _ => Replicated { last_membership: applied(c, r, e).last_membership, ..start },
    };
    let after = applied(c, r, e);
    assert(after == reassigned(c, before));
    assert(eligible_in(c, after) == eligible_in(c, before));
    let new_holders = minimal_movement(eligible_in(c, before), c.vips, holders(before.vip_assignments));
    law_every_vip_is_held_by_an_eligible_node(eligible_in(c, before), c.vips, holders(before.vip_assignments));
    law_each_vip_is_decided_by_itself(c.vips, new_holders, before.latest_probe_tick, before.vip_assignments, before.vip_generation, vip);
    assert(c.vips.to_set().contains(vip) == c.vips.contains(vip));
    if eligible_in(c, before).len() > 0 {
        assert(new_holders.contains_key(vip) == c.vips.contains(vip)) by {
            assert(new_holders.dom() == c.vips.to_set());
        }
    }
    if after.vip_assignments.contains_key(vip) {
        assert(new_holders.contains_key(vip));
        assert(after.vip_assignments[vip].holder == new_holders[vip]);
        lemma_eligible_in(c, after, new_holders[vip]);
    }
}

/// The first committed incarnation is the cluster's for good.
pub proof fn law_cluster_epoch_is_set_once(c: Settings, r: Replicated, entries: Seq<EntryView>)
    requires
        r.cluster_epoch is Some,
    ensures
        applied_all(c, r, entries).cluster_epoch == r.cluster_epoch,
    decreases entries.len(),
{
    if entries.len() > 0 {
        law_cluster_epoch_is_set_once(c, r, entries.drop_last());
    }
}

/// A release ack of another generation, or from a node that is not the one to release, changes
/// nothing; one that counts changes nothing but the released flag of its VIP.
pub proof fn law_release_acks_are_fenced(c: Settings, r: Replicated, log_id: LogId, node_id: u64, vip: IpAddr, generation: u64)
    ensures
        ({
            let request = KafRequest::VipReleased { node_id, vip, generation };
            let after = applied(c, r, EntryView { log_id, payload: PayloadView::Normal(request) });
            &&& after == (Replicated { last_applied: Some(log_id), vip_assignments: after.vip_assignments, ..r })
            &&& !ack_counts(r, node_id, vip, generation) ==> after.vip_assignments == r.vip_assignments
            &&& ack_counts(r, node_id, vip, generation) ==> {
                &&& after.vip_assignments[vip] == (VipAssignment { previous_holder_released: true, ..r.vip_assignments[vip] })
                &&& after.vip_assignments.remove(vip) == r.vip_assignments.remove(vip)
            }
        }),
{
    let request = KafRequest::VipReleased { node_id, vip, generation };
    let after = applied(c, r, EntryView { log_id, payload: PayloadView::Normal(request) });
    assert(after.vip_assignments.remove(vip) =~= r.vip_assignments.remove(vip));
}

/// Without failback, a node that once failed is never given a VIP again.
pub proof fn law_blocked_nodes_stay_blocked(c: Settings, r: Replicated, entries: Seq<EntryView>, node: u64)
    requires
        r.node_failback_blocked.contains(node),
    ensures
        applied_all(c, r, entries).node_failback_blocked.contains(node),
        !eligible_in(c, applied_all(c, r, entries)).contains(node),
    decreases entries.len(),
{
    if entries.len() > 0 {
        law_blocked_nodes_stay_blocked(c, r, entries.drop_last(), node);
    }
    lemma_eligible_in(c, applied_all(c, r, entries), node);
}

/// A node that reports a failure without failback is blocked.
pub proof fn law_failure_without_failback_blocks(c: Settings, r: Replicated, log_id: LogId, node_id: u64)
    requires
        !c.failback,
    ensures
        ({
            let request = KafRequest::HealthUpdate { node_id, healthy: false };
            applied(c, r, EntryView { log_id, payload: PayloadView::Normal(request) }).node_failback_blocked.contains(node_id)
        }),
{
}

/// A node that recovers is kept waiting until the failback delay has passed.
pub proof fn law_recovered_node_waits(c: Settings, r: Replicated, log_id: LogId, node_id: u64)
    requires
        c.failback_delay_ticks > 0,
        r.node_health.contains_key(node_id),
        !r.node_health[node_id],
    ensures
        ({
            let request = KafRequest::HealthUpdate { node_id, healthy: true };
            let after = applied(c, r, EntryView { log_id, payload: PayloadView::Normal(request) });
            &&& after.node_recovery_tick.contains_key(node_id)
            &&& after.node_recovery_tick[node_id] == after.latest_probe_tick
            &&& !eligible_in(c, after).contains(node_id)
        }),
{
    let request = KafRequest::HealthUpdate { node_id, healthy: true };
    let after = applied(c, r, EntryView { log_id, payload: PayloadView::Normal(request) });
    lemma_eligible_in(c, after, node_id);
}

/// Probe rounds and the frontier never go back.
pub proof fn law_probe_rounds_never_go_back(c: Settings, r: Replicated, e: EntryView, node: u64)
    requires
        consistent(c, r),
    ensures
        applied(c, r, e).latest_probe_tick >= r.latest_probe_tick,
        r.node_probe_ticks.contains_key(node) ==> applied(c, r, e).node_probe_ticks.contains_key(node)
            && applied(c, r, e).node_probe_ticks[node] >= r.node_probe_ticks[node],
{
}

/// No VIP's generation ever goes back.
pub proof fn law_applied_generations_never_go_back(c: Settings, r: Replicated, e: EntryView, vip: IpAddr)
    requires
        c.vips.no_duplicates(),
    ensures
        last_generation(applied(c, r, e).vip_generation, vip) >= last_generation(r.vip_generation, vip),
{
    let start = Replicated { last_applied: Some(e.log_id), ..r };
    let before = match e.payload {
        PayloadView::Normal(KafRequest::HealthUpdate { node_id, healthy }) => health_reported(c, start, node_id, healthy),
        PayloadView::Membership(_) => Replicated { last_membership: applied(c, r, e).last_membership, ..start },
        _ => start,
    };
    let new_holders = minimal_movement(eligible_in(c, before), c.vips, holders(before.vip_assignments));
    law_each_vip_is_decided_by_itself(c.vips, new_holders, before.latest_probe_tick, before.vip_assignments, before.vip_generation, vip);
}

/// Installing the snapshot of a consistent state gives that state back, on any member with the
/// same settings.
pub proof fn law_snapshot_restores_the_state(s: StorageView, r: Replicated)
    requires
        consistent(s.settings, r),
    ensures
        installed(s, r).replicated == r,
        installed(s, r).current_snapshot == Some(r),
{
    assert(adopted(s.settings, r) =~= r);
}

/// Catching up by snapshot and then applying the rest ends where applying everything ends.
pub proof fn law_snapshot_then_rest_equals_all(s: StorageView, c: Settings, entries: Seq<EntryView>, at: int)
    requires
        s.settings == c,
        c.vips.no_duplicates(),
        0 <= at <= entries.len(),
    ensures
        applied_all(c, installed(s, applied_all(c, blank(), entries.take(at))).replicated, entries.skip(at))
            == applied_all(c, blank(), entries),
{
    let front = applied_all(c, blank(), entries.take(at));
    law_fresh_state_is_consistent(c);
    law_every_reachable_state_is_consistent(c, blank(), entries.take(at));
    law_snapshot_restores_the_state(s, front);
    lemma_applied_all_split(c, blank(), entries, at);
}

proof fn lemma_applied_all_split(c: Settings, r: Replicated, entries: Seq<EntryView>, at: int)
    requires
        0 <= at <= entries.len(),
    ensures
        applied_all(c, applied_all(c, r, entries.take(at)), entries.skip(at)) == applied_all(c, r, entries),
    decreases entries.len(),
{
    if at == entries.len() {
        assert(entries.take(at) =~= entries);
        assert(entries.skip(at) =~= Seq::empty());
    } else {
        let front = entries.drop_last();
        lemma_applied_all_split(c, r, front, at);
        assert(front.take(at) =~= entries.take(at));
        assert(entries.skip(at).drop_last() =~= front.skip(at));
        assert(entries.skip(at).last() == entries.last());
    }
}

/// A node that allows failback takes over no blocked nodes from a snapshot, whoever built it.
pub proof fn law_failback_never_adopts_blocked_nodes(s: StorageView, r: Replicated)
    requires
        s.settings.failback,
    ensures
        installed(s, r).replicated.node_failback_blocked == Set::<u64>::empty(),
{
}

/// Two digit sequences, each followed by a character that is no digit, are told apart.
proof fn lemma_digits_then(a: Seq<char>, b: Seq<char>, x: Seq<char>, y: Seq<char>)
    requires
        all_digits(a, 10),
        all_digits(b, 10),
        x.len() > 0 && digit_value(x[0], 10) is None,
        y.len() > 0 && digit_value(y[0], 10) is None,
        a + x == b + y,
    ensures
        a == b,
        x == y,
{
    let s = a + x;
    if a.len() < b.len() {
        assert(s[a.len() as int] == x[0]);
        assert((b + y)[a.len() as int] == b[a.len() as int]);
    } else if b.len() < a.len() {
        assert((b + y)[b.len() as int] == y[0]);
        assert(s[b.len() as int] == a[b.len() as int]);
    }
    assert(a =~= b) by {
        assert forall|i: int| 0 <= i < a.len() implies a[i] == b[i] by {
            assert(s[i] == a[i] && (b + y)[i] == b[i]);
        }
    }
    assert(s.len() == (b + y).len());
    assert(x =~= y) by {
        assert forall|i: int| 0 <= i < x.len() implies x[i] == y[i] by {
            assert(s[a.len() + i] == x[i] && (b + y)[b.len() + i] == y[i]);
        }
    }
}

/// Snapshots at different log ids have different ids, also at the same index in different terms.
pub proof fn law_snapshot_ids_are_distinct(a: LogId, b: LogId)
    requires
        snapshot_id_at(a) == snapshot_id_at(b),
    ensures
        a == b,
{
    reveal_strlit("snapshot-");
    reveal_strlit("T");
    reveal_strlit("-N");
    reveal_strlit(".");
    let head = "snapshot-"@ + "T"@;
    let (ta, tb) = (decimal(a.term as nat), decimal(b.term as nat));
    let (na, nb) = (decimal(a.node_id as nat), decimal(b.node_id as nat));
    let (ia, ib) = (decimal(a.index as nat), decimal(b.index as nat));
    lemma_numeral(a.term as nat, 10);
    lemma_numeral(b.term as nat, 10);
    lemma_numeral(a.node_id as nat, 10);
    lemma_numeral(b.node_id as nat, 10);
    let (la, lb) = ("."@ + ia, "."@ + ib);
    let (ra, rb) = ("-N"@ + (na + la), "-N"@ + (nb + lb));
    assert(snapshot_id_at(a) =~= head + (ta + ra));
    assert(snapshot_id_at(b) =~= head + (tb + rb));
    assert(ta + ra =~= snapshot_id_at(a).skip(head.len() as int));
    assert(tb + rb =~= snapshot_id_at(b).skip(head.len() as int));
    lemma_digits_then(ta, tb, ra, rb);
    assert(na + la =~= ra.skip(2));
    assert(nb + lb =~= rb.skip(2));
    lemma_digits_then(na, nb, la, lb);
    assert(ia =~= la.skip(1));
    assert(ib =~= lb.skip(1));
    lemma_numeral_injective(a.term as nat, b.term as nat, 10);
    lemma_numeral_injective(a.node_id as nat, b.node_id as nat, 10);
    lemma_numeral_injective(a.index as nat, b.index as nat, 10);
}

/// What the log keeps: every entry stands at its own index, above the purge boundary.
pub open spec fn well_formed(s: StorageView) -> bool {
    &&& s.log.dom().finite()
    &&& forall|i: u64| #[trigger] s.log.contains_key(i) ==> {
        &&& s.log[i].log_id.index == i
        &&& s.last_purged is Some ==> i > s.last_purged->0.index
    }
}

/// Purging, truncating and installing a snapshot keep the log well formed, and so does applying an
/// entry, which leaves the log alone.
pub proof fn law_log_stays_well_formed(s: StorageView, id: LogId, last: Option<LogId>, snapshot: Replicated)
    requires
        well_formed(s),
    ensures
        well_formed(purged(s, id)),
        well_formed(truncated(s, last)),
        well_formed(installed(s, snapshot)),
{
    assert(purged(s, id).log.dom().subset_of(s.log.dom()));
    assert(truncated(s, last).log.dom().subset_of(s.log.dom()));
    assert(installed(s, snapshot).log.dom().subset_of(s.log.dom()));
    vstd::set_lib::lemma_len_subset(purged(s, id).log.dom(), s.log.dom());
    vstd::set_lib::lemma_len_subset(truncated(s, last).log.dom(), s.log.dom());
    vstd::set_lib::lemma_len_subset(installed(s, snapshot).log.dom(), s.log.dom());
}

/// Entries whose indices ascend, as a leader sends them.
pub open spec fn in_log_order(entries: Seq<EntryView>) -> bool {
    forall|i: int, j: int| 0 <= i < j < entries.len() ==> #[trigger] entries[i].log_id.index < #[trigger] entries[j].log_id.index
}

/// Appending entries in log order keeps the log well formed: the purged prefix never comes back.
pub proof fn law_appending_keeps_the_log_well_formed(s: StorageView, entries: Seq<EntryView>)
    requires
        well_formed(s),
        in_log_order(entries),
    ensures
        well_formed(appended(s, entries)),
        s.last_purged is Some ==> appended(s, entries).last_purged == s.last_purged,
    decreases entries.len(),
{
    lemma_appended(s, entries);
}

proof fn lemma_appended(s: StorageView, entries: Seq<EntryView>)
    requires
        well_formed(s),
        in_log_order(entries),
    ensures
        well_formed(appended(s, entries)),
        s.last_purged is Some ==> appended(s, entries).last_purged == s.last_purged,
        s.last_purged is None && appended(s, entries).last_purged is Some ==> entries.len() > 0
            && appended(s, entries).last_purged->0.index < entries[0].log_id.index,
    decreases entries.len(),
{
    if entries.len() > 0 {
        let front = entries.drop_last();
        assert(in_log_order(front)) by {
            assert forall|i: int, j: int| 0 <= i < j < front.len() implies #[trigger] front[i].log_id.index < #[trigger] front[j].log_id.index by {
                assert(entries[i].log_id.index < entries[j].log_id.index);
            }
        }
        lemma_appended(s, front);
        let mid = appended(s, front);
        let after = appended(s, entries);
        let e = entries.last();
        if front.len() > 0 {
            assert(front[0] == entries[0]);
            if s.last_purged is None {
                assert(mid.log.contains_key(front.last().log_id.index));
                assert(mid.log.dom().contains(front.last().log_id.index));
            }
            assert(entries[0].log_id.index < entries[entries.len() - 1].log_id.index);
        }
        assert forall|i: u64| #[trigger] after.log.contains_key(i) implies {
            &&& after.log[i].log_id.index == i
            &&& after.last_purged is Some ==> i > after.last_purged->0.index
        } by {
            if i != e.log_id.index {
                assert(mid.log.contains_key(i));
                assert(mid.log.dom().contains(i));
            }
        }
    }
}

/// An entry above the boundary, and the last for its index, is there after an append.
pub proof fn law_appended_entries_are_read_back(s: StorageView, entries: Seq<EntryView>, k: int)
    requires
        in_log_order(entries),
        0 <= k < entries.len(),
        s.last_purged is Some ==> entries[k].log_id.index > s.last_purged->0.index,
    ensures
        appended(s, entries).log.contains_key(entries[k].log_id.index),
        appended(s, entries).log[entries[k].log_id.index] == entries[k],
    decreases entries.len(),
{
    let front = entries.drop_last();
    if k < front.len() {
        assert(in_log_order(front)) by {
            assert forall|i: int, j: int| 0 <= i < j < front.len() implies #[trigger] front[i].log_id.index < #[trigger] front[j].log_id.index by {
                assert(entries[i].log_id.index < entries[j].log_id.index);
            }
        }
        law_appended_entries_are_read_back(s, front, k);
        assert(entries[k].log_id.index < entries[entries.len() - 1].log_id.index);
    }
}

/// After a truncation, everything that is sent again from there is taken in.
pub proof fn law_truncated_log_can_be_refilled(s: StorageView, last: Option<LogId>, entries: Seq<EntryView>, k: int)
    requires
        in_log_order(entries),
        0 <= k < entries.len(),
        last is Some ==> entries[k].log_id.index > last->0.index,
    ensures
        appended(truncated(s, last), entries).log.contains_key(entries[k].log_id.index),
        appended(truncated(s, last), entries).log[entries[k].log_id.index] == entries[k],
{
    law_appended_entries_are_read_back(truncated(s, last), entries, k);
}

/// Purging and installing a snapshot never move the purge boundary back, and leave nothing at or
/// below it.
pub proof fn law_purge_boundary_never_moves_back(s: StorageView, id: LogId, snapshot: Replicated)
    ensures
        purged(s, id).last_purged is Some,
        purged(s, id).last_purged->0.index >= id.index,
        s.last_purged is Some ==> purged(s, id).last_purged->0.index >= s.last_purged->0.index,
        forall|i: u64| #[trigger] purged(s, id).log.contains_key(i) ==> i > id.index,
        s.last_purged is Some ==> installed(s, snapshot).last_purged is Some
            && installed(s, snapshot).last_purged->0.index >= s.last_purged->0.index,
        snapshot.last_applied matches Some(l) ==> {
            &&& installed(s, snapshot).last_purged is Some
            &&& installed(s, snapshot).last_purged->0.index >= l.index
            &&& forall|i: u64| #[trigger] installed(s, snapshot).log.contains_key(i) ==> i > l.index
        },
{
}

/// After a snapshot was installed that reaches the purge boundary, the boundary is where the snapshot
/// ends, and the log goes on above it.
pub proof fn law_log_goes_on_where_a_snapshot_ends(s: StorageView, snapshot: Replicated)
    requires
        snapshot.last_applied is Some,
        s.last_purged is Some ==> s.last_purged->0.index <= snapshot.last_applied->0.index,
    ensures
        ({
            let (after, end) = (installed(s, snapshot), snapshot.last_applied->0.index);
            &&& after.replicated.last_applied == snapshot.last_applied
            &&& after.last_purged is Some && after.last_purged->0.index == end
            &&& forall|i: u64| #[trigger] after.log.contains_key(i) <==> s.log.contains_key(i) && i > end
        }),
{
}

/// The commit frontier is never behind what was saved or applied. It is beyond both only where the
/// log reaches the purge boundary, and so it can be served wherever what was saved can.
pub proof fn law_commit_frontier_can_be_served(s: StorageView)
    ensures
        ({
            let f = commit_frontier(s);
            let (saved, done) = (s.committed, s.replicated.last_applied);
            &&& saved is Some ==> f is Some && f->0.index >= saved->0.index
            &&& done is Some ==> f is Some && f->0.index >= done->0.index
            &&& f is Some && f != saved && f != done ==> f == s.last_purged && covers_boundary(s)
            &&& f is Some && f != saved ==> {
                ||| done is Some && f->0.index <= done->0.index
                ||| tail_id(s.log) is Some && f->0.index <= tail_id(s.log)->0.index
            }
        }),
{
}

/// A range of a log lists the entries within it once each, in log order.
pub proof fn law_range_lists_every_entry_once(log: Map<u64, EntryView>, start: IndexBound, end: IndexBound, index: u64)
    requires
        log.dom().finite(),
    ensures
        ascending(indices_in(log, start, end)),
        indices_in(log, start, end).contains(index) <==> log.contains_key(index) && in_range(start, end, index),
        entries_in(log, start, end).len() == indices_in(log, start, end).len(),
{
    let wanted = log.dom().filter(|i: u64| in_range(start, end, i));
    let list = wanted.to_seq();
    wanted.lemma_to_seq_to_set_id();
    lemma_sorted_distinct_exists(list);
    assert(sorted_distinct(list).to_set() == wanted);
    let found = indices_in(log, start, end);
    assert(found.contains(index) == found.to_set().contains(index));
    assert(found.to_set().contains(index) == wanted.contains(index));
}

/// A range whose start is past its end holds no entry.
pub proof fn law_inverted_range_is_empty(log: Map<u64, EntryView>, first: u64, past: u64)
    requires
        log.dom().finite(),
        past <= first,
    ensures
        entries_in(log, IndexBound::Included(first), IndexBound::Excluded(past)) == Seq::<EntryView>::empty(),
{
    let (start, end) = (IndexBound::Included(first), IndexBound::Excluded(past));
    let found = indices_in(log, start, end);
    if found.len() > 0 {
        law_range_lists_every_entry_once(log, start, end, found[0]);
        assert(found.contains(found[0]));
    }
    assert(entries_in(log, start, end) =~= Seq::<EntryView>::empty());
}

/// The id of a snapshot spells out the log id at which it was taken: term, node and index.
pub proof fn law_a_snapshot_id_spells_out_its_log_id(id: LogId)
    ensures
        snapshot_id_at(id) == "snapshot-T"@ + decimal(id.term as nat) + "-N"@ + decimal(id.node_id as nat) + "."@ + decimal(id.index as nat),
{
    reveal_strlit("snapshot-");
    reveal_strlit("T");
    reveal_strlit("snapshot-T");
    assert("snapshot-T"@ =~= "snapshot-"@ + "T"@);
    assert(snapshot_id_at(id) =~= "snapshot-T"@ + decimal(id.term as nat) + "-N"@ + decimal(id.node_id as nat) + "."@ + decimal(id.index as nat));
}

} // verus!
