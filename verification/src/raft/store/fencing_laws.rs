//! What keeps two nodes at different places of the log from both holding a VIP.

use vstd::prelude::*;

use crate::addr::IpAddr;
use crate::raft::store::handover_laws::law_each_vip_is_decided_by_itself;
use crate::raft::store::placement::minimal_movement;
use crate::raft::store::state::{Replicated, Settings, StorageView};
use crate::raft::store::state_machine::{
    applied, applied_all, eligible_in, health_reported, holders, reassigned,
};
use crate::raft::store::store_laws::{
    consistent, law_every_reachable_state_is_consistent, law_vips_are_held_by_eligible_voters,
    lemma_eligible_in,
};
use crate::raft::store::vip_logic::saturating_sum;
use crate::raft::types::{EntryView, KafRequest, PayloadView};
use crate::vip::{assigned, wanted};

verus! {

/// At some place of the list, from its start to its end, the node was no eligible voter.
pub open spec fn was_out(c: Settings, r: Replicated, entries: Seq<EntryView>, node: u64) -> bool {
    exists|k: int| 0 <= k <= entries.len() && !#[trigger] eligible_in(c, applied_all(c, r, entries.take(k))).contains(node)
}

/// The list holds the node's ack that it has released the VIP in this generation.
pub open spec fn acked(entries: Seq<EntryView>, node_id: u64, vip: IpAddr, generation: u64) -> bool {
    entries.map_values(|e: EntryView| e.payload).contains(
        PayloadView::Normal(KafRequest::VipReleased { node_id, vip, generation }),
    )
}

/// What follows from an assignment over a list of entries: as long as its holder stays eligible, the
/// VIP stays assigned, and the next generation names that holder as the one to release.
spec fn followed(c: Settings, r: Replicated, entries: Seq<EntryView>, vip: IpAddr) -> bool {
    let a = r.vip_assignments[vip];
    let now = applied_all(c, r, entries);
    let b = now.vip_assignments[vip];
    was_out(c, r, entries, a.holder) || {
        &&& now.vip_assignments.contains_key(vip)
        &&& b.generation >= a.generation
        &&& b.generation == a.generation ==> b.holder == a.holder
        &&& b.generation == a.generation + 1 ==> {
            &&& b.previous_holder == Some(a.holder)
            &&& b.previous_holder_released ==> acked(entries, a.holder, vip, b.generation)
        }
    }
}

proof fn lemma_still_out(c: Settings, r: Replicated, entries: Seq<EntryView>, node: u64)
    requires
        entries.len() > 0,
        was_out(c, r, entries.drop_last(), node),
    ensures
        was_out(c, r, entries, node),
{
    let front = entries.drop_last();
    let k = choose|k: int| 0 <= k <= front.len() && !#[trigger] eligible_in(c, applied_all(c, r, front.take(k))).contains(node);
    assert(front.take(k) =~= entries.take(k));
}

proof fn lemma_out_now(c: Settings, r: Replicated, entries: Seq<EntryView>, node: u64)
    requires
        !eligible_in(c, applied_all(c, r, entries)).contains(node),
    ensures
        was_out(c, r, entries, node),
{
    assert(entries.take(entries.len() as int) =~= entries);
}

proof fn lemma_acked(entries: Seq<EntryView>, node_id: u64, vip: IpAddr, generation: u64)
    requires
        entries.len() > 0,
    ensures
        acked(entries.drop_last(), node_id, vip, generation) ==> acked(entries, node_id, vip, generation),
        entries.last().payload == PayloadView::Normal(KafRequest::VipReleased { node_id, vip, generation }) ==> acked(
            entries,
            node_id,
            vip,
            generation,
        ),
{
    let ack = PayloadView::Normal(KafRequest::VipReleased { node_id, vip, generation });
    let front = entries.drop_last().map_values(|e: EntryView| e.payload);
    let all = entries.map_values(|e: EntryView| e.payload);
    if front.contains(ack) {
        assert(all[front.index_of(ack)] == ack);
    }
    assert(all[entries.len() - 1] == entries.last().payload);
}

/// A health report or a membership change that leaves an eligible voter keeps a VIP with its holder,
/// or hands it over in the next generation.
proof fn lemma_redecided(c: Settings, r: Replicated, e: EntryView, vip: IpAddr)
    requires
        c.vips.no_duplicates(),
        consistent(c, r),
        r.vip_assignments.contains_key(vip),
        e.payload is Membership || (e.payload is Normal && e.payload->Normal_0 is HealthUpdate),
        eligible_in(c, applied(c, r, e)).len() > 0,
    ensures
        ({
            let (a, b) = (r.vip_assignments[vip], applied(c, r, e).vip_assignments[vip]);
            &&& applied(c, r, e).vip_assignments.contains_key(vip)
            &&& b == a || {
                &&& b.generation == saturating_sum(a.generation, 1)
                &&& b.previous_holder == Some(a.holder)
                &&& !b.previous_holder_released
            }
        }),
{
    let start = Replicated { last_applied: Some(e.log_id), ..r };
    let before = match e.payload {
        PayloadView::Normal(KafRequest::HealthUpdate { node_id, healthy }) => health_reported(c, start, node_id, healthy),
        _ => Replicated { last_membership: applied(c, r, e).last_membership, ..start },
    };
    let after = applied(c, r, e);
    assert(after == reassigned(c, before));
    law_vips_are_held_by_eligible_voters(c, r, e, vip);
    assert(c.vips.contains(vip));
    let new_holders = minimal_movement(eligible_in(c, before), c.vips, holders(before.vip_assignments));
    law_each_vip_is_decided_by_itself(c.vips, new_holders, before.latest_probe_tick, before.vip_assignments, before.vip_generation, vip);
}

proof fn lemma_followed(c: Settings, r: Replicated, entries: Seq<EntryView>, vip: IpAddr)
    requires
        c.vips.no_duplicates(),
        consistent(c, r),
        r.vip_assignments.contains_key(vip),
        r.vip_assignments[vip].generation + 1 < u64::MAX,
    ensures
        followed(c, r, entries, vip),
    decreases entries.len(),
{
    let a = r.vip_assignments[vip];
    if entries.len() > 0 {
        let front = entries.drop_last();
        let e = entries.last();
        let was = applied_all(c, r, front);
        let now = applied_all(c, r, entries);
        let moved = e.payload is Membership || (e.payload is Normal && e.payload->Normal_0 is HealthUpdate);
        lemma_followed(c, r, front, vip);
        law_every_reachable_state_is_consistent(c, r, front);
        lemma_acked(entries, a.holder, vip, (a.generation + 1) as u64);
        if was_out(c, r, front, a.holder) {
            lemma_still_out(c, r, entries, a.holder);
        } else if !eligible_in(c, now).contains(a.holder) {
            lemma_out_now(c, r, entries, a.holder);
        } else if moved {
            assert(eligible_in(c, now).len() > 0);
            lemma_redecided(c, was, e, vip);
        }
    }
}

/// A node takes over a VIP only once the one before it is out of the way.
///
/// Take two places of the log, the later one with the VIP in the generation after the earlier one's.
/// A node that binds at the later place does so only if in between the earlier holder has acked its
/// release, or was no eligible voter for a while. So a holder that is eligible and has not yet
/// applied the change, and therefore not yet removed the address, is alone on the VIP.
pub proof fn law_takeover_waits_for_the_earlier_holder(
    s: StorageView,
    earlier: Replicated,
    entries: Seq<EntryView>,
    vip: IpAddr,
    has_leader: bool,
    local_healthy: bool,
    consensus_fresh: bool,
    node_id: u64,
)
    requires
        s.settings.vips.no_duplicates(),
        consistent(s.settings, earlier),
        s.replicated == applied_all(s.settings, earlier, entries),
        earlier.vip_assignments.contains_key(vip),
        earlier.vip_assignments[vip].generation + 1 < u64::MAX,
        assigned(s, vip) matches Some(a) && a.generation == earlier.vip_assignments[vip].generation + 1,
        wanted(s, has_leader, local_healthy, consensus_fresh, node_id, vip),
    ensures
        ({
            let old_holder = earlier.vip_assignments[vip].holder;
            ||| acked(entries, old_holder, vip, s.replicated.vip_assignments[vip].generation)
            ||| was_out(s.settings, earlier, entries, old_holder)
        }),
{
    let old_holder = earlier.vip_assignments[vip].holder;
    lemma_followed(s.settings, earlier, entries, vip);
    lemma_eligible_in(s.settings, s.replicated, old_holder);
    if !eligible_in(s.settings, s.replicated).contains(old_holder) {
        lemma_out_now(s.settings, earlier, entries, old_holder);
    }
}

} // verus!
