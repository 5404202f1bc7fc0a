//! What holds of every VIP placement.

use vstd::prelude::*;

use crate::addr::IpAddr;
use crate::order::{
    ascending, lemma_ascending_no_duplicates, lemma_ascending_unique, lemma_sorted,
    lemma_sorted_distinct, lemma_sorted_distinct_exists, lemma_sorted_keeps, sorted,
    sorted_distinct, Ranked,
};
use crate::raft::store::placement::{
    highest, is_highest, is_least, keep_pass, keepable, least, lemma_least, lemma_most,
    lemma_shift_decreases, minimal_movement, most, nothing_placed, orphans, place, put, rebalance,
    shift, spread_pass, sum_of_squares, uneven, Placement,
};
use crate::raft::store::vip_logic::round_robin;

verus! {

/// The VIPs that a node holds.
pub open spec fn holdings(holders: Map<IpAddr, u64>, node: u64) -> Set<IpAddr> {
    holders.dom().filter(|vip: IpAddr| holders[vip] == node)
}

/// No node holds more than one VIP more than another.
pub open spec fn balanced(holders: Map<IpAddr, u64>, eligible: Seq<u64>) -> bool {
    forall|a: u64, b: u64| #![trigger holdings(holders, a), holdings(holders, b)]
        eligible.contains(a) && eligible.contains(b) ==> holdings(holders, a).len() <= holdings(holders, b).len() + 1
}

/// Every VIP of the list, and no other, is held by an eligible node.
pub open spec fn covers(holders: Map<IpAddr, u64>, eligible: Seq<u64>, vips: Seq<IpAddr>) -> bool {
    &&& holders.dom() == vips.to_set()
    &&& forall|vip: IpAddr| #[trigger] holders.contains_key(vip) ==> eligible.contains(holders[vip])
}

/// The VIPs that are where they were.
pub open spec fn unmoved(current: Map<IpAddr, u64>, holders: Map<IpAddr, u64>) -> Set<IpAddr> {
    holders.dom().filter(|vip: IpAddr| current.contains_key(vip) && current[vip] == holders[vip])
}

/// The VIPs that change hands, orphans included.
pub open spec fn moved(current: Map<IpAddr, u64>, holders: Map<IpAddr, u64>) -> Set<IpAddr> {
    holders.dom().filter(|vip: IpAddr| !(current.contains_key(vip) && current[vip] == holders[vip]))
}

/// A placement whose maps agree about which of the VIPs in `placed` are where.
spec fn sound(p: Placement, nodes: Seq<u64>, placed: Set<IpAddr>) -> bool {
    &&& p.load.len() == nodes.len()
    &&& p.held.len() == nodes.len()
    &&& p.out.dom() == placed
    &&& forall|vip: IpAddr| #[trigger] p.out.contains_key(vip) ==> nodes.contains(p.out[vip])
    &&& forall|i: int| 0 <= i < nodes.len() ==> (#[trigger] p.held[i]).finite() && p.held[i].subset_of(placed)
}

/// Besides, each VIP is counted and held exactly where it is placed.
spec fn exact(p: Placement, nodes: Seq<u64>) -> bool {
    forall|i: int| #![trigger p.held[i]] 0 <= i < nodes.len() ==> {
        &&& p.held[i] == holdings(p.out, nodes[i])
        &&& p.load[i] == p.held[i].len()
    }
}

proof fn lemma_highest_exists(vips: Set<IpAddr>)
    requires
        vips.finite(),
        vips != Set::<IpAddr>::empty(),
    ensures
        is_highest(vips, highest(vips)),
    decreases vips.len(),
{
    if vips.len() == 0 {
        vips.lemma_len0_is_empty();
    }
    let x = vips.choose();
    assert(vips.contains(x));
    let rest = vips.remove(x);
    if rest == Set::<IpAddr>::empty() {
        assert forall|o: IpAddr| #[trigger] vips.contains(o) implies o.rank() <= x.rank() by {
            if o != x {
                assert(rest.contains(o));
            }
        }
        assert(is_highest(vips, x));
    } else {
        lemma_highest_exists(rest);
        let y = highest(rest);
        let z = if x.rank() < y.rank() { y } else { x };
        assert forall|o: IpAddr| #[trigger] vips.contains(o) implies o.rank() <= z.rank() by {
            if o != x {
                assert(rest.contains(o));
            }
        }
        assert(is_highest(vips, z));
    }
}

proof fn lemma_put(p: Placement, nodes: Seq<u64>, placed: Set<IpAddr>, vip: IpAddr, i: int)
    requires
        sound(p, nodes, placed),
        0 <= i < nodes.len(),
        nodes.no_duplicates(),
    ensures
        sound(put(p, nodes, vip, i), nodes, placed.insert(vip)),
        exact(p, nodes) && !placed.contains(vip) ==> exact(put(p, nodes, vip, i), nodes),
{
    let q = put(p, nodes, vip, i);
    assert(q.out.dom() =~= placed.insert(vip));
    assert(nodes.contains(nodes[i]));
    assert forall|j: int| 0 <= j < nodes.len() implies (#[trigger] q.held[j]).finite() && q.held[j].subset_of(placed.insert(vip)) by {
        assert(p.held[j].finite() && p.held[j].subset_of(placed));
    }
    if exact(p, nodes) && !placed.contains(vip) {
        assert forall|j: int| #![trigger q.held[j]] 0 <= j < nodes.len() implies {
            &&& q.held[j] == holdings(q.out, nodes[j])
            &&& q.load[j] == q.held[j].len()
        } by {
            assert(p.held[j] == holdings(p.out, nodes[j]));
            assert(p.held[j].finite() && p.held[j].subset_of(placed));
            assert(q.held[j] =~= holdings(q.out, nodes[j]));
        }
    }
}

proof fn lemma_shift(p: Placement, nodes: Seq<u64>, placed: Set<IpAddr>)
    requires
        sound(p, nodes, placed),
        nodes.no_duplicates(),
        uneven(p),
    ensures
        ({
            let q = shift(p, nodes, most(p.load), least(p.load));
            &&& sound(q, nodes, placed)
            &&& exact(p, nodes) ==> exact(q, nodes)
        }),
{
    lemma_least(p.load);
    lemma_most(p.load);
    let (d, r) = (most(p.load), least(p.load));
    let q = shift(p, nodes, d, r);
    let vip = highest(p.held[d]);
    assert(p.held[d].finite());
    lemma_highest_exists(p.held[d]);
    assert(p.held[d].subset_of(placed) && p.held[d].contains(vip));
    assert(q.out.dom() =~= placed);
    assert(nodes.contains(nodes[r]));
    assert forall|j: int| 0 <= j < nodes.len() implies (#[trigger] q.held[j]).finite() && q.held[j].subset_of(placed) by {
        assert(p.held[j].finite() && p.held[j].subset_of(placed));
    }
    if exact(p, nodes) {
        assert(p.held[d] == holdings(p.out, nodes[d]));
        assert(p.held[r] == holdings(p.out, nodes[r]));
        assert forall|j: int| #![trigger q.held[j]] 0 <= j < nodes.len() implies {
            &&& q.held[j] == holdings(q.out, nodes[j])
            &&& q.load[j] == q.held[j].len()
        } by {
            assert(p.held[j] == holdings(p.out, nodes[j]));
            assert(p.held[j].finite());
            assert(q.held[j] =~= holdings(q.out, nodes[j]));
        }
    }
}

proof fn lemma_keep_pass(nodes: Seq<u64>, vips: Seq<IpAddr>, current: Map<IpAddr, u64>)
    requires
        nodes.no_duplicates(),
    ensures
        ({
            let p = keep_pass(nodes, vips, current);
            &&& sound(p, nodes, vips.to_set().filter(|vip: IpAddr| keepable(nodes, current, vip)))
            &&& vips.no_duplicates() ==> exact(p, nodes)
            &&& forall|vip: IpAddr| #[trigger] p.out.contains_key(vip) ==> p.out[vip] == current[vip]
        }),
    decreases vips.len(),
{
    let kept = vips.to_set().filter(|vip: IpAddr| keepable(nodes, current, vip));
    let p = keep_pass(nodes, vips, current);
    if vips.len() == 0 {
        assert(p.out.dom() =~= kept);
        assert forall|j: int| #![trigger p.held[j]] 0 <= j < nodes.len() implies {
            &&& p.held[j] == holdings(p.out, nodes[j])
            &&& p.load[j] == p.held[j].len()
        } by {
            assert(p.held[j] =~= holdings(p.out, nodes[j]));
        }
    } else {
        let front = vips.drop_last();
        let vip = vips.last();
        let before = front.to_set().filter(|vip: IpAddr| keepable(nodes, current, vip));
        lemma_keep_pass(nodes, front, current);
        lemma_last(vips);
        if keepable(nodes, current, vip) {
            assert(kept =~= before.insert(vip));
            let i = nodes.index_of(current[vip]);
            assert(0 <= i < nodes.len() && nodes[i] == current[vip]);
            lemma_put(keep_pass(nodes, front, current), nodes, before, vip, i);
            if vips.no_duplicates() {
                assert(!front.contains(vip));
            }
        } else {
            assert(kept =~= before);
        }
    }
}

proof fn lemma_spread_pass(p: Placement, nodes: Seq<u64>, placed: Set<IpAddr>, vips: Seq<IpAddr>)
    requires
        nodes.len() > 0,
        nodes.no_duplicates(),
        sound(p, nodes, placed),
    ensures
        ({
            let q = spread_pass(p, nodes, vips);
            &&& sound(q, nodes, placed.union(vips.to_set()))
            &&& exact(p, nodes) && vips.no_duplicates() && vips.to_set().disjoint(placed) ==> exact(q, nodes)
        }),
    decreases vips.len(),
{
    if vips.len() == 0 {
        assert(placed.union(vips.to_set()) =~= placed);
    } else {
        let front = vips.drop_last();
        let vip = vips.last();
        lemma_spread_pass(p, nodes, placed, front);
        let q = spread_pass(p, nodes, front);
        lemma_least(q.load);
        lemma_put(q, nodes, placed.union(front.to_set()), vip, least(q.load));
        lemma_last(vips);
        assert(placed.union(front.to_set()).insert(vip) =~= placed.union(vips.to_set()));
        if exact(p, nodes) && vips.no_duplicates() && vips.to_set().disjoint(placed) {
            assert(!front.contains(vip));
            assert(vips.to_set().contains(vip));
            assert forall|v: IpAddr| !(front.to_set().contains(v) && placed.contains(v)) by {
                assert(front.to_set().contains(v) ==> vips.to_set().contains(v));
            }
        }
    }
}

proof fn lemma_rebalance(p: Placement, nodes: Seq<u64>, placed: Set<IpAddr>)
    requires
        nodes.no_duplicates(),
        sound(p, nodes, placed),
    ensures
        ({
            let q = rebalance(p, nodes);
            &&& sound(q, nodes, placed)
            &&& exact(p, nodes) ==> exact(q, nodes)
            &&& !uneven(q)
        }),
    decreases sum_of_squares(p.load),
{
    if uneven(p) {
        lemma_shift(p, nodes, placed);
        lemma_shift_decreases(p, nodes);
        lemma_rebalance(shift(p, nodes, most(p.load), least(p.load)), nodes, placed);
    }
}

proof fn lemma_orphans(nodes: Seq<u64>, vips: Seq<IpAddr>, current: Map<IpAddr, u64>)
    ensures
        vips.no_duplicates() ==> orphans(nodes, vips, current).no_duplicates(),
        forall|vip: IpAddr| #[trigger] orphans(nodes, vips, current).contains(vip) == (vips.contains(vip) && !keepable(nodes, current, vip)),
    decreases vips.len(),
{
    reveal(Seq::filter);
    let o = orphans(nodes, vips, current);
    if vips.len() > 0 {
        let front = vips.drop_last();
        let vip = vips.last();
        lemma_orphans(nodes, front, current);
        let before = orphans(nodes, front, current);
        lemma_last(vips);
        if !keepable(nodes, current, vip) {
            assert(o == before.push(vip));
            lemma_last(o);
            assert(o.drop_last() =~= before);
        }
        if vips.no_duplicates() {
            assert(!front.contains(vip));
            assert(!before.contains(vip));
        }
    }
}

/// A list holds its last element and what stands before it.
proof fn lemma_last<A>(s: Seq<A>)
    requires
        s.len() > 0,
    ensures
        forall|v: A| #[trigger] s.contains(v) == (s.drop_last().contains(v) || v == s.last()),
{
    let front = s.drop_last();
    assert forall|v: A| #[trigger] s.contains(v) == (front.contains(v) || v == s.last()) by {
        if s.contains(v) && v != s.last() {
            assert(front[s.index_of(v)] == v);
        }
        if front.contains(v) {
            assert(s[front.index_of(v)] == v);
        }
        assert(s[s.len() - 1] == s.last());
    }
}

/// The outcome of all three passes over distinct nodes.
proof fn lemma_place(nodes: Seq<u64>, vips: Seq<IpAddr>, current: Map<IpAddr, u64>)
    requires
        nodes.len() > 0,
        nodes.no_duplicates(),
    ensures
        ({
            let p = place(nodes, vips, current);
            &&& sound(p, nodes, vips.to_set())
            &&& !uneven(p)
            &&& vips.no_duplicates() ==> exact(p, nodes)
        }),
{
    let kept = vips.to_set().filter(|vip: IpAddr| keepable(nodes, current, vip));
    let o = orphans(nodes, vips, current);
    lemma_keep_pass(nodes, vips, current);
    lemma_orphans(nodes, vips, current);
    let p = keep_pass(nodes, vips, current);
    lemma_spread_pass(p, nodes, kept, o);
    assert(kept.union(o.to_set()) =~= vips.to_set());
    assert(o.to_set().disjoint(kept));
    lemma_rebalance(spread_pass(p, nodes, o), nodes, vips.to_set());
}

/// An exact placement that is not uneven has loads that differ by at most one.
proof fn lemma_even(p: Placement, nodes: Seq<u64>, placed: Set<IpAddr>)
    requires
        nodes.len() > 0,
        sound(p, nodes, placed),
        exact(p, nodes),
        !uneven(p),
    ensures
        forall|i: int, j: int| 0 <= i < nodes.len() && 0 <= j < nodes.len() ==> #[trigger] p.load[i] <= #[trigger] p.load[j] + 1,
{
    lemma_least(p.load);
    lemma_most(p.load);
    let d = most(p.load);
    if p.held[d] == Set::<IpAddr>::empty() {
        assert(p.load[d] == p.held[d].len());
    }
}

/// With at least one eligible node, every VIP is held, and only by eligible nodes; with none, no
/// VIP is held.
pub proof fn law_every_vip_is_held_by_an_eligible_node(eligible: Seq<u64>, vips: Seq<IpAddr>, current: Map<IpAddr, u64>)
    ensures
        eligible.len() > 0 ==> covers(minimal_movement(eligible, vips, current), eligible, vips),
        eligible.len() == 0 ==> minimal_movement(eligible, vips, current) == Map::<IpAddr, u64>::empty(),
{
    if eligible.len() > 0 {
        lemma_sorted_distinct_exists(eligible);
        lemma_sorted_keeps(vips);
        lemma_place(sorted_distinct(eligible), sorted(vips), current);
    }
}

/// The spread is maximally even: no eligible node holds more than one VIP more than another.
pub proof fn law_spread_at_most_one(eligible: Seq<u64>, vips: Seq<IpAddr>, current: Map<IpAddr, u64>)
    requires
        vips.no_duplicates(),
    ensures
        balanced(minimal_movement(eligible, vips, current), eligible),
{
    if eligible.len() > 0 {
        let nodes = sorted_distinct(eligible);
        lemma_sorted_distinct_exists(eligible);
        lemma_sorted_keeps(vips);
        lemma_place(nodes, sorted(vips), current);
        let p = place(nodes, sorted(vips), current);
        lemma_even(p, nodes, sorted(vips).to_set());
        assert forall|a: u64, b: u64| #![trigger holdings(p.out, a), holdings(p.out, b)]
            eligible.contains(a) && eligible.contains(b) implies holdings(p.out, a).len() <= holdings(p.out, b).len() + 1 by {
            assert(nodes.contains(a) && nodes.contains(b));
            let i = nodes.index_of(a);
            let j = nodes.index_of(b);
            assert(p.held[i] == holdings(p.out, nodes[i]) && p.held[j] == holdings(p.out, nodes[j]));
            assert(p.load[i] <= p.load[j] + 1);
        }
    }
}

/// The outcome depends on which nodes are eligible and which VIPs there are, not on the order in
/// which they are listed.
pub proof fn law_listing_order_is_irrelevant(
    eligible_a: Seq<u64>,
    eligible_b: Seq<u64>,
    vips_a: Seq<IpAddr>,
    vips_b: Seq<IpAddr>,
    current: Map<IpAddr, u64>,
)
    requires
        eligible_a.to_set() == eligible_b.to_set(),
        vips_a.to_multiset() == vips_b.to_multiset(),
    ensures
        minimal_movement(eligible_a, vips_a, current) == minimal_movement(eligible_b, vips_b, current),
{
    lemma_sorted_distinct_exists(eligible_a);
    lemma_sorted_distinct_exists(eligible_b);
    lemma_ascending_unique(sorted_distinct(eligible_a), sorted_distinct(eligible_b));
    lemma_sorted_keeps(vips_a);
    lemma_sorted(vips_b, sorted(vips_a));
}

/// A balanced assignment to eligible nodes is left as it is.
pub proof fn law_balanced_assignment_is_kept(eligible: Seq<u64>, vips: Seq<IpAddr>, current: Map<IpAddr, u64>)
    requires
        vips.no_duplicates(),
        eligible.len() > 0,
        covers(current.restrict(vips.to_set()), eligible, vips),
        balanced(current.restrict(vips.to_set()), eligible),
    ensures
        minimal_movement(eligible, vips, current) == current.restrict(vips.to_set()),
{
    let held = current.restrict(vips.to_set());
    let nodes = sorted_distinct(eligible);
    let list = sorted(vips);
    lemma_sorted_distinct_exists(eligible);
    lemma_sorted_keeps(vips);
    lemma_keep_pass(nodes, list, current);
    lemma_orphans(nodes, list, current);
    let p = keep_pass(nodes, list, current);
    let o = orphans(nodes, list, current);
    let kept = list.to_set().filter(|vip: IpAddr| keepable(nodes, current, vip));
    assert forall|vip: IpAddr| vips.contains(vip) implies keepable(nodes, current, vip) by {
        assert(vips.to_set().contains(vip));
        assert(held.contains_key(vip));
        assert(eligible.contains(held[vip]));
    }
    if o.len() > 0 {
        assert(o.contains(o[0]));
    }
    assert(kept =~= vips.to_set());
    assert(p.out =~= held);
    lemma_least(p.load);
    lemma_most(p.load);
    let (d, r) = (most(p.load), least(p.load));
    assert(p.held[d] == holdings(p.out, nodes[d]) && p.held[r] == holdings(p.out, nodes[r]));
    assert(eligible.contains(nodes[d])) by { assert(nodes.contains(nodes[d])); }
    assert(eligible.contains(nodes[r])) by { assert(nodes.contains(nodes[r])); }
    assert(!uneven(p));
}

/// Computing the assignment again from its own outcome changes nothing.
pub proof fn law_assignment_is_idempotent(eligible: Seq<u64>, vips: Seq<IpAddr>, current: Map<IpAddr, u64>)
    requires
        vips.no_duplicates(),
    ensures
        minimal_movement(eligible, vips, minimal_movement(eligible, vips, current)) == minimal_movement(eligible, vips, current),
{
    let held = minimal_movement(eligible, vips, current);
    law_every_vip_is_held_by_an_eligible_node(eligible, vips, current);
    law_spread_at_most_one(eligible, vips, current);
    if eligible.len() > 0 {
        assert(held.restrict(vips.to_set()) =~= held);
        law_balanced_assignment_is_kept(eligible, vips, held);
    }
}

spec fn total(load: Seq<nat>) -> nat
    decreases load.len(),
{
    if load.len() == 0 {
        0
    } else {
        total(load.drop_last()) + load.last()
    }
}

/// How many VIPs each node holds.
spec fn shares(holders: Map<IpAddr, u64>, nodes: Seq<u64>) -> Seq<nat> {
    Seq::new(nodes.len(), |i: int| holdings(holders, nodes[i]).len())
}

/// Every VIP is counted at exactly one node.
proof fn lemma_partition(holders: Map<IpAddr, u64>, nodes: Seq<u64>)
    requires
        holders.dom().finite(),
        nodes.no_duplicates(),
        forall|vip: IpAddr| #[trigger] holders.contains_key(vip) ==> nodes.contains(holders[vip]),
    ensures
        total(shares(holders, nodes)) == holders.dom().len(),
    decreases nodes.len(),
{
    if nodes.len() == 0 {
        assert forall|vip: IpAddr| !holders.dom().contains(vip) by {
            if holders.contains_key(vip) {
                assert(nodes.contains(holders[vip]));
            }
        }
        assert(holders.dom() =~= Set::empty());
    } else {
        let front = nodes.drop_last();
        let here = holdings(holders, nodes.last());
        let rest = holders.remove_keys(here);
        lemma_last(nodes);
        assert forall|vip: IpAddr| #[trigger] rest.contains_key(vip) implies front.contains(rest[vip]) by {
            assert(holders.contains_key(vip) && !here.contains(vip));
        }
        assert(rest.dom() =~= holders.dom().difference(here));
        vstd::set_lib::lemma_set_disjoint_lens(rest.dom(), here);
        assert(rest.dom() + here =~= holders.dom());
        lemma_partition(rest, front);
        assert(shares(rest, front) =~= shares(holders, nodes).drop_last()) by {
            assert forall|i: int| 0 <= i < front.len() implies holdings(rest, front[i]) == #[trigger] holdings(holders, nodes[i]) by {
                assert(nodes[i] != nodes[nodes.len() - 1]);
                assert(holdings(rest, front[i]) =~= holdings(holders, nodes[i]));
            }
        }
    }
}

proof fn lemma_total_at_least(load: Seq<nat>, low: nat)
    requires
        forall|i: int| 0 <= i < load.len() ==> #[trigger] load[i] >= low,
    ensures
        total(load) >= load.len() * low,
        forall|i: int| 0 <= i < load.len() && #[trigger] load[i] > low ==> total(load) > load.len() * low,
    decreases load.len(),
{
    if load.len() > 0 {
        let front = load.drop_last();
        lemma_total_at_least(front, low);
        assert(load.len() * low == front.len() * low + low) by (nonlinear_arith)
            requires
                load.len() == front.len() + 1,
        ;
        assert forall|i: int| 0 <= i < load.len() && #[trigger] load[i] > low implies total(load) > load.len() * low by {
            if i < front.len() {
                assert(front[i] > low);
            }
        }
    } else {
        assert(0 * low == 0) by (nonlinear_arith);
    }
}

proof fn lemma_total_at_most(load: Seq<nat>, high: nat)
    requires
        forall|i: int| 0 <= i < load.len() ==> #[trigger] load[i] <= high,
    ensures
        total(load) <= load.len() * high,
        forall|i: int| 0 <= i < load.len() && #[trigger] load[i] < high ==> total(load) < load.len() * high,
    decreases load.len(),
{
    if load.len() > 0 {
        let front = load.drop_last();
        lemma_total_at_most(front, high);
        assert(load.len() * high == front.len() * high + high) by (nonlinear_arith)
            requires
                load.len() == front.len() + 1,
        ;
        assert forall|i: int| 0 <= i < load.len() && #[trigger] load[i] < high implies total(load) < load.len() * high by {
            if i < front.len() {
                assert(front[i] < high);
            }
        }
    } else {
        assert(0 * high == 0) by (nonlinear_arith);
    }
}

/// With at least as many eligible nodes as VIPs, no node holds two.
pub proof fn law_enough_nodes_hold_one_vip_each(eligible: Seq<u64>, vips: Seq<IpAddr>, current: Map<IpAddr, u64>, node: u64)
    requires
        vips.no_duplicates(),
        vips.len() <= eligible.to_set().len(),
    ensures
        holdings(minimal_movement(eligible, vips, current), node).len() <= 1,
{
    let held = minimal_movement(eligible, vips, current);
    law_every_vip_is_held_by_an_eligible_node(eligible, vips, current);
    law_spread_at_most_one(eligible, vips, current);
    if eligible.len() == 0 || !eligible.contains(node) {
        assert(holdings(held, node) =~= Set::empty()) by {
            assert forall|vip: IpAddr| !holdings(held, node).contains(vip) by {
                if held.contains_key(vip) {
                    assert(eligible.contains(held[vip]));
                }
            }
        }
    } else {
        let nodes = sorted_distinct(eligible);
        lemma_sorted_distinct_exists(eligible);
        nodes.unique_seq_to_set();
        vips.unique_seq_to_set();
        assert forall|vip: IpAddr| #[trigger] held.contains_key(vip) implies nodes.contains(held[vip]) by {
            assert(eligible.contains(held[vip]));
        }
        lemma_partition(held, nodes);
        let s = shares(held, nodes);
        assert(nodes.contains(node));
        let k = nodes.index_of(node);
        assert(s[k] == holdings(held, node).len());
        if s[k] > 1 {
            assert forall|i: int| 0 <= i < s.len() implies #[trigger] s[i] >= 1 by {
                assert(nodes.contains(nodes[i]));
                assert(eligible.contains(nodes[i]) && eligible.contains(node));
                assert(holdings(held, node).len() <= holdings(held, nodes[i]).len() + 1);
            }
            lemma_total_at_least(s, 1);
        }
    }
}

/// How `p` stands to the placement `k` in which every VIP is kept: nodes only give up VIPs while
/// they have the most, only take VIPs while they have the fewest, and never do both.
spec fn greedy(p: Placement, k: Placement) -> bool {
    let n = k.load.len();
    &&& p.load.len() == n
    &&& p.held.len() == n
    &&& k.held.len() == n
    &&& forall|i: int| #![trigger p.held[i]] 0 <= i < n ==> {
        &&& p.load[i] <= k.load[i] ==> p.held[i].subset_of(k.held[i])
        &&& p.load[i] >= k.load[i] ==> k.held[i].subset_of(p.held[i])
    }
    &&& forall|i: int, j: int| #![trigger p.load[i], p.load[j]] 0 <= i < n && 0 <= j < n ==> {
        &&& p.load[i] > k.load[i] ==> p.load[i] <= p.load[j] + 1
        &&& p.load[i] < k.load[i] ==> p.load[j] <= p.load[i] + 1
        &&& p.load[i] < k.load[i] && p.load[j] > k.load[j] ==> p.load[j] <= p.load[i]
    }
}

proof fn lemma_spread_pass_greedy(k: Placement, nodes: Seq<u64>, vips: Seq<IpAddr>)
    requires
        k.load.len() == nodes.len(),
        k.held.len() == nodes.len(),
        nodes.len() > 0,
    ensures
        greedy(spread_pass(k, nodes, vips), k),
        forall|i: int| 0 <= i < nodes.len() ==> (#[trigger] spread_pass(k, nodes, vips).load[i]) >= k.load[i],
    decreases vips.len(),
{
    if vips.len() > 0 {
        lemma_spread_pass_greedy(k, nodes, vips.drop_last());
        let p = spread_pass(k, nodes, vips.drop_last());
        lemma_least(p.load);
        let q = spread_pass(k, nodes, vips);
        assert forall|i: int| #![trigger q.held[i]] 0 <= i < nodes.len() implies {
            &&& q.load[i] <= k.load[i] ==> q.held[i].subset_of(k.held[i])
            &&& q.load[i] >= k.load[i] ==> k.held[i].subset_of(q.held[i])
        } by {
            assert(p.load[i] >= k.load[i]);
            assert(k.held[i].subset_of(p.held[i]));
        }
        assert forall|i: int, j: int| #![trigger q.load[i], q.load[j]] 0 <= i < nodes.len() && 0 <= j < nodes.len() implies {
            &&& q.load[i] > k.load[i] ==> q.load[i] <= q.load[j] + 1
            &&& q.load[i] < k.load[i] ==> q.load[j] <= q.load[i] + 1
            &&& q.load[i] < k.load[i] && q.load[j] > k.load[j] ==> q.load[j] <= q.load[i]
        } by {
            assert(p.load[i] >= k.load[i] && p.load[j] >= k.load[j]);
            assert(p.load[i] > k.load[i] ==> p.load[i] <= p.load[j] + 1);
        }
    }
}

proof fn lemma_shift_greedy(p: Placement, k: Placement, nodes: Seq<u64>)
    requires
        k.load.len() == nodes.len(),
        greedy(p, k),
        uneven(p),
    ensures
        greedy(shift(p, nodes, most(p.load), least(p.load)), k),
{
    lemma_least(p.load);
    lemma_most(p.load);
    let (d, r) = (most(p.load), least(p.load));
    let q = shift(p, nodes, d, r);
    assert(p.load[d] <= k.load[d] && p.load[r] >= k.load[r]);
    assert forall|i: int| #![trigger q.held[i]] 0 <= i < nodes.len() implies {
        &&& q.load[i] <= k.load[i] ==> q.held[i].subset_of(k.held[i])
        &&& q.load[i] >= k.load[i] ==> k.held[i].subset_of(q.held[i])
    } by {
        assert(p.load[i] <= k.load[i] ==> p.held[i].subset_of(k.held[i]));
        assert(p.load[i] >= k.load[i] ==> k.held[i].subset_of(p.held[i]));
    }
    assert forall|i: int, j: int| #![trigger q.load[i], q.load[j]] 0 <= i < nodes.len() && 0 <= j < nodes.len() implies {
        &&& q.load[i] > k.load[i] ==> q.load[i] <= q.load[j] + 1
        &&& q.load[i] < k.load[i] ==> q.load[j] <= q.load[i] + 1
        &&& q.load[i] < k.load[i] && q.load[j] > k.load[j] ==> q.load[j] <= q.load[i]
    } by {
        assert(p.load[i] > k.load[i] ==> p.load[i] <= p.load[j] + 1 && p.load[i] <= p.load[r] + 1);
        assert(p.load[i] < k.load[i] ==> p.load[j] <= p.load[i] + 1 && p.load[d] <= p.load[i] + 1);
        assert(p.load[j] > k.load[j] ==> p.load[j] <= p.load[r] + 1);
        assert(p.load[i] < k.load[i] && p.load[j] > k.load[j] ==> p.load[j] <= p.load[i]);
    }
}

proof fn lemma_rebalance_greedy(p: Placement, k: Placement, nodes: Seq<u64>)
    requires
        k.load.len() == nodes.len(),
        greedy(p, k),
    ensures
        greedy(rebalance(p, nodes), k),
    decreases sum_of_squares(p.load),
{
    if uneven(p) {
        lemma_shift_decreases(p, nodes);
        lemma_shift_greedy(p, k, nodes);
        lemma_rebalance_greedy(shift(p, nodes, most(p.load), least(p.load)), k, nodes);
    }
}

/// Every VIP that a node has given up since `k` ranks above all those it holds in `p`.
spec fn given_up_from_the_top(p: Placement, k: Placement) -> bool {
    forall|i: int, gone: IpAddr, stays: IpAddr|
        #![trigger k.held[i].contains(gone), p.held[i].contains(stays)]
        0 <= i < k.held.len() && k.held[i].contains(gone) && !p.held[i].contains(gone) && p.held[i].contains(stays)
            ==> stays.rank() < gone.rank()
}

proof fn lemma_rebalance_from_the_top(p: Placement, k: Placement, nodes: Seq<u64>, placed: Set<IpAddr>)
    requires
        k.load.len() == nodes.len(),
        nodes.no_duplicates(),
        sound(p, nodes, placed),
        greedy(p, k),
        given_up_from_the_top(p, k),
    ensures
        given_up_from_the_top(rebalance(p, nodes), k),
    decreases sum_of_squares(p.load),
{
    if uneven(p) {
        lemma_least(p.load);
        lemma_most(p.load);
        lemma_shift_decreases(p, nodes);
        lemma_shift(p, nodes, placed);
        lemma_shift_greedy(p, k, nodes);
        let (d, r) = (most(p.load), least(p.load));
        let q = shift(p, nodes, d, r);
        let vip = highest(p.held[d]);
        assert(p.held[d].finite());
        lemma_highest_exists(p.held[d]);
        assert(p.load[r] >= k.load[r]);
        assert(k.held[r].subset_of(p.held[r]));
        assert forall|i: int, gone: IpAddr, stays: IpAddr|
            #![trigger k.held[i].contains(gone), q.held[i].contains(stays)]
            0 <= i < k.held.len() && k.held[i].contains(gone) && !q.held[i].contains(gone) && q.held[i].contains(stays)
                implies stays.rank() < gone.rank() by {
            if i == d {
                assert(p.held[d].contains(stays));
                if gone == vip {
                    if stays.rank() == vip.rank() {
                        IpAddr::rank_injective(stays, vip);
                    }
                }
            } else if i == r {
                assert(p.held[r].contains(gone));
            } else {
                assert(q.held[i] == p.held[i]);
            }
        }
        lemma_rebalance_from_the_top(q, k, nodes, placed);
    }
}

/// A node that stays eligible but has to give up a VIP gives up its highest ones and takes none
/// in: whatever it holds afterwards it held before, and ranks below what it gave up.
pub proof fn law_donors_give_up_their_highest_vips(
    eligible: Seq<u64>,
    vips: Seq<IpAddr>,
    current: Map<IpAddr, u64>,
    donor: u64,
    gone: IpAddr,
)
    requires
        vips.no_duplicates(),
        eligible.contains(donor),
        vips.contains(gone),
        current.contains_key(gone),
        current[gone] == donor,
        minimal_movement(eligible, vips, current)[gone] != donor,
    ensures
        forall|stays: IpAddr| #[trigger] holdings(minimal_movement(eligible, vips, current), donor).contains(stays) ==> {
            &&& current.contains_key(stays)
            &&& current[stays] == donor
            &&& stays.rank() < gone.rank()
        },
{
    let nodes = sorted_distinct(eligible);
    let list = sorted(vips);
    lemma_sorted_distinct_exists(eligible);
    lemma_sorted_keeps(vips);
    let k = keep_pass(nodes, list, current);
    let o = orphans(nodes, list, current);
    let mid = spread_pass(k, nodes, o);
    let p = place(nodes, list, current);
    let kept = list.to_set().filter(|vip: IpAddr| keepable(nodes, current, vip));
    lemma_keep_pass(nodes, list, current);
    lemma_spread_pass_greedy(k, nodes, o);
    lemma_spread_pass(k, nodes, kept, o);
    assert(given_up_from_the_top(mid, k)) by {
        assert forall|i: int, gone: IpAddr, stays: IpAddr|
            #![trigger k.held[i].contains(gone), mid.held[i].contains(stays)]
            0 <= i < k.held.len() && k.held[i].contains(gone) && !mid.held[i].contains(gone) && mid.held[i].contains(stays)
                implies stays.rank() < gone.rank() by {
            assert(mid.load[i] >= k.load[i]);
        }
    }
    lemma_rebalance_greedy(mid, k, nodes);
    lemma_rebalance_from_the_top(mid, k, nodes, kept.union(o.to_set()));
    lemma_place(nodes, list, current);

    assert(nodes.contains(donor));
    let i = nodes.index_of(donor);
    assert(k.held[i] == holdings(k.out, donor) && p.held[i] == holdings(p.out, donor));
    assert(list.to_set().contains(gone));
    assert(kept.contains(gone));
    assert(k.out.contains_key(gone));
    assert(k.held[i].contains(gone) && !p.held[i].contains(gone));
    assert(p.load[i] < k.load[i]);
    assert(p.held[i].subset_of(k.held[i]));
    assert forall|stays: IpAddr| #[trigger] holdings(p.out, donor).contains(stays) implies {
        &&& current.contains_key(stays)
        &&& current[stays] == donor
        &&& stays.rank() < gone.rank()
    } by {
        assert(p.held[i].contains(stays));
        assert(k.held[i].contains(stays));
        assert(kept.contains(stays));
    }
}

spec fn smaller(a: nat, b: nat) -> nat {
    if a <= b { a } else { b }
}

/// Node by node, the smaller of two loads.
spec fn pointwise_smaller(a: Seq<nat>, b: Seq<nat>) -> Seq<nat> {
    Seq::new(a.len(), |i: int| smaller(a[i], b[i]))
}

proof fn lemma_total_monotone(a: Seq<nat>, b: Seq<nat>)
    requires
        a.len() == b.len(),
        forall|i: int| 0 <= i < a.len() ==> #[trigger] a[i] <= #[trigger] b[i],
    ensures
        total(a) <= total(b),
    decreases a.len(),
{
    if a.len() > 0 {
        lemma_total_monotone(a.drop_last(), b.drop_last());
        assert(a[a.len() - 1] <= b[a.len() - 1]);
    }
}

/// If `a[i] + r[i] <= c[i] + b[i]` everywhere, then so it is in total.
proof fn lemma_total_exchange(a: Seq<nat>, r: Seq<nat>, c: Seq<nat>, b: Seq<nat>)
    requires
        a.len() == r.len() == c.len() == b.len(),
        forall|i: int| 0 <= i < a.len() ==> #[trigger] a[i] + #[trigger] r[i] <= #[trigger] c[i] + #[trigger] b[i],
    ensures
        total(a) + total(r) <= total(c) + total(b),
    decreases a.len(),
{
    if a.len() > 0 {
        let n = a.len() - 1;
        assert(a[n] + r[n] <= c[n] + b[n]);
        assert forall|i: int| 0 <= i < n implies #[trigger] a.drop_last()[i] + #[trigger] r.drop_last()[i] <= #[trigger] c.drop_last()[i] + #[trigger] b.drop_last()[i] by {
            assert(a[i] + r[i] <= c[i] + b[i]);
        }
        lemma_total_exchange(a.drop_last(), r.drop_last(), c.drop_last(), b.drop_last());
    }
}

/// Even loads with the same total have the same smallest load.
proof fn lemma_even_floor(r: Seq<nat>, b: Seq<nat>, x: int, y: int)
    requires
        r.len() == b.len(),
        0 <= x < r.len(),
        0 <= y < b.len(),
        forall|i: int| 0 <= i < r.len() ==> r[x] <= #[trigger] r[i] <= r[x] + 1,
        forall|i: int| 0 <= i < b.len() ==> b[y] <= #[trigger] b[i] <= b[y] + 1,
        total(r) == total(b),
    ensures
        r[x] == b[y],
{
    if r[x] < b[y] {
        lemma_total_at_most(r, (r[x] + 1) as nat);
        assert(r[x] < r[x] + 1);
        lemma_total_at_least(b, b[y]);
        assert(r.len() * (r[x] + 1) <= b.len() * b[y]) by (nonlinear_arith)
            requires
                r.len() == b.len(),
                r[x] + 1 <= b[y],
        ;
    }
    if b[y] < r[x] {
        lemma_total_at_most(b, (b[y] + 1) as nat);
        assert(b[y] < b[y] + 1);
        lemma_total_at_least(r, r[x]);
        assert(b.len() * (b[y] + 1) <= r.len() * r[x]) by (nonlinear_arith)
            requires
                r.len() == b.len(),
                b[y] + 1 <= r[x],
        ;
    }
}

/// Among even loads with the same total, greedy ones overlap most with the kept loads.
proof fn lemma_greedy_overlap(k: Seq<nat>, r: Seq<nat>, b: Seq<nat>)
    requires
        k.len() == r.len() == b.len(),
        r.len() > 0,
        total(r) == total(b),
        forall|i: int, j: int| 0 <= i < r.len() && 0 <= j < r.len() ==> #[trigger] r[i] <= #[trigger] r[j] + 1,
        forall|i: int, j: int| 0 <= i < r.len() && 0 <= j < r.len() ==> #[trigger] b[i] <= #[trigger] b[j] + 1,
        forall|i: int, j: int| #![trigger r[i], r[j]] 0 <= i < r.len() && 0 <= j < r.len() && r[i] < k[i] && r[j] > k[j] ==> r[j] <= r[i],
    ensures
        total(pointwise_smaller(k, b)) <= total(pointwise_smaller(k, r)),
{
    lemma_least(r);
    lemma_least(b);
    let (x, y) = (least(r), least(b));
    lemma_even_floor(r, b, x, y);
    let q = r[x];
    let (kb, kr) = (pointwise_smaller(k, b), pointwise_smaller(k, r));
    if exists|i: int| 0 <= i < r.len() && #[trigger] r[i] < k[i] && r[i] == q {
        let d = choose|i: int| 0 <= i < r.len() && #[trigger] r[i] < k[i] && r[i] == q;
        assert forall|i: int| 0 <= i < r.len() implies #[trigger] kb[i] + #[trigger] r[i] <= #[trigger] kr[i] + #[trigger] b[i] by {
            assert(r[x] <= r[i] && b[y] <= b[i]);
            assert(r[i] <= r[x] + 1 && b[i] <= b[y] + 1);
            assert(r[i] > k[i] ==> r[i] <= r[d]);
        }
        lemma_total_exchange(kb, r, kr, b);
    } else {
        assert forall|i: int| 0 <= i < r.len() implies #[trigger] kb[i] <= #[trigger] kr[i] by {
            assert(r[x] <= r[i] && b[y] <= b[i]);
            assert(r[i] <= r[x] + 1 && b[i] <= b[y] + 1);
            assert(!(r[i] < k[i] && r[i] == q));
        }
        lemma_total_monotone(kb, kr);
    }
}

/// Node by node, the VIPs that stay are those both kept and held there.
proof fn lemma_unmoved_shares(current: Map<IpAddr, u64>, holders: Map<IpAddr, u64>, nodes: Seq<u64>, k: Placement, vips: Seq<IpAddr>)
    requires
        nodes.len() > 0,
        nodes.no_duplicates(),
        vips.no_duplicates(),
        holders.dom() == vips.to_set(),
        forall|vip: IpAddr| #[trigger] holders.contains_key(vip) ==> nodes.contains(holders[vip]),
        k == keep_pass(nodes, vips, current),
    ensures
        ({
            let stay = holders.restrict(unmoved(current, holders));
            &&& unmoved(current, holders).finite()
            &&& unmoved(current, holders).len() == total(shares(stay, nodes))
            &&& forall|i: int| 0 <= i < nodes.len() ==> #[trigger] holdings(stay, nodes[i]) == k.held[i].intersect(holdings(holders, nodes[i]))
        }),
{
    let same = unmoved(current, holders);
    let stay = holders.restrict(same);
    vips.unique_seq_to_set();
    assert(stay.dom() =~= same);
    assert forall|vip: IpAddr| #[trigger] stay.contains_key(vip) implies nodes.contains(stay[vip]) by {
        assert(holders.contains_key(vip));
    }
    lemma_partition(stay, nodes);
    lemma_keep_pass(nodes, vips, current);
    let kept = vips.to_set().filter(|vip: IpAddr| keepable(nodes, current, vip));
    assert forall|i: int| 0 <= i < nodes.len() implies #[trigger] holdings(stay, nodes[i]) == k.held[i].intersect(holdings(holders, nodes[i])) by {
        assert(k.held[i] == holdings(k.out, nodes[i]));
        assert forall|vip: IpAddr| holdings(stay, nodes[i]).contains(vip) == k.held[i].intersect(holdings(holders, nodes[i])).contains(vip) by {
            assert(k.out.dom().contains(vip) == kept.contains(vip));
            if holdings(stay, nodes[i]).contains(vip) {
                assert(same.contains(vip));
                assert(nodes.contains(nodes[i]));
                assert(keepable(nodes, current, vip));
                assert(k.out.contains_key(vip));
            }
            if k.held[i].contains(vip) {
                assert(k.out.contains_key(vip));
            }
        }
        assert(holdings(stay, nodes[i]) =~= k.held[i].intersect(holdings(holders, nodes[i])));
    }
}

/// No even assignment of the VIPs to the eligible nodes moves fewer VIPs away from their current
/// holders.
pub proof fn law_fewest_vips_move(eligible: Seq<u64>, vips: Seq<IpAddr>, current: Map<IpAddr, u64>, other: Map<IpAddr, u64>)
    requires
        vips.no_duplicates(),
        eligible.len() > 0,
        covers(other, eligible, vips),
        balanced(other, eligible),
    ensures
        moved(current, minimal_movement(eligible, vips, current)).len() <= moved(current, other).len(),
{
    let held = minimal_movement(eligible, vips, current);
    law_every_vip_is_held_by_an_eligible_node(eligible, vips, current);
    let nodes = sorted_distinct(eligible);
    let list = sorted(vips);
    lemma_sorted_distinct_exists(eligible);
    lemma_sorted_keeps(vips);
    let n = nodes.len();
    let k = keep_pass(nodes, list, current);
    let o = orphans(nodes, list, current);
    let p = place(nodes, list, current);
    assert(held == p.out);

    lemma_keep_pass(nodes, list, current);
    lemma_spread_pass_greedy(k, nodes, o);
    lemma_rebalance_greedy(spread_pass(k, nodes, o), k, nodes);
    lemma_place(nodes, list, current);
    lemma_even(p, nodes, list.to_set());

    assert forall|vip: IpAddr| #[trigger] held.contains_key(vip) implies nodes.contains(held[vip]) by {
        assert(eligible.contains(held[vip]));
    }
    assert forall|vip: IpAddr| #[trigger] other.contains_key(vip) implies nodes.contains(other[vip]) by {
        assert(eligible.contains(other[vip]));
    }
    lemma_unmoved_shares(current, held, nodes, k, list);
    lemma_unmoved_shares(current, other, nodes, k, list);
    list.unique_seq_to_set();
    lemma_partition(held, nodes);
    lemma_partition(other, nodes);
    let r = shares(held, nodes);
    let b = shares(other, nodes);
    assert(r =~= p.load) by {
        assert forall|i: int| 0 <= i < n implies r[i] == #[trigger] p.load[i] by {
            assert(p.held[i] == holdings(p.out, nodes[i]));
        }
    }
    assert forall|i: int, j: int| 0 <= i < n && 0 <= j < n implies #[trigger] b[i] <= #[trigger] b[j] + 1 by {
        assert(nodes.contains(nodes[i]) && nodes.contains(nodes[j]));
        assert(eligible.contains(nodes[i]) && eligible.contains(nodes[j]));
        assert(holdings(other, nodes[i]).len() <= holdings(other, nodes[j]).len() + 1);
    }
    lemma_greedy_overlap(k.load, r, b);

    let stay_held = shares(held.restrict(unmoved(current, held)), nodes);
    let stay_other = shares(other.restrict(unmoved(current, other)), nodes);
    assert(pointwise_smaller(k.load, r) =~= stay_held) by {
        assert forall|i: int| 0 <= i < n implies #[trigger] stay_held[i] == smaller(k.load[i], r[i]) by {
            let (a, c) = (k.held[i], holdings(held, nodes[i]));
            assert(p.held[i] == c && k.held[i].finite() && p.held[i].finite());
            assert(holdings(held.restrict(unmoved(current, held)), nodes[i]) == a.intersect(c));
            if p.load[i] <= k.load[i] {
                assert(p.held[i].subset_of(k.held[i]));
                assert(a.intersect(c) =~= c);
            } else {
                assert(k.held[i].subset_of(p.held[i]));
                assert(a.intersect(c) =~= a);
            }
        }
    }
    assert forall|i: int| 0 <= i < n implies #[trigger] stay_other[i] <= #[trigger] pointwise_smaller(k.load, b)[i] by {
        let (a, c) = (k.held[i], holdings(other, nodes[i]));
        assert(k.held[i].finite());
        assert(holdings(other.restrict(unmoved(current, other)), nodes[i]) == a.intersect(c));
        vstd::set_lib::lemma_len_subset(a.intersect(c), a);
        vstd::set_lib::lemma_len_subset(a.intersect(c), c);
    }
    lemma_total_monotone(stay_other, pointwise_smaller(k.load, b));

    lemma_moved_count(current, held);
    lemma_moved_count(current, other);
}

proof fn lemma_moved_count(current: Map<IpAddr, u64>, holders: Map<IpAddr, u64>)
    requires
        holders.dom().finite(),
    ensures
        moved(current, holders).len() + unmoved(current, holders).len() == holders.dom().len(),
{
    let (a, b) = (moved(current, holders), unmoved(current, holders));
    vstd::set_lib::lemma_set_disjoint_lens(a, b);
    assert(a + b =~= holders.dom());
}

/// Loads after `count` VIPs were dealt out to `n` empty nodes in turn.
spec fn dealt(n: nat, count: nat) -> Seq<nat> {
    Seq::new(n, |i: int| (count / n + if i < count % n { 1nat } else { 0nat }) as nat)
}

proof fn lemma_deal_one(n: nat, count: nat)
    requires
        n > 0,
    ensures
        least(dealt(n, count)) == count % n,
        dealt(n, count + 1) == dealt(n, count).update((count % n) as int, dealt(n, count)[(count % n) as int] + 1),
{
    let (q, r) = ((count / n) as int, (count % n) as int);
    let load = dealt(n, count);
    vstd::arithmetic::div_mod::lemma_fundamental_div_mod(count as int, n as int);
    assert(0 <= r < n) by { vstd::arithmetic::div_mod::lemma_mod_bound(count as int, n as int); }
    assert(is_least(load, r));
    lemma_least(load);
    let x = least(load);
    assert(load[x] <= load[r] && load[r] <= load[x]);
    assert(x == r);
    if r + 1 < n {
        vstd::arithmetic::div_mod::lemma_fundamental_div_mod_converse((count + 1) as int, n as int, q, r + 1);
    } else {
        assert(n * (q + 1) == n * q + n) by (nonlinear_arith);
        vstd::arithmetic::div_mod::lemma_fundamental_div_mod_converse((count + 1) as int, n as int, q + 1, 0);
    }
    assert(dealt(n, count + 1) =~= load.update(r, load[r] + 1));
}

proof fn lemma_spread_deals(nodes: Seq<u64>, vips: Seq<IpAddr>)
    requires
        nodes.len() > 0,
    ensures
        spread_pass(nothing_placed(nodes.len()), nodes, vips).load == dealt(nodes.len(), vips.len()),
        spread_pass(nothing_placed(nodes.len()), nodes, vips).out == round_robin(nodes, vips),
    decreases vips.len(),
{
    let n = nodes.len();
    if vips.len() == 0 {
        assert(0nat / n == 0 && 0nat % n == 0) by {
            vstd::arithmetic::div_mod::lemma_fundamental_div_mod_converse(0, n as int, 0, 0);
        }
        assert(nothing_placed(n).load =~= dealt(n, 0));
    } else {
        let front = vips.drop_last();
        lemma_spread_deals(nodes, front);
        lemma_deal_one(n, front.len());
    }
}

/// When no VIP is held yet, ascending VIPs are dealt out round-robin to the ascending nodes.
pub proof fn law_cold_start_is_round_robin(eligible: Seq<u64>, vips: Seq<IpAddr>)
    requires
        ascending(eligible),
        ascending(vips),
    ensures
        minimal_movement(eligible, vips, Map::empty()) == round_robin(eligible, vips),
{
    let none = Map::<IpAddr, u64>::empty();
    if eligible.len() > 0 {
        lemma_sorted_distinct(eligible, eligible);
        lemma_sorted(vips, vips);
        lemma_ascending_no_duplicates(eligible);
        lemma_ascending_no_duplicates(vips);
        lemma_nothing_kept(eligible, vips);
        lemma_spread_deals(eligible, vips);
        let n = eligible.len();
        let p = spread_pass(nothing_placed(n), eligible, vips);
        lemma_least(p.load);
        lemma_most(p.load);
        assert(!uneven(p));
    }
}

proof fn lemma_nothing_kept(nodes: Seq<u64>, vips: Seq<IpAddr>)
    ensures
        keep_pass(nodes, vips, Map::empty()) == nothing_placed(nodes.len()),
        orphans(nodes, vips, Map::empty()) == vips,
    decreases vips.len(),
{
    reveal(Seq::filter);
    if vips.len() > 0 {
        lemma_nothing_kept(nodes, vips.drop_last());
        assert(vips.drop_last().push(vips.last()) =~= vips);
    } else {
        assert(orphans(nodes, vips, Map::empty()) =~= vips);
    }
}

/// Loads that differ by at most one.
spec fn even(load: Seq<nat>) -> bool {
    forall|i: int, j: int| 0 <= i < load.len() && 0 <= j < load.len() ==> #[trigger] load[i] <= #[trigger] load[j] + 1
}

proof fn lemma_spread_stays_even(p: Placement, nodes: Seq<u64>, vips: Seq<IpAddr>)
    requires
        nodes.len() > 0,
        p.load.len() == nodes.len(),
        even(p.load),
    ensures
        spread_pass(p, nodes, vips).load.len() == nodes.len(),
        even(spread_pass(p, nodes, vips).load),
    decreases vips.len(),
{
    if vips.len() > 0 {
        lemma_spread_stays_even(p, nodes, vips.drop_last());
        lemma_least(spread_pass(p, nodes, vips.drop_last()).load);
    }
}

proof fn lemma_even_is_left_alone(p: Placement, nodes: Seq<u64>)
    requires
        even(p.load),
    ensures
        rebalance(p, nodes) == p,
{
    if p.load.len() > 0 {
        lemma_least(p.load);
        lemma_most(p.load);
    }
}

proof fn lemma_keep_pass_without_an_orphan(nodes: Seq<u64>, list: Seq<IpAddr>, current: Map<IpAddr, u64>, at: int)
    requires
        0 <= at < list.len(),
        !keepable(nodes, current, list[at]),
    ensures
        keep_pass(nodes, list, current) == keep_pass(nodes, list.remove(at), current),
    decreases list.len(),
{
    let rest = list.remove(at);
    if at == list.len() - 1 {
        assert(rest =~= list.drop_last());
    } else {
        lemma_keep_pass_without_an_orphan(nodes, list.drop_last(), current, at);
        assert(rest.drop_last() =~= list.drop_last().remove(at));
        assert(rest.last() == list.last());
    }
}

proof fn lemma_orphans_ascend(nodes: Seq<u64>, list: Seq<IpAddr>, current: Map<IpAddr, u64>)
    requires
        ascending(list),
    ensures
        ascending(orphans(nodes, list, current)),
    decreases list.len(),
{
    reveal(Seq::filter);
    if list.len() > 0 {
        let front = list.drop_last();
        assert(ascending(front)) by {
            assert forall|i: int, j: int| 0 <= i < j < front.len() implies #[trigger] front[i].rank() < #[trigger] front[j].rank() by {
                assert(list[i].rank() < list[j].rank());
            }
        }
        lemma_orphans_ascend(nodes, front, current);
        lemma_orphans(nodes, front, current);
        let before = orphans(nodes, front, current);
        let o = orphans(nodes, list, current);
        if !keepable(nodes, current, list.last()) {
            assert(o == before.push(list.last()));
            assert forall|i: int, j: int| 0 <= i < j < o.len() implies #[trigger] o[i].rank() < #[trigger] o[j].rank() by {
                if j == before.len() {
                    assert(before.contains(before[i]));
                    assert(front.contains(before[i]));
                    let x = front.index_of(before[i]);
                    assert(list[x].rank() < list[list.len() - 1].rank());
                } else {
                    assert(before[i].rank() < before[j].rank());
                }
            }
        }
    }
}

/// VIPs without an eligible holder are placed one by one in ascending order, each on the eligible node
/// that holds the fewest VIPs at that point, the one with the lowest id among several: where the VIPs that
/// stay are spread evenly, one more such VIP, above all the others, goes to that node and moves no other.
pub proof fn law_an_orphan_goes_to_the_least_loaded_node_with_the_lowest_id(
    eligible: Seq<u64>,
    vips: Seq<IpAddr>,
    current: Map<IpAddr, u64>,
    orphan: IpAddr,
)
    requires
        eligible.len() > 0,
        vips.no_duplicates(),
        !vips.contains(orphan),
        !(current.contains_key(orphan) && eligible.contains(current[orphan])),
        forall|vip: IpAddr| #[trigger] vips.contains(vip) && !(current.contains_key(vip) && eligible.contains(current[vip])) ==> vip.rank()
            < orphan.rank(),
        balanced(
            current.restrict(vips.to_set().filter(|vip: IpAddr| current.contains_key(vip) && eligible.contains(current[vip]))),
            eligible,
        ),
    ensures
        ({
            let without = minimal_movement(eligible, vips, current);
            let with = minimal_movement(eligible, vips.push(orphan), current);
            &&& with == without.insert(orphan, with[orphan])
            &&& eligible.contains(with[orphan])
            &&& forall|n: u64| #[trigger] eligible.contains(n) ==> {
                let (here, there) = (holdings(without, with[orphan]).len(), holdings(without, n).len());
                here < there || (here == there && with[orphan] <= n)
            }
        }),
{
    let nodes = sorted_distinct(eligible);
    let more = vips.push(orphan);
    let (list, longer) = (sorted(vips), sorted(more));
    lemma_sorted_distinct_exists(eligible);
    assert(more.no_duplicates());
    lemma_sorted_keeps(vips);
    lemma_sorted_keeps(more);
    assert forall|vip: IpAddr| more.contains(vip) == (vips.contains(vip) || vip == orphan) by {
        if vips.contains(vip) {
            assert(more[vips.index_of(vip)] == vip);
        }
        assert(more[vips.len() as int] == orphan);
    }

    // Without the orphan, the longer list is the shorter one.
    let at = longer.index_of(orphan);
    assert(longer.contains(orphan));
    assert(longer[at] == orphan);
    let rest = longer.remove(at);
    assert(ascending(rest)) by {
        assert forall|i: int, j: int| 0 <= i < j < rest.len() implies #[trigger] rest[i].rank() < #[trigger] rest[j].rank() by {
            let (x, y) = (if i < at { i } else { i + 1 }, if j < at { j } else { j + 1 });
            assert(longer[x].rank() < longer[y].rank());
        }
    }
    assert(rest.to_set() =~= list.to_set()) by {
        assert forall|vip: IpAddr| rest.contains(vip) == list.contains(vip) by {
            if rest.contains(vip) {
                let i = rest.index_of(vip);
                let x = if i < at { i } else { i + 1 };
                assert(longer[x] == vip && x != at);
                assert(longer.contains(vip));
            }
            if list.contains(vip) {
                assert(longer.contains(vip));
                let x = longer.index_of(vip);
                assert(x != at);
                assert(rest[if x < at { x } else { x - 1 }] == vip);
            }
        }
    }
    lemma_ascending_unique(rest, list);

    // The same VIPs are kept, and the orphan is the last to be placed.
    let k = keep_pass(nodes, list, current);
    assert(!keepable(nodes, current, orphan));
    lemma_keep_pass_without_an_orphan(nodes, longer, current, at);
    let (o, all) = (orphans(nodes, list, current), orphans(nodes, longer, current));
    lemma_orphans(nodes, list, current);
    lemma_orphans(nodes, longer, current);
    lemma_orphans_ascend(nodes, list, current);
    lemma_orphans_ascend(nodes, longer, current);
    let pushed = o.push(orphan);
    assert(ascending(pushed)) by {
        assert forall|i: int, j: int| 0 <= i < j < pushed.len() implies #[trigger] pushed[i].rank() < #[trigger] pushed[j].rank() by {
            if j == o.len() {
                assert(o.contains(o[i]));
                assert(vips.contains(o[i]));
            } else {
                assert(o[i].rank() < o[j].rank());
            }
        }
    }
    assert(all.to_set() =~= pushed.to_set()) by {
        assert forall|vip: IpAddr| all.contains(vip) == pushed.contains(vip) by {
            lemma_last(pushed);
            assert(pushed.drop_last() =~= o);
            assert(longer.contains(vip) == (list.contains(vip) || vip == orphan));
        }
    }
    lemma_ascending_unique(all, pushed);

    // Loads are even all the way.
    lemma_keep_pass(nodes, list, current);
    let kept = current.restrict(vips.to_set().filter(|vip: IpAddr| current.contains_key(vip) && eligible.contains(current[vip])));
    assert(k.out =~= kept) by {
        assert forall|vip: IpAddr| #[trigger] k.out.contains_key(vip) == kept.contains_key(vip) by {
            assert(k.out.dom().contains(vip) == (list.to_set().contains(vip) && keepable(nodes, current, vip)));
            assert(list.to_set().contains(vip) == vips.to_set().contains(vip));
        }
    }
    assert(even(k.load)) by {
        assert forall|i: int, j: int| 0 <= i < k.load.len() && 0 <= j < k.load.len() implies #[trigger] k.load[i] <= #[trigger] k.load[j] + 1 by {
            assert(k.held[i] == holdings(k.out, nodes[i]) && k.held[j] == holdings(k.out, nodes[j]));
            assert(nodes.contains(nodes[i]) && nodes.contains(nodes[j]));
            assert(eligible.contains(nodes[i]) && eligible.contains(nodes[j]));
            assert(holdings(kept, nodes[i]).len() <= holdings(kept, nodes[j]).len() + 1);
        }
    }
    let q = spread_pass(k, nodes, o);
    lemma_spread_stays_even(k, nodes, o);
    lemma_spread_stays_even(k, nodes, pushed);
    lemma_even_is_left_alone(q, nodes);
    lemma_even_is_left_alone(spread_pass(k, nodes, pushed), nodes);
    assert(pushed.drop_last() =~= o);
    lemma_place(nodes, list, current);
    lemma_least(q.load);
    let n = least(q.load);
    let (without, with) = (minimal_movement(eligible, vips, current), minimal_movement(eligible, more, current));
    assert(without == q.out);
    assert(with == q.out.insert(orphan, nodes[n]));
    assert(nodes.contains(nodes[n]));
    assert forall|m: u64| #[trigger] eligible.contains(m) implies ({
        let (here, there) = (holdings(without, with[orphan]).len(), holdings(without, m).len());
        here < there || (here == there && with[orphan] <= m)
    }) by {
        assert(nodes.contains(m));
        let i = nodes.index_of(m);
        assert(q.held[i] == holdings(q.out, nodes[i]) && q.held[n] == holdings(q.out, nodes[n]));
        assert(q.load[n] <= q.load[i]);
        if i < n {
            assert(q.load[n] < q.load[i]);
        } else if n < i {
            assert(nodes[n].rank() < nodes[i].rank());
        }
    }
}

/// The VIPs of the list that an eligible node holds, with their holders.
pub open spec fn still_held(eligible: Seq<u64>, vips: Seq<IpAddr>, current: Map<IpAddr, u64>) -> Map<IpAddr, u64> {
    current.restrict(vips.to_set().filter(|vip: IpAddr| current.contains_key(vip) && eligible.contains(current[vip])))
}

/// The eligible node that holds the fewest VIPs, the one with the lowest id among several.
pub open spec fn holds_fewest(holders: Map<IpAddr, u64>, eligible: Seq<u64>, node: u64) -> bool {
    &&& eligible.contains(node)
    &&& forall|n: u64| #[trigger] eligible.contains(n) ==> {
        let (here, there) = (holdings(holders, node).len(), holdings(holders, n).len());
        here < there || (here == there && node <= n)
    }
}

/// The eligible node that holds the most VIPs, the one with the lowest id among several.
pub open spec fn holds_most(holders: Map<IpAddr, u64>, eligible: Seq<u64>, node: u64) -> bool {
    &&& eligible.contains(node)
    &&& forall|n: u64| #[trigger] eligible.contains(n) ==> {
        let (here, there) = (holdings(holders, node).len(), holdings(holders, n).len());
        here > there || (here == there && node <= n)
    }
}

/// An exact placement is known by where the VIPs are.
proof fn lemma_exact_by_out(p: Placement, q: Placement, nodes: Seq<u64>)
    requires
        p.load.len() == nodes.len() && p.held.len() == nodes.len(),
        q.load.len() == nodes.len() && q.held.len() == nodes.len(),
        exact(p, nodes),
        exact(q, nodes),
        p.out == q.out,
    ensures
        p == q,
{
    assert(p.held =~= q.held) by {
        assert forall|i: int| 0 <= i < nodes.len() implies p.held[i] == q.held[i] by {
            assert(p.held[i] == holdings(p.out, nodes[i]));
            assert(q.held[i] == holdings(q.out, nodes[i]));
        }
    }
    assert(p.load =~= q.load) by {
        assert forall|i: int| 0 <= i < nodes.len() implies p.load[i] == q.load[i] by {
            assert(p.held[i] == q.held[i]);
        }
    }
    assert(p =~= q);
}

proof fn lemma_kept_out(nodes: Seq<u64>, eligible: Seq<u64>, vips: Seq<IpAddr>, current: Map<IpAddr, u64>)
    requires
        nodes == sorted_distinct(eligible),
    ensures
        keep_pass(nodes, sorted(vips), current).out == still_held(eligible, vips, current),
{
    let list = sorted(vips);
    let k = keep_pass(nodes, list, current);
    let kept = still_held(eligible, vips, current);
    lemma_sorted_distinct_exists(eligible);
    lemma_sorted_keeps(vips);
    lemma_keep_pass(nodes, list, current);
    assert forall|vip: IpAddr| #[trigger] k.out.contains_key(vip) == kept.contains_key(vip) by {
        assert(k.out.dom().contains(vip) == (list.to_set().contains(vip) && keepable(nodes, current, vip)));
        assert(list.to_set().contains(vip) == vips.to_set().contains(vip));
    }
    assert(k.out =~= kept);
}

/// The node that holds the fewest is the first least loaded one, and the one that holds the most the
/// first most loaded one.
proof fn lemma_extremes(p: Placement, nodes: Seq<u64>, eligible: Seq<u64>, node: u64)
    requires
        nodes == sorted_distinct(eligible),
        eligible.contains(node),
        p.load.len() == nodes.len(),
        exact(p, nodes),
    ensures
        holds_fewest(p.out, eligible, node) ==> nodes[least(p.load)] == node && least(p.load) == nodes.index_of(node),
        holds_most(p.out, eligible, node) ==> nodes[most(p.load)] == node && most(p.load) == nodes.index_of(node),
        0 <= least(p.load) < nodes.len(),
        0 <= most(p.load) < nodes.len(),
{
    lemma_sorted_distinct_exists(eligible);
    assert(nodes.contains(node));
    lemma_least(p.load);
    lemma_most(p.load);
    let i = nodes.index_of(node);
    let (l, m) = (least(p.load), most(p.load));
    assert(p.held[i] == holdings(p.out, nodes[i]) && p.held[l] == holdings(p.out, nodes[l]) && p.held[m] == holdings(p.out, nodes[m]));
    assert(nodes.contains(nodes[l]) && nodes.contains(nodes[m]));
    assert(eligible.contains(nodes[l]) && eligible.contains(nodes[m]));
    if holds_fewest(p.out, eligible, node) {
        assert(p.load[i] <= p.load[l] && p.load[l] <= p.load[i]);
        if l < i {
            assert(nodes[l].rank() < nodes[i].rank());
        } else if i < l {
            assert(p.load[l] < p.load[i]);
        }
    }
    if holds_most(p.out, eligible, node) {
        assert(p.load[i] >= p.load[m] && p.load[m] >= p.load[i]);
        if m < i {
            assert(nodes[m].rank() < nodes[i].rank());
        } else if i < m {
            assert(p.load[i] < p.load[m]);
        }
    }
}

proof fn lemma_spread_first(p: Placement, nodes: Seq<u64>, vips: Seq<IpAddr>)
    requires
        vips.len() > 0,
    ensures
        spread_pass(p, nodes, vips) == spread_pass(put(p, nodes, vips[0], least(p.load)), nodes, vips.drop_first()),
    decreases vips.len(),
{
    let front = vips.drop_last();
    if front.len() == 0 {
        assert(spread_pass(p, nodes, front) == p);
        assert(vips.drop_first().len() == 0);
    } else {
        lemma_spread_first(p, nodes, front);
        assert(front[0] == vips[0]);
        assert(vips.drop_first().drop_last() =~= front.drop_first());
        assert(vips.drop_first().last() == vips.last());
    }
}

/// The lowest VIP without an eligible holder is placed first, on the eligible node that holds the fewest
/// of those that stay, the one with the lowest id among several: it makes no difference whether it was
/// there before.
pub proof fn law_the_lowest_orphan_is_placed_first_where_there_are_fewest(
    eligible: Seq<u64>,
    vips: Seq<IpAddr>,
    current: Map<IpAddr, u64>,
    orphan: IpAddr,
    node: u64,
)
    requires
        vips.no_duplicates(),
        vips.contains(orphan),
        !(current.contains_key(orphan) && eligible.contains(current[orphan])),
        forall|vip: IpAddr| #[trigger] vips.contains(vip) && !(current.contains_key(vip) && eligible.contains(current[vip])) ==> orphan.rank()
            <= vip.rank(),
        holds_fewest(still_held(eligible, vips, current), eligible, node),
    ensures
        minimal_movement(eligible, vips, current) == minimal_movement(eligible, vips, current.insert(orphan, node)),
{
    let nodes = sorted_distinct(eligible);
    let list = sorted(vips);
    let next = current.insert(orphan, node);
    lemma_sorted_distinct_exists(eligible);
    lemma_sorted_keeps(vips);
    let kept = list.to_set().filter(|vip: IpAddr| keepable(nodes, current, vip));
    let (k, k2) = (keep_pass(nodes, list, current), keep_pass(nodes, list, next));
    let (o, o2) = (orphans(nodes, list, current), orphans(nodes, list, next));
    lemma_keep_pass(nodes, list, current);
    lemma_keep_pass(nodes, list, next);
    lemma_orphans(nodes, list, current);
    lemma_orphans(nodes, list, next);
    lemma_orphans_ascend(nodes, list, current);
    lemma_orphans_ascend(nodes, list, next);
    lemma_kept_out(nodes, eligible, vips, current);
    lemma_kept_out(nodes, eligible, vips, next);
    lemma_extremes(k, nodes, eligible, node);
    let at = least(k.load);
    assert(nodes.contains(node));

    assert(o.contains(orphan));
    let x = o.index_of(orphan);
    assert(x == 0) by {
        if x > 0 {
            assert(o[0].rank() < o[x].rank());
            assert(o.contains(o[0]));
            assert(vips.contains(o[0]));
        }
    }
    let tail = o.drop_first();
    assert(ascending(tail)) by {
        assert forall|i: int, j: int| 0 <= i < j < tail.len() implies #[trigger] tail[i].rank() < #[trigger] tail[j].rank() by {
            assert(o[i + 1].rank() < o[j + 1].rank());
        }
    }
    lemma_ascending_no_duplicates(o);
    assert(tail.to_set() =~= o2.to_set()) by {
        assert forall|vip: IpAddr| tail.contains(vip) == o2.contains(vip) by {
            if tail.contains(vip) {
                let i = tail.index_of(vip);
                assert(o[i + 1] == vip);
                assert(o.contains(vip));
                assert(o[0] == orphan);
            }
            if o2.contains(vip) {
                assert(vip != orphan);
                assert(o.contains(vip));
                let i = o.index_of(vip);
                assert(tail[i - 1] == vip);
            }
        }
    }
    lemma_ascending_unique(tail, o2);

    let placed = put(k, nodes, orphan, at);
    lemma_put(k, nodes, kept, orphan, at);
    assert(!kept.contains(orphan));
    assert(placed.out =~= k2.out) by {
        assert forall|vip: IpAddr| #[trigger] placed.out.contains_key(vip) == k2.out.contains_key(vip) && (placed.out.contains_key(vip)
            ==> placed.out[vip] == k2.out[vip]) by {
            assert(vips.to_set().contains(vip) == vips.contains(vip));
        }
    }
    lemma_exact_by_out(placed, k2, nodes);
    lemma_spread_first(k, nodes, o);
    assert(spread_pass(k, nodes, o) == spread_pass(k2, nodes, o2));
}

/// While some eligible node holds at least two VIPs more than another, the highest VIP of the one that
/// holds the most moves to the one that holds the fewest, the lowest id deciding among several: it makes
/// no difference whether it was there before.
pub proof fn law_the_fullest_node_gives_its_highest_vip_to_the_emptiest(
    eligible: Seq<u64>,
    vips: Seq<IpAddr>,
    current: Map<IpAddr, u64>,
    donor: u64,
    receiver: u64,
    vip: IpAddr,
)
    requires
        vips.no_duplicates(),
        forall|v: IpAddr| #[trigger] vips.contains(v) ==> current.contains_key(v) && eligible.contains(current[v]),
        holds_most(still_held(eligible, vips, current), eligible, donor),
        holds_fewest(still_held(eligible, vips, current), eligible, receiver),
        holdings(still_held(eligible, vips, current), donor).len() > holdings(still_held(eligible, vips, current), receiver).len() + 1,
        vips.contains(vip) && current[vip] == donor,
        forall|v: IpAddr| #[trigger] vips.contains(v) && current[v] == donor ==> v.rank() <= vip.rank(),
    ensures
        minimal_movement(eligible, vips, current) == minimal_movement(eligible, vips, current.insert(vip, receiver)),
{
    let nodes = sorted_distinct(eligible);
    let list = sorted(vips);
    let next = current.insert(vip, receiver);
    lemma_sorted_distinct_exists(eligible);
    lemma_sorted_keeps(vips);
    let kept = list.to_set().filter(|v: IpAddr| keepable(nodes, current, v));
    let (k, k2) = (keep_pass(nodes, list, current), keep_pass(nodes, list, next));
    let (o, o2) = (orphans(nodes, list, current), orphans(nodes, list, next));
    lemma_keep_pass(nodes, list, current);
    lemma_keep_pass(nodes, list, next);
    lemma_orphans(nodes, list, current);
    lemma_orphans(nodes, list, next);
    lemma_kept_out(nodes, eligible, vips, current);
    lemma_kept_out(nodes, eligible, vips, next);
    if o.len() > 0 {
        assert(o.contains(o[0]));
    }
    if o2.len() > 0 {
        assert(o2.contains(o2[0]));
    }
    assert(spread_pass(k, nodes, o) == k);
    assert(spread_pass(k2, nodes, o2) == k2);
    lemma_extremes(k, nodes, eligible, donor);
    lemma_extremes(k, nodes, eligible, receiver);
    let (d, r) = (most(k.load), least(k.load));
    assert(k.held[d] == holdings(k.out, nodes[d]) && k.held[r] == holdings(k.out, nodes[r]));
    assert(vips.to_set().contains(vip));
    assert(k.out.contains_key(vip));
    assert(k.held[d].contains(vip));
    assert(uneven(k));
    assert(is_highest(k.held[d], vip)) by {
        assert forall|v: IpAddr| #[trigger] k.held[d].contains(v) implies v.rank() <= vip.rank() by {
            assert(vips.to_set().contains(v) == vips.contains(v));
            assert(k.out.contains_key(v));
        }
    }
    let top = highest(k.held[d]);
    assert(is_highest(k.held[d], top));
    assert(k.held[d].contains(top) && k.held[d].contains(vip));
    IpAddr::rank_injective(top, vip);
    let moved_on = shift(k, nodes, d, r);
    lemma_shift(k, nodes, kept);
    assert(moved_on.out =~= k2.out) by {
        assert forall|v: IpAddr| #[trigger] moved_on.out.contains_key(v) == k2.out.contains_key(v) && (moved_on.out.contains_key(v)
            ==> moved_on.out[v] == k2.out[v]) by {
            assert(vips.to_set().contains(v) == vips.contains(v));
        }
    }
    lemma_exact_by_out(moved_on, k2, nodes);
    assert(rebalance(k, nodes) == rebalance(moved_on, nodes));
}

} // verus!
