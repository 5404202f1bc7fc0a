//! The mathematical model of VIP placement.

use vstd::prelude::*;

use crate::addr::IpAddr;
use crate::order::{sorted, sorted_distinct, Ranked};

verus! {

/// VIPs spread over a list of nodes: where each VIP is, how many placements each node counts,
/// and which VIPs each node holds. Nodes are named by their index in the list.
#[verifier::ext_equal]
pub struct Placement {
    pub out: Map<IpAddr, u64>,
    pub load: Seq<nat>,
    pub held: Seq<Set<IpAddr>>,
}

/// Nothing placed yet on `n` nodes.
pub open spec fn nothing_placed(n: nat) -> Placement {
    Placement {
        out: Map::empty(),
        load: Seq::new(n, |i: int| 0),
        held: Seq::new(n, |i: int| Set::empty()),
    }
}

/// `p` with `vip` put on node `i`.
pub open spec fn put(p: Placement, nodes: Seq<u64>, vip: IpAddr, i: int) -> Placement {
    Placement {
        out: p.out.insert(vip, nodes[i]),
        load: p.load.update(i, p.load[i] + 1),
        held: p.held.update(i, p.held[i].insert(vip)),
    }
}

/// Index of the smallest load, the first one if several are smallest.
pub open spec fn is_least(load: Seq<nat>, i: int) -> bool {
    &&& 0 <= i < load.len()
    &&& forall|j: int| 0 <= j < load.len() ==> load[i] <= #[trigger] load[j]
    &&& forall|j: int| 0 <= j < i ==> load[i] < #[trigger] load[j]
}

/// Index of the greatest load, the first one if several are greatest.
pub open spec fn is_most(load: Seq<nat>, i: int) -> bool {
    &&& 0 <= i < load.len()
    &&& forall|j: int| 0 <= j < load.len() ==> #[trigger] load[j] <= load[i]
    &&& forall|j: int| 0 <= j < i ==> #[trigger] load[j] < load[i]
}

pub open spec fn least(load: Seq<nat>) -> int {
    choose|i: int| is_least(load, i)
}

pub open spec fn most(load: Seq<nat>) -> int {
    choose|i: int| is_most(load, i)
}

/// The VIP's current holder is among the nodes, so it may stay.
pub open spec fn keepable(nodes: Seq<u64>, current: Map<IpAddr, u64>, vip: IpAddr) -> bool {
    current.contains_key(vip) && nodes.contains(current[vip])
}

/// First pass: every VIP whose holder is still among the nodes stays there.
pub open spec fn keep_pass(nodes: Seq<u64>, vips: Seq<IpAddr>, current: Map<IpAddr, u64>) -> Placement
    decreases vips.len(),
{
    if vips.len() == 0 {
        nothing_placed(nodes.len())
    } else {
        let p = keep_pass(nodes, vips.drop_last(), current);
        if keepable(nodes, current, vips.last()) {
            put(p, nodes, vips.last(), nodes.index_of(current[vips.last()]))
        } else {
            p
        }
    }
}

/// The VIPs that have to be placed anew.
pub open spec fn orphans(nodes: Seq<u64>, vips: Seq<IpAddr>, current: Map<IpAddr, u64>) -> Seq<IpAddr> {
    vips.filter(|vip: IpAddr| !keepable(nodes, current, vip))
}

/// Second pass: one after the other, each VIP goes to the node with the smallest load.
pub open spec fn spread_pass(p: Placement, nodes: Seq<u64>, vips: Seq<IpAddr>) -> Placement
    decreases vips.len(),
{
    if vips.len() == 0 {
        p
    } else {
        let q = spread_pass(p, nodes, vips.drop_last());
        put(q, nodes, vips.last(), least(q.load))
    }
}

/// The greatest address of a set.
pub open spec fn is_highest(vips: Set<IpAddr>, vip: IpAddr) -> bool {
    vips.contains(vip) && forall|other: IpAddr| #[trigger] vips.contains(other) ==> other.rank() <= vip.rank()
}

pub open spec fn highest(vips: Set<IpAddr>) -> IpAddr {
    choose|vip: IpAddr| is_highest(vips, vip)
}

/// `p` with the highest VIP of node `donor` moved to node `receiver`.
pub open spec fn shift(p: Placement, nodes: Seq<u64>, donor: int, receiver: int) -> Placement {
    let vip = highest(p.held[donor]);
    Placement {
        out: p.out.insert(vip, nodes[receiver]),
        load: p.load.update(donor, (p.load[donor] - 1) as nat).update(receiver, p.load[receiver] + 1),
        held: p.held.update(donor, p.held[donor].remove(vip)).update(receiver, p.held[receiver].insert(vip)),
    }
}

/// A VIP can still move from the most to the least loaded node and make the spread smaller.
pub open spec fn uneven(p: Placement) -> bool {
    &&& p.load.len() > 0
    &&& p.load[most(p.load)] > p.load[least(p.load)] + 1
    &&& p.held[most(p.load)] != Set::<IpAddr>::empty()
}

pub open spec fn sum_of_squares(load: Seq<nat>) -> nat
    decreases load.len(),
{
    if load.len() == 0 {
        0
    } else {
        sum_of_squares(load.drop_last()) + load.last() * load.last()
    }
}

/// Third pass: move VIPs from the most to the least loaded node until the spread is at most one.
pub open spec fn rebalance(p: Placement, nodes: Seq<u64>) -> Placement
    decreases sum_of_squares(p.load),
{
    if uneven(p) {
        proof { lemma_shift_decreases(p, nodes); }
        rebalance(shift(p, nodes, most(p.load), least(p.load)), nodes)
    } else {
        p
    }
}

/// All three passes.
pub open spec fn place(nodes: Seq<u64>, vips: Seq<IpAddr>, current: Map<IpAddr, u64>) -> Placement {
    rebalance(spread_pass(keep_pass(nodes, vips, current), nodes, orphans(nodes, vips, current)), nodes)
}

/// The holder of every VIP, given the eligible nodes, the VIPs and their current holders.
pub open spec fn minimal_movement(eligible: Seq<u64>, vips: Seq<IpAddr>, current: Map<IpAddr, u64>) -> Map<IpAddr, u64> {
    if eligible.len() == 0 {
        Map::empty()
    } else {
        place(sorted_distinct(eligible), sorted(vips), current).out
    }
}

pub proof fn lemma_least(load: Seq<nat>)
    requires
        load.len() > 0,
    ensures
        is_least(load, least(load)),
    decreases load.len(),
{
    let n = load.len() - 1;
    if n == 0 {
        assert(is_least(load, 0));
    } else {
        let rest = load.drop_last();
        lemma_least(rest);
        let i = least(rest);
        assert forall|j: int| 0 <= j < n implies rest[j] == load[j] by {}
        if load[n] < load[i] {
            assert(is_least(load, n));
        } else {
            assert(is_least(load, i));
        }
    }
}

pub proof fn lemma_most(load: Seq<nat>)
    requires
        load.len() > 0,
    ensures
        is_most(load, most(load)),
    decreases load.len(),
{
    let n = load.len() - 1;
    if n == 0 {
        assert(is_most(load, 0));
    } else {
        let rest = load.drop_last();
        lemma_most(rest);
        let i = most(rest);
        assert forall|j: int| 0 <= j < n implies rest[j] == load[j] by {}
        if load[n] > load[i] {
            assert(is_most(load, n));
        } else {
            assert(is_most(load, i));
        }
    }
}

proof fn lemma_sum_of_squares_update(load: Seq<nat>, i: int, v: nat)
    requires
        0 <= i < load.len(),
    ensures
        sum_of_squares(load.update(i, v)) + load[i] * load[i] == sum_of_squares(load) + v * v,
    decreases load.len(),
{
    let n = load.len() - 1;
    if i == n {
        assert(load.update(i, v).drop_last() =~= load.drop_last());
    } else {
        lemma_sum_of_squares_update(load.drop_last(), i, v);
        assert(load.update(i, v).drop_last() =~= load.drop_last().update(i, v));
    }
}

/// Every move makes the sum of the squared loads smaller, so there are finitely many.
pub proof fn lemma_shift_decreases(p: Placement, nodes: Seq<u64>)
    requires
        uneven(p),
    ensures
        sum_of_squares(shift(p, nodes, most(p.load), least(p.load)).load) < sum_of_squares(p.load),
{
    lemma_least(p.load);
    lemma_most(p.load);
    let (d, r) = (most(p.load), least(p.load));
    let (x, y) = (p.load[d], p.load[r]);
    let step = p.load.update(d, (x - 1) as nat);
    lemma_sum_of_squares_update(p.load, d, (x - 1) as nat);
    lemma_sum_of_squares_update(step, r, y + 1);
    assert((x - 1) * (x - 1) + (y + 1) * (y + 1) < x * x + y * y) by (nonlinear_arith)
        requires
            x > y + 1,
            y >= 0,
    ;
}

} // verus!
