//! Cluster-status probe used for automatic cluster formation.
//!
//! On startup a node asks its peers whether a cluster already exists. If none does and a majority
//! of the roster is reachable, the node initializes with the full membership, which is the same on
//! every node; Raft then elects a single leader. If a cluster already exists, the node joins it.

use vstd::prelude::*;

use crate::raft::types::{voters, Membership};

verus! {

/// Asks a peer to report whether it is already part of a formed cluster.
#[derive(Debug, Clone, Copy, PartialEq, Eq, Structural)]
pub struct ClusterStatusRequest {
    /// The asking node.
    pub probe_from: u64,
}

/// A peer's answer to [`ClusterStatusRequest`], computed from its local Raft state.
#[derive(Debug, Clone, Copy, PartialEq, Eq, Structural)]
pub struct ClusterStatusResponse {
    /// True once initialization (or replicated membership) has taken effect locally.
    pub initialized: bool,
    /// Current leader as seen by the responder, if any.
    pub current_leader: Option<u64>,
    /// Number of voters in the responder's committed membership (0 when uninitialized).
    pub member_count: usize,
    /// The responder's committed cluster incarnation, if it has one yet.
    pub cluster_epoch: Option<u128>,
}

/// The responder is part of an existing cluster.
pub open spec fn existing(r: ClusterStatusResponse) -> bool {
    r.initialized || r.current_leader is Some
}

/// Both sides hold a concrete incarnation, and not the same.
pub open spec fn foreign(mine: Option<u128>, theirs: Option<u128>) -> bool {
    mine is Some && theirs is Some && mine != theirs
}

impl ClusterStatusResponse {
    /// True when the responder is part of an existing cluster, so that the asking node must not
    /// form a new one.
    pub fn indicates_existing_cluster(&self) -> (b: bool)
        ensures
            b == existing(*self),
    {
        self.initialized || self.current_leader.is_some()
    }

    /// True when the responder reports a concrete incarnation that differs from `mine`. A blank
    /// responder is never foreign.
    pub fn reports_foreign_epoch(&self, mine: Option<u128>) -> (b: bool)
        ensures
            b == foreign(mine, self.cluster_epoch),
    {
        match (mine, self.cluster_epoch) {
            (Some(m), Some(theirs)) => m != theirs,
            _ => false,
        }
    }

    /// This node's answer to a probe. The members counted are the voters.
    pub fn answer(
        initialized: bool,
        current_leader: Option<u64>,
        membership: &Membership,
        cluster_epoch: Option<u128>,
    ) -> (r: Self)
        ensures
            r.initialized == initialized,
            r.current_leader == current_leader,
            r.member_count == voters(membership@.configs).to_set().len(),
            r.cluster_epoch == cluster_epoch,
    {
        let ids = membership.voter_ids();
        let member_count: usize = crate::raft::store::vip_logic::count_distinct(&ids);
        ClusterStatusResponse { initialized, current_leader, member_count, cluster_epoch }
    }
}

/// The action a node takes after one probe round during formation.
#[derive(Debug, Clone, Copy, PartialEq, Eq, Structural)]
pub enum FormationDecision {
    /// An existing cluster was found; join via replication instead of initializing.
    Join,
    /// A majority responded uninitialized; safe to initialize.
    Form,
    /// Not enough peers reachable yet; keep probing.
    Wait,
}

/// More than half of the roster.
pub open spec fn majority_of(total: nat) -> nat {
    total / 2 + 1
}

/// What a node does after one probe round.
pub open spec fn decision(total_peers: nat, reachable_uninit: nat, found_existing: bool) -> FormationDecision {
    if found_existing {
        FormationDecision::Join
    } else if reachable_uninit >= majority_of(total_peers) {
        FormationDecision::Form
    } else {
        FormationDecision::Wait
    }
}

/// Decide the next formation action from one probe round's results.
///
/// `total_peers` is the full roster size. `reachable_uninit` counts this node itself plus every
/// peer that answered and reported no existing cluster.
pub fn formation_decision(total_peers: usize, reachable_uninit: usize, found_existing: bool) -> (d: FormationDecision)
    ensures
        d == decision(total_peers as nat, reachable_uninit as nat, found_existing),
{
    if found_existing {
        return FormationDecision::Join;
    }
    let majority: usize = total_peers / 2 + 1;
    if reachable_uninit >= majority {
        FormationDecision::Form
    } else {
        FormationDecision::Wait
    }
}

/// An existing cluster is among the answers.
pub open spec fn any_existing(answers: Seq<Option<ClusterStatusResponse>>) -> bool {
    exists|i: int| 0 <= i < answers.len() && (#[trigger] answers[i]) is Some && existing(answers[i]->0)
}

/// How many peers answered that they are in no cluster.
pub open spec fn blank_answers(answers: Seq<Option<ClusterStatusResponse>>) -> nat
    decreases answers.len(),
{
    if answers.len() == 0 {
        0
    } else {
        blank_answers(answers.drop_last()) + if answers.last() is Some && !existing(answers.last()->0) { 1nat } else { 0nat }
    }
}

/// Decide from the answers of one round, `None` for a peer that could not be reached. This node
/// counts itself as reachable and in no cluster.
pub fn formation_round(total_peers: usize, answers: &[Option<ClusterStatusResponse>]) -> (d: FormationDecision)
    requires
        answers@.len() < usize::MAX,
    ensures
        d == decision(total_peers as nat, 1 + blank_answers(answers@), any_existing(answers@)),
{
    let mut reachable_uninit: usize = 1;
    let mut i: usize = 0;
    assert(answers@.take(0) =~= Seq::empty());
    while i < answers.len()
        invariant
            answers@.len() < usize::MAX,
            i <= answers@.len(),
            reachable_uninit == 1 + blank_answers(answers@.take(i as int)),
            reachable_uninit <= 1 + i,
            forall|j: int| 0 <= j < i ==> !((#[trigger] answers@[j]) is Some && existing(answers@[j]->0)),
        decreases answers@.len() - i,
    {
        proof {
            assert(answers@.take(i + 1).drop_last() =~= answers@.take(i as int));
            assert(answers@.take(i + 1).last() == answers@[i as int]);
        }
        if let Some(answer) = answers[i] {
            if answer.indicates_existing_cluster() {
                assert(any_existing(answers@));
                return formation_decision(total_peers, reachable_uninit, true);
            }
            reachable_uninit += 1;
        }
        i += 1;
    }
    assert(answers@.take(i as int) =~= answers@);
    formation_decision(total_peers, reachable_uninit, false)
}

/// No cluster is formed by a minority, or beside an existing one.
pub proof fn law_only_a_majority_forms(total: nat, reachable: nat, found_existing: bool)
    requires
        decision(total, reachable, found_existing) == FormationDecision::Form,
    ensures
        reachable * 2 > total,
        !found_existing,
{
}

/// The two sides of a partition cannot both form a cluster.
pub proof fn law_a_partition_forms_at_most_one_cluster(total: nat, side_a: nat, side_b: nat)
    requires
        side_a + side_b <= total,
    ensures
        !(decision(total, side_a, false) == FormationDecision::Form && decision(total, side_b, false) == FormationDecision::Form),
{
}

/// A node that hears of an existing cluster joins it, however many peers it reaches.
pub proof fn law_an_existing_cluster_is_joined(total: nat, reachable: nat)
    ensures
        decision(total, reachable, true) == FormationDecision::Join,
{
}

/// Being foreign is mutual, and a blank side is foreign to nobody.
pub proof fn law_foreign_is_mutual(a: Option<u128>, b: Option<u128>)
    ensures
        foreign(a, b) == foreign(b, a),
        !foreign(None, b),
        !foreign(a, a),
{
}

/// The number of blank answers is the number of positions at which a peer answered that it is
/// neither initialized nor sees a leader.
proof fn lemma_blank_positions(answers: Seq<Option<ClusterStatusResponse>>)
    ensures
        ({
            let blank = Set::new(
                |i: int| 0 <= i < answers.len() && answers[i] is Some && !answers[i]->0.initialized && answers[i]->0.current_leader is None,
            );
            blank.finite() && blank.len() == blank_answers(answers)
        }),
    decreases answers.len(),
{
    let blank = Set::new(
        |i: int| 0 <= i < answers.len() && answers[i] is Some && !answers[i]->0.initialized && answers[i]->0.current_leader is None,
    );
    if answers.len() == 0 {
        assert(blank =~= Set::empty());
    } else {
        let front = answers.drop_last();
        lemma_blank_positions(front);
        let before = Set::new(
            |i: int| 0 <= i < front.len() && front[i] is Some && !front[i]->0.initialized && front[i]->0.current_leader is None,
        );
        let last = answers.len() - 1;
        assert(!before.contains(last));
        if answers.last() is Some && !existing(answers.last()->0) {
            assert(blank =~= before.insert(last));
        } else {
            assert(blank =~= before);
        }
    }
}

/// A node joins exactly if some peer is initialized or sees a leader. It forms a cluster exactly if
/// no peer is and does, and it makes up more than half of the roster together with the peers that
/// answered, wherever in the list they stand.
pub proof fn law_a_blank_majority_forms_and_nothing_else(
    total_peers: usize,
    answers: &[Option<ClusterStatusResponse>],
    d: FormationDecision,
)
    requires
        answers@.len() < usize::MAX,
        call_ensures(formation_round, (total_peers, answers), d),
    ensures
        ({
            let blank = Set::new(
                |i: int| 0 <= i < answers@.len() && answers@[i] is Some && !answers@[i]->0.initialized && answers@[i]->0.current_leader is None,
            );
            let found = exists|i: int| 0 <= i < answers@.len() && (#[trigger] answers@[i]) is Some
                && (answers@[i]->0.initialized || answers@[i]->0.current_leader is Some);
            &&& d == FormationDecision::Join <==> found
            &&& d == FormationDecision::Form <==> !found && 2 * (1 + blank.len()) > total_peers
            &&& d == FormationDecision::Wait <==> !found && 2 * (1 + blank.len()) <= total_peers
        }),
{
    lemma_blank_positions(answers@);
    assert forall|i: int| 0 <= i < answers@.len() && (#[trigger] answers@[i]) is Some implies existing(answers@[i]->0)
        == (answers@[i]->0.initialized || answers@[i]->0.current_leader is Some) by {}
}

proof fn lemma_blank_answers_as_a_bag(answers: Seq<Option<ClusterStatusResponse>>)
    ensures
        blank_answers(answers) == answers.to_multiset().filter(
            |a: Option<ClusterStatusResponse>| a is Some && !existing(a->0),
        ).len(),
    decreases answers.len(),
{
    broadcast use {vstd::multiset::group_multiset_axioms, vstd::seq_lib::group_to_multiset_ensures};

    let pred = |a: Option<ClusterStatusResponse>| a is Some && !existing(a->0);
    let bag = answers.to_multiset();
    if answers.len() == 0 {
        assert(bag.len() == 0);
        assert(bag.filter(pred) =~= vstd::multiset::Multiset::empty()) by {
            assert forall|a: Option<ClusterStatusResponse>| bag.count(a) == 0 by {
                assert(!answers.contains(a));
            }
        }
    } else {
        let front = answers.drop_last();
        lemma_blank_answers_as_a_bag(front);
        assert(answers =~= front.push(answers.last()));
        let before = front.to_multiset();
        assert(bag =~= before.insert(answers.last()));
        if pred(answers.last()) {
            assert(bag.filter(pred) =~= before.filter(pred).insert(answers.last()));
        } else {
            assert(bag.filter(pred) =~= before.filter(pred));
        }
    }
}

/// The order in which the peers are listed does not matter.
pub proof fn law_formation_ignores_the_order_of_peers(
    total_peers: usize,
    a: &[Option<ClusterStatusResponse>],
    b: &[Option<ClusterStatusResponse>],
    with_a: FormationDecision,
    with_b: FormationDecision,
)
    requires
        a@.len() < usize::MAX,
        a@.to_multiset() == b@.to_multiset(),
        call_ensures(formation_round, (total_peers, a), with_a),
        call_ensures(formation_round, (total_peers, b), with_b),
    ensures
        with_a == with_b,
{
    broadcast use vstd::seq_lib::group_to_multiset_ensures;

    lemma_blank_answers_as_a_bag(a@);
    lemma_blank_answers_as_a_bag(b@);
    assert forall|x: Option<ClusterStatusResponse>| #[trigger] a@.contains(x) == b@.contains(x) by {
        assert(a@.contains(x) <==> a@.to_multiset().count(x) > 0);
        assert(b@.contains(x) <==> b@.to_multiset().count(x) > 0);
    }
    if any_existing(a@) {
        let i = choose|i: int| 0 <= i < a@.len() && (#[trigger] a@[i]) is Some && existing(a@[i]->0);
        assert(a@.contains(a@[i]));
        assert(b@.contains(a@[i]));
        assert(b@[b@.index_of(a@[i])] == a@[i]);
    }
    if any_existing(b@) {
        let i = choose|i: int| 0 <= i < b@.len() && (#[trigger] b@[i]) is Some && existing(b@[i]->0);
        assert(b@.contains(b@[i]));
        assert(a@.contains(b@[i]));
        assert(a@[a@.index_of(b@[i])] == b@[i]);
    }
}

/// An answer shows an existing cluster exactly if its sender is initialized or sees a leader, and another
/// incarnation exactly if both are known and differ.
pub proof fn law_answers_are_judged_by_what_they_say(r: ClusterStatusResponse, mine: Option<u128>, exists_already: bool, other: bool)
    requires
        call_ensures(ClusterStatusResponse::indicates_existing_cluster, (&r,), exists_already),
        call_ensures(ClusterStatusResponse::reports_foreign_epoch, (&r, mine), other),
    ensures
        exists_already <==> r.initialized || r.current_leader is Some,
        other <==> mine is Some && r.cluster_epoch is Some && mine->0 != r.cluster_epoch->0,
{
}

/// One round of probing decides as the count of blank peers and the answers do.
pub proof fn law_a_decision_takes_more_than_half(total: usize, reachable: usize, found: bool, d: FormationDecision)
    requires
        call_ensures(formation_decision, (total, reachable, found), d),
    ensures
        d == FormationDecision::Join <==> found,
        d == FormationDecision::Form <==> !found && 2 * reachable > total,
        d == FormationDecision::Wait <==> !found && 2 * reachable <= total,
{
}

/// An answer says what is known here, and counts every voter once, in however many voter sets it is, and
/// no learner.
pub proof fn law_an_answer_says_what_is_known_here(
    initialized: bool,
    leader: Option<u64>,
    membership: &Membership,
    epoch: Option<u128>,
    r: ClusterStatusResponse,
)
    requires
        call_ensures(ClusterStatusResponse::answer, (initialized, leader, membership, epoch), r),
    ensures
        r.initialized == initialized && r.current_leader == leader && r.cluster_epoch == epoch,
        r.member_count == Set::new(
            |n: u64| exists|i: int| 0 <= i < membership.configs@.len() && (#[trigger] membership.configs@[i])@.contains(n),
        ).len(),
{
    let configs = membership@.configs;
    let all = voters(configs).to_set();
    let listed = Set::new(|n: u64| exists|i: int| 0 <= i < membership.configs@.len() && (#[trigger] membership.configs@[i])@.contains(n));
    assert(all =~= listed) by {
        assert forall|n: u64| all.contains(n) == listed.contains(n) by {
            crate::raft::store::eligibility_laws::lemma_voters(configs, n);
            if all.contains(n) {
                let i = choose|i: int| 0 <= i < configs.len() && (#[trigger] configs[i]).contains(n);
                assert(membership.configs@[i]@.contains(n));
            }
            if listed.contains(n) {
                let i = choose|i: int| 0 <= i < membership.configs@.len() && (#[trigger] membership.configs@[i])@.contains(n);
                assert(configs[i].contains(n));
            }
        }
    }
}

} // verus!
