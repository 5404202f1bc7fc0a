//! Life of a cluster as seen by one member: timing, incarnation, and noticing to have been left
//! behind.

use vstd::prelude::*;

use crate::config::RaftTuneConfig;
use crate::raft::probe::{foreign, majority_of, ClusterStatusResponse};
use crate::text::{decimal, push_decimal, push_text};

verus! {

/// How often peers are probed again while waiting to form the cluster (milliseconds).
pub const FORMATION_PROBE_INTERVAL_MS: u64 = 500;

/// Time for one probe during formation (seconds).
pub const FORMATION_PROBE_TIMEOUT_SECS: u64 = 1;

/// How often waiting is logged after the first round (rounds).
pub const FORMATION_LOG_EVERY_ROUNDS: u32 = 20;

/// How often the incarnation and the peers' incarnations are looked at (milliseconds).
pub const GUARD_POLL_INTERVAL_MS: u64 = 1000;

/// Time for one probe of the guard (seconds).
pub const GUARD_PROBE_TIMEOUT_SECS: u64 = 1;

/// Consecutive guard rounds that must all observe a foreign majority before this node resets.
pub const GUARD_STRIKES_TO_RESET: u32 = 3;

/// Process exit code of a node that resets itself. Non-zero, so that a supervisor starts it anew.
pub const STALE_SURVIVOR_EXIT_CODE: i32 = 3;

/// Why Raft timing is refused.
#[derive(Debug)]
pub enum TimingError {
    ElectionTimeout { min: u64, max: u64 },
    Heartbeat { election_timeout_min: u64, heartbeat_interval: u64 },
    /// Something else than the three values set here.
    Other { text: String },
}

/// Timing is fine if the election timeouts span a range and the heartbeat comes before the earliest
/// of them.
pub open spec fn timing_result(t: RaftTuneConfig) -> Result<(), TimingError> {
    if t.election_timeout_min_ms >= t.election_timeout_max_ms {
        Err(TimingError::ElectionTimeout { min: t.election_timeout_min_ms, max: t.election_timeout_max_ms })
    } else if t.election_timeout_min_ms <= t.heartbeat_interval_ms {
        Err(TimingError::Heartbeat {
            election_timeout_min: t.election_timeout_min_ms,
            heartbeat_interval: t.heartbeat_interval_ms,
        })
    } else {
        Ok(())
    }
}

/// [`openraft::Config::validate`] on a default configuration with these three values: the minimal
/// election timeout must be below the maximal one and above the heartbeat interval. The other values
/// it looks at have defaults that it accepts.
#[verifier::external_body]
fn validate(t: &RaftTuneConfig) -> (r: Result<(), TimingError>)
    ensures
        r == timing_result(*t),
{
    let mut config = openraft::Config::default();
    config.election_timeout_min = t.election_timeout_min_ms;
    config.election_timeout_max = t.election_timeout_max_ms;
    config.heartbeat_interval = t.heartbeat_interval_ms;
    match config.validate() {
        Ok(_) => Ok(()),
        Err(openraft::ConfigError::ElectionTimeout { min, max }) => Err(TimingError::ElectionTimeout { min, max }),
        Err(openraft::ConfigError::ElectionTimeoutLTHeartBeat { election_timeout_min, heartbeat_interval }) => {
            Err(TimingError::Heartbeat { election_timeout_min, heartbeat_interval })
        }
        Err(e) => Err(TimingError::Other { text: e.to_string() }),
    }
}

impl TimingError {
    /// What the error says.
    pub open spec fn text(self) -> Seq<char> {
        match self {
            TimingError::ElectionTimeout { min, max } => "openraft config validate: election timeout: min("@
                + decimal(min as nat) + ") must be < max("@ + decimal(max as nat) + ")"@,
            TimingError::Heartbeat { election_timeout_min, heartbeat_interval } => "openraft config validate: election_timeout_min("@
                + decimal(election_timeout_min as nat) + ") must be > heartbeat_interval("@
                + decimal(heartbeat_interval as nat) + ")"@,
            TimingError::Other { text } => "openraft config validate: "@ + text@,
        }
    }

    pub fn message(&self) -> (text: String)
        ensures
            text@ == self.text(),
    {
        let mut s = String::new();
        match self {
            TimingError::ElectionTimeout { min, max } => {
                push_text(&mut s, "openraft config validate: election timeout: min(");
                push_decimal(&mut s, *min as u128);
                push_text(&mut s, ") must be < max(");
                push_decimal(&mut s, *max as u128);
                push_text(&mut s, ")");
            },
            TimingError::Heartbeat { election_timeout_min, heartbeat_interval } => {
                push_text(&mut s, "openraft config validate: election_timeout_min(");
                push_decimal(&mut s, *election_timeout_min as u128);
                push_text(&mut s, ") must be > heartbeat_interval(");
                push_decimal(&mut s, *heartbeat_interval as u128);
                push_text(&mut s, ")");
            },
            TimingError::Other { text } => {
                push_text(&mut s, "openraft config validate: ");
                push_text(&mut s, text.as_str());
            },
        }
        assert(s@ =~= self.text());
        s
    }
}

/// Check Raft timing before the consensus layer is started.
pub fn check_timing(tune: &RaftTuneConfig) -> (r: Result<(), TimingError>)
    ensures
        r == timing_result(*tune),
{
    validate(tune)
}

/// This node leads a cluster that has no incarnation yet, and has to commit one.
pub fn needs_epoch(current_leader: Option<u64>, node_id: u64, cluster_epoch: Option<u128>) -> (b: bool)
    ensures
        b == (current_leader == Some(node_id) && cluster_epoch is None),
{
    let is_leader = match current_leader {
        Some(leader) => leader == node_id,
        None => false,
    };
    is_leader && cluster_epoch.is_none()
}

/// How many answers report another concrete incarnation.
pub open spec fn foreign_answers(mine: Option<u128>, answers: Seq<Option<ClusterStatusResponse>>) -> nat
    decreases answers.len(),
{
    if answers.len() == 0 {
        0
    } else {
        foreign_answers(mine, answers.drop_last())
            + if answers.last() is Some && foreign(mine, answers.last()->0.cluster_epoch) { 1nat } else { 0nat }
    }
}

/// This round shows that the node was left behind: it holds an incarnation, sees no leader, and a
/// majority of the whole roster reports another incarnation.
pub open spec fn left_behind(
    total: nat,
    mine: Option<u128>,
    has_leader: bool,
    answers: Seq<Option<ClusterStatusResponse>>,
) -> bool {
    mine is Some && !has_leader && foreign_answers(mine, answers) >= majority_of(total)
}

/// What to do after a guard round.
#[derive(Debug, Clone, Copy, PartialEq, Eq, Structural)]
pub struct GuardStep {
    /// Rounds in a row that showed this node was left behind.
    pub strikes: u32,
    /// How many peers reported another incarnation.
    pub foreign: usize,
    /// The process has to end and start anew.
    pub reset: bool,
}

/// The strikes after a round.
pub open spec fn next_strikes(strikes: u32, struck: bool) -> u32 {
    if !struck {
        0
    } else if strikes == u32::MAX {
        u32::MAX
    } else {
        (strikes + 1) as u32
    }
}

/// Judge one guard round. Anything but a foreign majority starts the count over.
pub fn guard_round(
    strikes: u32,
    total: usize,
    local_epoch: Option<u128>,
    has_leader: bool,
    answers: &[Option<ClusterStatusResponse>],
) -> (step: GuardStep)
    ensures
        ({
            let struck = left_behind(total as nat, local_epoch, has_leader, answers@);
            &&& step.strikes == next_strikes(strikes, struck)
            &&& step.foreign == foreign_answers(local_epoch, answers@)
            &&& step.reset == (struck && step.strikes >= GUARD_STRIKES_TO_RESET)
        }),
{
    let mut count: usize = 0;
    let mut i: usize = 0;
    assert(answers@.take(0) =~= Seq::empty());
    while i < answers.len()
        invariant
            i <= answers@.len(),
            count <= i,
            count == foreign_answers(local_epoch, answers@.take(i as int)),
        decreases answers@.len() - i,
    {
        proof {
            assert(answers@.take(i + 1).drop_last() =~= answers@.take(i as int));
            assert(answers@.take(i + 1).last() == answers@[i as int]);
        }
        if let Some(answer) = answers[i] {
            if answer.reports_foreign_epoch(local_epoch) {
                count += 1;
            }
        }
        i += 1;
    }
    assert(answers@.take(i as int) =~= answers@);
    let majority: usize = total / 2 + 1;
    if local_epoch.is_none() || has_leader || count < majority {
        return GuardStep { strikes: 0, foreign: count, reset: false };
    }
    let next: u32 = strikes.saturating_add(1);
    GuardStep { strikes: next, foreign: count, reset: next >= GUARD_STRIKES_TO_RESET }
}

/// Whether to look at the peers at all: only a node that holds an incarnation and sees no leader
/// can have been left behind.
pub fn guard_must_probe(local_epoch: Option<u128>, has_leader: bool) -> (b: bool)
    ensures
        b == (local_epoch is Some && !has_leader),
{
    local_epoch.is_some() && !has_leader
}

/// Count a round of waiting to form the cluster. Returns the new count and whether to log it.
pub fn waited_round(rounds: u32) -> (r: (u32, bool))
    ensures
        r.0 == if rounds == u32::MAX { 0 } else { (rounds + 1) as u32 },
        r.1 == (r.0 == 1 || r.0 % FORMATION_LOG_EVERY_ROUNDS == 0),
{
    let next: u32 = if rounds == u32::MAX {
        0
    } else {
        rounds + 1
    };
    (next, next == 1 || next % FORMATION_LOG_EVERY_ROUNDS == 0)
}

/// The strikes after a list of rounds.
pub open spec fn strikes_after(struck: Seq<bool>) -> u32
    decreases struck.len(),
{
    if struck.len() == 0 { 0 } else { next_strikes(strikes_after(struck.drop_last()), struck.last()) }
}

/// A node resets only after the last rounds in a row, as many as the hold-down asks for, all showed
/// that it was left behind.
pub proof fn law_reset_takes_consecutive_strikes(struck: Seq<bool>, n: nat)
    requires
        strikes_after(struck) >= n,
    ensures
        struck.len() >= n,
        forall|i: int| struck.len() - n <= i < struck.len() ==> #[trigger] struck[i],
    decreases struck.len(),
{
    if n > 0 {
        if struck.len() > 0 {
            let front = struck.drop_last();
            law_reset_takes_consecutive_strikes(front, (n - 1) as nat);
            assert forall|i: int| struck.len() - n <= i < struck.len() implies #[trigger] struck[i] by {
                if i < front.len() {
                    assert(front[i]);
                }
            }
        }
    }
}

/// A node whose peers share its incarnation, or have none, is never left behind.
pub proof fn law_a_node_among_its_own_is_never_left_behind(
    total: nat,
    mine: Option<u128>,
    has_leader: bool,
    answers: Seq<Option<ClusterStatusResponse>>,
)
    requires
        forall|i: int| 0 <= i < answers.len() && (#[trigger] answers[i]) is Some ==> !foreign(mine, answers[i]->0.cluster_epoch),
    ensures
        !left_behind(total, mine, has_leader, answers),
{
    lemma_no_foreign_answers(mine, answers);
}

proof fn lemma_no_foreign_answers(mine: Option<u128>, answers: Seq<Option<ClusterStatusResponse>>)
    requires
        forall|i: int| 0 <= i < answers.len() && (#[trigger] answers[i]) is Some ==> !foreign(mine, answers[i]->0.cluster_epoch),
    ensures
        foreign_answers(mine, answers) == 0,
    decreases answers.len(),
{
    if answers.len() > 0 {
        let front = answers.drop_last();
        assert forall|i: int| 0 <= i < front.len() && (#[trigger] front[i]) is Some implies !foreign(mine, front[i]->0.cluster_epoch) by {
            assert(answers[i] is Some);
        }
        lemma_no_foreign_answers(mine, front);
        assert(answers[answers.len() - 1] == answers.last());
    }
}

proof fn lemma_foreign_positions(mine: Option<u128>, answers: Seq<Option<ClusterStatusResponse>>)
    requires
        mine is Some,
    ensures
        ({
            let others = Set::new(
                |i: int| 0 <= i < answers.len() && answers[i] is Some && answers[i]->0.cluster_epoch is Some && answers[i]->0.cluster_epoch != mine,
            );
            others.finite() && others.len() == foreign_answers(mine, answers)
        }),
    decreases answers.len(),
{
    let others = Set::new(
        |i: int| 0 <= i < answers.len() && answers[i] is Some && answers[i]->0.cluster_epoch is Some && answers[i]->0.cluster_epoch != mine,
    );
    if answers.len() == 0 {
        assert(others =~= Set::empty());
    } else {
        let front = answers.drop_last();
        lemma_foreign_positions(mine, front);
        let before = Set::new(
            |i: int| 0 <= i < front.len() && front[i] is Some && front[i]->0.cluster_epoch is Some && front[i]->0.cluster_epoch != mine,
        );
        let last = answers.len() - 1;
        assert(!before.contains(last));
        if answers.last() is Some && foreign(mine, answers.last()->0.cluster_epoch) {
            assert(others =~= before.insert(last));
        } else {
            assert(others =~= before);
        }
    }
}

/// A node that holds an incarnation and sees no leader is struck exactly if more than half of the
/// roster answered with another one; whoever is not struck starts over.
pub proof fn law_a_foreign_majority_strikes_and_nothing_else(
    strikes: u32,
    total: usize,
    mine: u128,
    has_leader: bool,
    answers: &[Option<ClusterStatusResponse>],
    step: GuardStep,
)
    requires
        call_ensures(guard_round, (strikes, total, Some(mine), has_leader, answers), step),
    ensures
        ({
            let others = Set::new(
                |i: int| 0 <= i < answers@.len() && answers@[i] is Some && answers@[i]->0.cluster_epoch is Some
                    && answers@[i]->0.cluster_epoch != Some(mine),
            );
            &&& step.foreign == others.len()
            &&& !has_leader && 2 * others.len() > total ==> if strikes < u32::MAX { step.strikes == strikes + 1 } else { step.strikes == u32::MAX }
            &&& step.reset <==> step.strikes >= 3
            &&& has_leader || 2 * others.len() <= total ==> step.strikes == 0 && !step.reset
        }),
{
    lemma_foreign_positions(Some(mine), answers@);
}

/// A node that holds no incarnation is never struck.
pub proof fn law_a_blank_node_is_never_struck(
    strikes: u32,
    total: usize,
    has_leader: bool,
    answers: &[Option<ClusterStatusResponse>],
    step: GuardStep,
)
    requires
        call_ensures(guard_round, (strikes, total, None, has_leader, answers), step),
    ensures
        step.strikes == 0,
        !step.reset,
{
}

/// Three rounds in a row in which more than half of the roster reports another incarnation reset a
/// leaderless node, whatever came before them; and it takes three.
pub proof fn law_three_foreign_majorities_in_a_row_reset(
    strikes: u32,
    total: usize,
    mine: u128,
    answers: [&[Option<ClusterStatusResponse>]; 3],
    first: GuardStep,
    second: GuardStep,
    third: GuardStep,
)
    requires
        forall|k: int| 0 <= k < 3 ==> 2 * Set::new(
            |i: int| 0 <= i < (#[trigger] answers@[k])@.len() && answers@[k]@[i] is Some && answers@[k]@[i]->0.cluster_epoch is Some
                && answers@[k]@[i]->0.cluster_epoch != Some(mine),
        ).len() > total,
        call_ensures(guard_round, (strikes, total, Some(mine), false, answers@[0]), first),
        call_ensures(guard_round, (first.strikes, total, Some(mine), false, answers@[1]), second),
        call_ensures(guard_round, (second.strikes, total, Some(mine), false, answers@[2]), third),
    ensures
        third.reset,
        strikes == 0 ==> !first.reset && !second.reset,
{
    assert forall|k: int| 0 <= k < 3 implies left_behind(total as nat, Some(mine), false, (#[trigger] answers@[k])@) by {
        lemma_foreign_positions(Some(mine), answers@[k]@);
    }
    assert(left_behind(total as nat, Some(mine), false, answers@[0]@));
    assert(left_behind(total as nat, Some(mine), false, answers@[1]@));
    assert(left_behind(total as nat, Some(mine), false, answers@[2]@));
}

/// A node mints an incarnation exactly if it leads itself and none is committed yet.
pub proof fn law_only_a_leader_without_an_incarnation_mints_one(leader: Option<u64>, node_id: u64, epoch: Option<u128>, b: bool)
    requires
        call_ensures(needs_epoch, (leader, node_id, epoch), b),
    ensures
        b <==> epoch is None && leader is Some && leader->0 == node_id,
{
}

/// Peers are probed exactly by a node that holds an incarnation and sees no leader; so a round in which
/// they were not probed strikes nobody.
pub proof fn law_a_round_without_probes_strikes_nobody(
    mine: Option<u128>,
    has_leader: bool,
    probe: bool,
    strikes: u32,
    total: usize,
    answers: &[Option<ClusterStatusResponse>],
    step: GuardStep,
)
    requires
        call_ensures(guard_must_probe, (mine, has_leader), probe),
        call_ensures(guard_round, (strikes, total, mine, has_leader, answers), step),
    ensures
        probe <==> mine is Some && !has_leader,
        !probe ==> step.strikes == 0 && !step.reset,
{
}

/// Waiting rounds are counted one by one, and logged the first time and then every twenty rounds.
pub proof fn law_waiting_rounds_are_counted(rounds: u32, r: (u32, bool))
    requires
        call_ensures(waited_round, (rounds,), r),
    ensures
        rounds < u32::MAX ==> r.0 == rounds + 1,
        rounds == u32::MAX ==> r.0 == 0,
        r.1 <==> r.0 == 1 || r.0 % 20 == 0,
{
}

/// Timing is accepted exactly if the heartbeat comes before the earliest election timeout, and that before
/// the latest.
pub proof fn law_heartbeats_come_before_elections(tune: &RaftTuneConfig, r: Result<(), TimingError>)
    requires
        call_ensures(check_timing, (tune,), r),
    ensures
        r is Ok <==> tune.heartbeat_interval_ms < tune.election_timeout_min_ms < tune.election_timeout_max_ms,
{
}

} // verus!
