use keepafloatd::config::RaftTuneConfig;
use keepafloatd::raft::cluster::{
    check_timing, guard_must_probe, guard_round, needs_epoch, waited_round, GuardStep, TimingError,
};
use keepafloatd::raft::probe::{
    formation_decision, formation_round, ClusterStatusResponse, FormationDecision,
};
use keepafloatd::raft::types::Membership;

#[test]
fn reports_foreign_epoch_only_when_both_concrete_and_different() {
    let with = |e| ClusterStatusResponse {
        initialized: true,
        current_leader: Some(1),
        member_count: 3,
        cluster_epoch: e,
    };
    // Different concrete incarnations -> foreign.
    assert!(with(Some(2)).reports_foreign_epoch(Some(1)));
    // Same incarnation -> not foreign.
    assert!(!with(Some(1)).reports_foreign_epoch(Some(1)));
    // Either side blank -> never foreign (peer may be mid-formation; we may be blank).
    assert!(!with(None).reports_foreign_epoch(Some(1)));
    assert!(!with(Some(2)).reports_foreign_epoch(None));
    assert!(!with(None).reports_foreign_epoch(None));
}

#[test]
fn formation_waits_below_majority_and_forms_at_majority() {
    // 3-node cluster: majority is 2.
    assert_eq!(formation_decision(3, 1, false), FormationDecision::Wait);
    assert_eq!(formation_decision(3, 2, false), FormationDecision::Form);
    assert_eq!(formation_decision(3, 3, false), FormationDecision::Form);
    // 5-node cluster: majority is 3.
    assert_eq!(formation_decision(5, 2, false), FormationDecision::Wait);
    assert_eq!(formation_decision(5, 3, false), FormationDecision::Form);
    // Single-node cluster forms immediately.
    assert_eq!(formation_decision(1, 1, false), FormationDecision::Form);
}

#[test]
fn formation_joins_when_existing_cluster_found() {
    // An existing cluster always means join, regardless of how many answered uninitialized.
    assert_eq!(formation_decision(3, 1, true), FormationDecision::Join);
    assert_eq!(formation_decision(3, 3, true), FormationDecision::Join);
}

#[test]
fn formation_majority_threshold_across_roster_sizes() {
    // For each roster size, Wait strictly below majority, Form at and above it.
    for total in 1..=7_usize {
        let majority = total / 2 + 1;
        for reachable in 0..=total {
            let decision = formation_decision(total, reachable, false);
            if reachable >= majority {
                assert_eq!(
                    decision,
                    FormationDecision::Form,
                    "total={total} reachable={reachable} majority={majority}"
                );
            } else {
                assert_eq!(
                    decision,
                    FormationDecision::Wait,
                    "total={total} reachable={reachable} majority={majority}"
                );
            }
        }
    }
}

#[test]
fn formation_even_sized_rosters_need_strict_majority() {
    // 4-node: majority 3 (a 2-2 split must NOT form on either side).
    assert_eq!(formation_decision(4, 2, false), FormationDecision::Wait);
    assert_eq!(formation_decision(4, 3, false), FormationDecision::Form);
    // 6-node: majority 4.
    assert_eq!(formation_decision(6, 3, false), FormationDecision::Wait);
    assert_eq!(formation_decision(6, 4, false), FormationDecision::Form);
}

#[test]
fn formation_existing_cluster_always_joins_regardless_of_reachability() {
    for total in 1..=7_usize {
        for reachable in 0..=total {
            assert_eq!(
                formation_decision(total, reachable, true),
                FormationDecision::Join,
                "total={total} reachable={reachable}"
            );
        }
    }
}

#[test]
fn leader_seen_but_uninitialized_still_indicates_existing_cluster() {
    let leader_only = ClusterStatusResponse {
        initialized: false,
        current_leader: Some(2),
        member_count: 0,
        cluster_epoch: None,
    };
    assert!(leader_only.indicates_existing_cluster());
    let initialized_no_leader = ClusterStatusResponse {
        initialized: true,
        current_leader: None,
        member_count: 3,
        cluster_epoch: None,
    };
    assert!(initialized_no_leader.indicates_existing_cluster());
}

fn answer(initialized: bool, current_leader: Option<u64>) -> Option<ClusterStatusResponse> {
    Some(ClusterStatusResponse { initialized, current_leader, member_count: 0, cluster_epoch: None })
}

#[test]
fn an_initialized_peer_with_a_leader_is_an_existing_cluster() {
    let resp = ClusterStatusResponse {
        initialized: true,
        current_leader: Some(2),
        member_count: 3,
        cluster_epoch: Some(42),
    };
    assert!(resp.indicates_existing_cluster());
    let blank = ClusterStatusResponse {
        initialized: false,
        current_leader: None,
        member_count: 0,
        cluster_epoch: None,
    };
    assert!(!blank.indicates_existing_cluster());
}

#[test]
fn a_round_counts_this_node_and_every_blank_peer() {
    assert_eq!(formation_round(3, &[None, None]), FormationDecision::Wait);
    assert_eq!(formation_round(3, &[answer(false, None), None]), FormationDecision::Form);
    assert_eq!(formation_round(5, &[answer(false, None), None, None, None]), FormationDecision::Wait);
    assert_eq!(formation_round(1, &[]), FormationDecision::Form);
}

#[test]
fn a_round_with_one_existing_cluster_joins() {
    let blank = answer(false, None);
    assert_eq!(formation_round(3, &[blank, answer(true, None)]), FormationDecision::Join);
    assert_eq!(formation_round(3, &[answer(false, Some(2)), blank]), FormationDecision::Join);
}

#[test]
fn an_answer_counts_voters_only() {
    let membership = Membership {
        configs: vec![vec![1, 2], vec![2, 3]],
        nodes: (1..=4).map(|id| (id, String::new())).collect(),
    };
    let r = ClusterStatusResponse::answer(true, Some(1), &membership, Some(9));
    assert_eq!(
        r,
        ClusterStatusResponse {
            initialized: true,
            current_leader: Some(1),
            member_count: 3,
            cluster_epoch: Some(9),
        }
    );
}

fn reporting(epoch: Option<u128>) -> Option<ClusterStatusResponse> {
    Some(ClusterStatusResponse {
        initialized: true,
        current_leader: Some(2),
        member_count: 3,
        cluster_epoch: epoch,
    })
}

#[test]
fn a_foreign_majority_resets_after_three_rounds_in_a_row() {
    let foreign = [reporting(Some(2)), reporting(Some(2))];
    let first = guard_round(0, 3, Some(1), false, &foreign);
    assert_eq!(first, GuardStep { strikes: 1, foreign: 2, reset: false });
    let second = guard_round(first.strikes, 3, Some(1), false, &foreign);
    assert_eq!(second, GuardStep { strikes: 2, foreign: 2, reset: false });
    let third = guard_round(second.strikes, 3, Some(1), false, &foreign);
    assert_eq!(third, GuardStep { strikes: 3, foreign: 2, reset: true });
    // Anything else starts over: a leader, a minority, no incarnation of its own, its own kind.
    assert_eq!(guard_round(2, 3, Some(1), true, &foreign).strikes, 0);
    assert_eq!(guard_round(2, 3, Some(1), false, &[reporting(Some(2)), None]).strikes, 0);
    assert_eq!(guard_round(2, 3, None, false, &foreign).strikes, 0);
    assert_eq!(guard_round(2, 3, Some(2), false, &foreign).strikes, 0);
    assert!(guard_round(u32::MAX, 3, Some(1), false, &foreign).reset);
}

#[test]
fn only_a_leaderless_node_with_an_incarnation_probes() {
    assert!(guard_must_probe(Some(1), false));
    assert!(!guard_must_probe(Some(1), true));
    assert!(!guard_must_probe(None, false));
}

#[test]
fn only_the_leader_of_a_blank_cluster_commits_an_incarnation() {
    assert!(needs_epoch(Some(1), 1, None));
    assert!(!needs_epoch(Some(2), 1, None));
    assert!(!needs_epoch(None, 1, None));
    assert!(!needs_epoch(Some(1), 1, Some(9)));
}

#[test]
fn waiting_is_logged_now_and_then() {
    assert_eq!(waited_round(0), (1, true));
    assert_eq!(waited_round(1), (2, false));
    assert_eq!(waited_round(19), (20, true));
    assert_eq!(waited_round(u32::MAX), (0, true));
}

fn timing(min: u64, max: u64, heartbeat: u64) -> RaftTuneConfig {
    RaftTuneConfig { election_timeout_min_ms: min, election_timeout_max_ms: max, heartbeat_interval_ms: heartbeat }
}

#[test]
fn raft_timing_is_checked() {
    assert!(check_timing(&RaftTuneConfig::default()).is_ok());
    assert!(check_timing(&timing(2, 3, 1)).is_ok());
    let err = check_timing(&timing(800, 800, 250)).unwrap_err();
    assert!(matches!(err, TimingError::ElectionTimeout { min: 800, max: 800 }));
    let err = check_timing(&timing(250, 800, 250)).unwrap_err();
    assert!(matches!(err, TimingError::Heartbeat { election_timeout_min: 250, heartbeat_interval: 250 }));
}

#[test]
fn raft_timing_errors_read_like_those_of_the_consensus_layer() {
    for tune in [timing(800, 400, 250), timing(100, 800, 250)] {
        let config = openraft::Config {
            election_timeout_min: tune.election_timeout_min_ms,
            election_timeout_max: tune.election_timeout_max_ms,
            heartbeat_interval: tune.heartbeat_interval_ms,
            ..Default::default()
        };
        let expected = format!("openraft config validate: {}", config.validate().unwrap_err());
        assert_eq!(check_timing(&tune).unwrap_err().message(), expected);
    }
    let other = TimingError::Other { text: "x".to_string() };
    assert_eq!(other.message(), "openraft config validate: x");
}
