use keepafloatd::addr::IpAddr;
use keepafloatd::raft::types::{
    Entry, EntryPayload, KafRequest, LogId, Membership, StoredMembership,
};

#[test]
fn node_id_is_none_for_cluster_scoped_request() {
    assert_eq!(
        KafRequest::HealthUpdate {
            node_id: 5,
            healthy: true
        }
        .node_id(),
        Some(5)
    );
    assert_eq!(KafRequest::ClusterFormed { cluster_id: 7 }.node_id(), None);
}

#[test]
fn commands_are_written_for_the_log() {
    let vip = IpAddr::parse("10.0.0.9").unwrap();
    assert_eq!(
        KafRequest::HealthUpdate { node_id: 5, healthy: true }.to_string(),
        "HealthUpdate(node=5, healthy=true)"
    );
    assert_eq!(
        KafRequest::VipReleased { node_id: 9, vip, generation: 17 }.to_string(),
        "VipReleased(node=9, vip=10.0.0.9, gen=17)"
    );
    assert_eq!(
        KafRequest::ClusterFormed { cluster_id: u128::MAX }.to_string(),
        "ClusterFormed(id=340282366920938463463374607431768211455)"
    );
    assert_eq!(KafRequest::VipReleased { node_id: 9, vip, generation: 17 }.node_id(), Some(9));
}

#[test]
fn voters_are_those_of_every_voter_set() {
    let membership = Membership {
        configs: vec![vec![1, 2], vec![2, 3]],
        nodes: (1..=4).map(|id| (id, format!("127.0.0.1:{id}"))).collect(),
    };
    assert_eq!(membership.voter_ids(), [1, 2, 2, 3]);
    assert!(Membership::empty().voter_ids().is_empty());
    let stored = StoredMembership { log_id: Some(LogId { term: 1, node_id: 2, index: 3 }), membership };
    let copy = stored.clone();
    assert_eq!(copy.log_id, stored.log_id);
    assert_eq!(copy.membership.configs, stored.membership.configs);
    assert_eq!(copy.membership.nodes, stored.membership.nodes);
}

#[test]
fn a_copied_entry_says_the_same() {
    let log_id = LogId { term: 1, node_id: 2, index: 3 };
    let entry = Entry { log_id, payload: EntryPayload::Normal(KafRequest::ClusterFormed { cluster_id: 7 }) };
    let copy = entry.clone();
    assert_eq!(copy.log_id, log_id);
    assert!(matches!(copy.payload, EntryPayload::Normal(KafRequest::ClusterFormed { cluster_id: 7 })));
    let blank = Entry { log_id, payload: EntryPayload::Blank };
    assert!(matches!(blank.clone().payload, EntryPayload::Blank));
}
