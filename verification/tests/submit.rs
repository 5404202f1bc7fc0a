use keepafloatd::addr::IpAddr;
use keepafloatd::config::{Config, HealthConfig, PeerConfig, RaftTuneConfig, VipAddr, VipConfig};
use keepafloatd::raft::network::{admit_peer, members, other_links, AdmissionError};
use keepafloatd::raft::types::KafRequest;
use keepafloatd::raft::wire::{
    encode_frame, read_framed_bounded, read_handshake, write_handshake, FrameKind, FrameStep,
    HandshakeStep,
};
use keepafloatd::submit::{
    after_local_write, check_request, envelope_for, forward_target, forwarded, rejection_response,
    validate_and_extract, write_response, LocalWrite, SubmitEnvelope, SubmitError, SubmitResponse,
    SubmitStep, WriteOutcome,
};

const LOOPBACK: IpAddr = IpAddr::V4(0x7f00_0001);

fn peer(id: u64, raft_address: &str, client_submit_address: &str) -> PeerConfig {
    PeerConfig {
        id,
        raft_address: raft_address.to_string(),
        client_submit_address: client_submit_address.to_string(),
    }
}

fn cfg_with(secret: Option<&str>) -> Config {
    Config {
        node_id: 1,
        raft_listen: "127.0.0.1:1".to_string(),
        client_submit_listen: "127.0.0.1:2".to_string(),
        peers: vec![peer(1, "127.0.0.1:1", "127.0.0.1:2"), peer(2, "127.0.0.1:3", "127.0.0.1:4")],
        vips: vec![VipConfig {
            address: VipAddr::from_str("10.0.0.1").unwrap(),
            interface: "lo".to_string(),
            vlan: None,
        }],
        health: HealthConfig {
            command: vec!["/bin/true".to_string()],
            interval_ms: 1000,
            timeout_ms: 500,
            stale_secs: None,
        },
        raft: RaftTuneConfig::default(),
        cluster_secret: secret.map(str::to_owned),
        max_frame_bytes: 4 * 1024 * 1024,
        submit_timeout_ms: 2_000,
        dry_run: false,
        notify: None,
        failback: true,
        failback_delay_secs: 10,
    }
}

fn env(secret: Option<&str>, node_id: u64) -> SubmitEnvelope {
    SubmitEnvelope {
        secret: secret.map(str::to_owned),
        request: KafRequest::HealthUpdate {
            node_id,
            healthy: true,
        },
    }
}

#[test]
fn no_local_secret_accepts_anything() {
    let c = cfg_with(None);
    assert!(validate_and_extract(&c, LOOPBACK, env(None, 1)).is_ok());
    assert!(validate_and_extract(&c, LOOPBACK, env(Some("x"), 1)).is_ok());
}

#[test]
fn local_secret_requires_match() {
    let c = cfg_with(Some("alpha"));
    assert!(validate_and_extract(&c, LOOPBACK, env(Some("alpha"), 1)).is_ok());
    assert!(validate_and_extract(&c, LOOPBACK, env(Some("beta"), 1)).is_err());
    assert!(validate_and_extract(&c, LOOPBACK, env(None, 1)).is_err());
}

#[test]
fn unknown_node_id_rejected() {
    let c = cfg_with(None);
    assert!(validate_and_extract(&c, LOOPBACK, env(None, 99)).is_err());
}

#[test]
fn submit_from_wrong_source_ip_is_rejected() {
    // A node may submit only for itself: even with the right secret and a known node_id, a
    // source IP that does not match the claimed node's advertised address is rejected, so a
    // compromised peer cannot forge health for a different node.
    let c = cfg_with(Some("alpha"));
    let wrong = IpAddr::parse("10.0.0.99").unwrap();
    assert!(validate_and_extract(&c, wrong, env(Some("alpha"), 1)).is_err());
    // From node 1's own (loopback) address the same request is accepted.
    assert!(validate_and_extract(&c, LOOPBACK, env(Some("alpha"), 1)).is_ok());
}

#[test]
fn release_request_roundtrips_through_validation() {
    let c = cfg_with(Some("alpha"));
    let env = SubmitEnvelope {
        secret: Some("alpha".into()),
        request: KafRequest::VipReleased {
            node_id: 2,
            vip: IpAddr::parse("10.0.0.10").unwrap(),
            generation: 7,
        },
    };
    assert!(validate_and_extract(&c, LOOPBACK, env).is_ok());
}

#[test]
fn non_ascii_secret_requires_exact_match() {
    let c = cfg_with(Some("pä$$-✓-wörd"));
    assert!(validate_and_extract(&c, LOOPBACK, env(Some("pä$$-✓-wörd"), 1)).is_ok());
    assert!(validate_and_extract(&c, LOOPBACK, env(Some("pa$$-x-word"), 1)).is_err());
    assert!(validate_and_extract(&c, LOOPBACK, env(None, 1)).is_err());
}

#[test]
fn cluster_scoped_request_rejected_over_submit_even_with_valid_secret() {
    // A cluster incarnation is committed only by the leader's epoch minter, never forwarded by
    // a client. Even with the correct secret it must be refused on the submit channel so a peer
    // cannot inject a foreign incarnation.
    let c = cfg_with(Some("alpha"));
    let env = SubmitEnvelope {
        secret: Some("alpha".into()),
        request: KafRequest::ClusterFormed { cluster_id: 9 },
    };
    let err = validate_and_extract(&c, LOOPBACK, env).unwrap_err();
    assert!(err.contains("cluster-scoped"), "unexpected error: {err}");
}

#[test]
fn read_framed_bounded_rejects_oversize_frame() {
    // Claim a frame far larger than the cap; the reader must refuse on the prefix alone.
    match read_framed_bounded(&1_000_000_u32.to_be_bytes(), 64) {
        FrameStep::Refused(e) => assert!(e.message(FrameKind::Submit).contains("max_frame_bytes")),
        step => panic!("{step:?}"),
    }
}

#[test]
fn read_framed_bounded_roundtrips_a_valid_frame() {
    let body = b"payload";
    let mut sent = (body.len() as u32).to_be_bytes().to_vec();
    sent.extend_from_slice(body);
    match read_framed_bounded(&sent, 1024) {
        FrameStep::Done(got) => assert_eq!(got, b"payload"),
        step => panic!("{step:?}"),
    }
}

#[test]
fn every_rejection_says_why() {
    let reject = |c: &Config, from: IpAddr, e: SubmitEnvelope| validate_and_extract(c, from, e).unwrap_err();
    let mut c = cfg_with(Some("alpha"));
    assert_eq!(reject(&c, LOOPBACK, env(Some("beta"), 1)), "cluster_secret mismatch");
    assert_eq!(reject(&c, LOOPBACK, env(Some("alpha"), 99)), "node_id 99 not in peers");
    let wrong = IpAddr::parse("10.0.0.99").unwrap();
    assert_eq!(
        reject(&c, wrong, env(Some("alpha"), 1)),
        "submit for node_id 1 came from 10.0.0.99, but its advertised address is 127.0.0.1"
    );
    c.peers[1].client_submit_address = "nowhere".to_string();
    assert_eq!(
        reject(&c, LOOPBACK, env(Some("alpha"), 2)),
        "peer 2 has an unparseable client_submit_address: invalid socket address syntax"
    );
    let formed = SubmitEnvelope { secret: Some("alpha".into()), request: KafRequest::ClusterFormed { cluster_id: 9 } };
    assert_eq!(reject(&c, LOOPBACK, formed), "cluster-scoped request not accepted over client submit");
}

#[test]
fn an_accepted_request_is_handed_on_unchanged() {
    let c = cfg_with(Some("alpha"));
    let request = KafRequest::VipReleased { node_id: 2, vip: IpAddr::parse("10.0.0.10").unwrap(), generation: 7 };
    let e = envelope_for(&c, request);
    assert_eq!(e.secret.as_deref(), Some("alpha"));
    assert_eq!(validate_and_extract(&c, LOOPBACK, e), Ok(request));
}

#[test]
fn a_request_must_speak_for_a_member() {
    let c = cfg_with(None);
    assert_eq!(check_request(&c, &KafRequest::HealthUpdate { node_id: 2, healthy: false }).unwrap(), 2);
    let err = check_request(&c, &KafRequest::HealthUpdate { node_id: 3, healthy: false }).unwrap_err();
    assert_eq!(err.message(), "request node_id 3 not in peers");
    let err = check_request(&c, &KafRequest::ClusterFormed { cluster_id: 1 }).unwrap_err();
    assert_eq!(err.message(), "cluster-scoped request cannot be submitted via submit_request");
}

#[test]
fn requests_are_forwarded_to_the_leader() {
    let c = cfg_with(None);
    assert_eq!(forward_target(&c, Some(2), Some(1)).unwrap(), (2, "127.0.0.1:4".to_string()));
    assert_eq!(forward_target(&c, None, Some(1)).unwrap(), (1, "127.0.0.1:2".to_string()));
    assert_eq!(forward_target(&c, None, None).unwrap_err().message(), "forward to leader but no leader id");
    assert_eq!(forward_target(&c, Some(9), Some(1)).unwrap_err().message(), "leader not in peers");
    let late = SubmitError::ForwardTimedOut { leader: 2, address: "127.0.0.1:4".to_string() };
    assert_eq!(late.message(), "forward to leader 2 (127.0.0.1:4) timed out");
}

#[test]
fn answers_tell_how_the_write_went() {
    let done = write_response(WriteOutcome::Committed, 2_000);
    assert!(done.ok && done.message.is_empty());
    assert!(forwarded(done).is_ok());
    let failed = write_response(WriteOutcome::Failed { message: "no quorum".to_string() }, 2_000);
    assert!(!failed.ok);
    assert_eq!(forwarded(failed).unwrap_err().message(), "leader rejected: no quorum");
    let late = write_response(WriteOutcome::TimedOut, 2_000);
    assert!(!late.ok);
    assert_eq!(late.message, "local raft client_write timed out after 2000ms");
    let SubmitResponse { ok, message } = rejection_response("no".to_string());
    assert!(!ok);
    assert_eq!(message, "no");
}

#[test]
fn peers_are_admitted_by_roster_and_secret() {
    let c = cfg_with(Some("alpha"));
    assert_eq!(admit_peer(&c, 2, Some("alpha")), Ok(()));
    assert_eq!(admit_peer(&c, 9, Some("alpha")), Err(AdmissionError::UnknownPeer));
    assert_eq!(admit_peer(&c, 2, Some("beta")), Err(AdmissionError::SecretMismatch));
    assert_eq!(admit_peer(&c, 2, None), Err(AdmissionError::SecretMismatch));
    assert_eq!(admit_peer(&cfg_with(None), 2, Some("beta")), Ok(()));
    assert_eq!(other_links(&c), [(2, "127.0.0.1:3".to_string())]);
}

#[test]
fn frames_are_capped_on_both_sides() {
    let sent = encode_frame(b"abc", 3).unwrap();
    assert_eq!(sent, [0, 0, 0, 3, b'a', b'b', b'c']);
    let over = encode_frame(b"abcd", 3).unwrap_err();
    assert_eq!(over.message(FrameKind::SubmitRequest), "submit request 4 bytes exceeds max_frame_bytes 3");
    assert_eq!(over.message(FrameKind::SubmitResponse), "submit response 4 bytes exceeds max_frame_bytes 3");
    assert_eq!(over.message(FrameKind::Submit), "submit frame 4 bytes exceeds max_frame_bytes 3");
    assert_eq!(over.message(FrameKind::Raft), "frame size 4 exceeds max_frame_bytes 3; refusing to allocate");
    assert_eq!(
        over.message(FrameKind::AppendEntries),
        "serialized AppendEntries rpc is 4 bytes, exceeds max_frame_bytes 3"
    );
    assert_eq!(
        over.message(FrameKind::InstallSnapshot),
        "serialized InstallSnapshot rpc is 4 bytes, exceeds max_frame_bytes 3"
    );
    assert_eq!(over.message(FrameKind::Vote), "serialized Vote rpc is 4 bytes, exceeds max_frame_bytes 3");
}

#[test]
fn a_write_that_is_refused_goes_to_the_leader() {
    let c = cfg_with(Some("alpha"));
    let request = KafRequest::HealthUpdate { node_id: 1, healthy: true };
    let after = |written: LocalWrite, current: Option<u64>| after_local_write(&c, request, written, current);
    assert!(matches!(after(LocalWrite::Committed, None), Ok(SubmitStep::Done)));
    match after(LocalWrite::NotLeader { named: None }, Some(2)) {
        Ok(SubmitStep::Forward { leader, address, envelope }) => {
            assert_eq!((leader, address.as_str()), (2, "127.0.0.1:4"));
            assert_eq!(validate_and_extract(&c, LOOPBACK, envelope), Ok(request));
        }
        other => panic!("{other:?}"),
    }
    let late = after(LocalWrite::TimedOut, Some(2)).unwrap_err();
    assert_eq!(late.message(), "local raft client_write timed out after 2000ms");
    let failed = after(LocalWrite::Failed { message: "Fatal".to_string() }, Some(2)).unwrap_err();
    assert_eq!(failed.message(), "raft client_write: Fatal");
    assert!(matches!(after(LocalWrite::NotLeader { named: None }, None), Err(SubmitError::NoLeader)));
    assert!(matches!(after(LocalWrite::NotLeader { named: Some(9) }, None), Err(SubmitError::LeaderNotAPeer)));
}

#[test]
fn a_member_is_admitted_on_its_own_handshake() {
    let c = cfg_with(Some("p\u{e4}$$"));
    let sent = write_handshake(c.node_id, c.cluster_secret.as_deref(), Some(7));
    match read_handshake(&sent) {
        HandshakeStep::Done(h) => {
            assert_eq!(h.epoch, Some(7));
            assert_eq!(admit_peer(&c, h.node_id, h.secret.as_deref()), Ok(()));
        }
        step => panic!("{step:?}"),
    }
}

#[test]
fn a_wildcard_listen_address_is_refused() {
    let mut c = cfg_with(Some("alpha"));
    c.raft_listen = "0.0.0.0:1".to_string();
    c.peers[0].raft_address = "0.0.0.0:1".to_string();
    assert_eq!(
        c.normalize().unwrap_err().message(),
        "peers[1].raft_address must not use an unspecified IP (0.0.0.0:1)"
    );
}

#[test]
fn a_cluster_is_formed_of_all_peers() {
    let mut c = cfg_with(None);
    c.peers = vec![peer(2, "127.0.0.1:3", "127.0.0.1:4"), peer(1, "127.0.0.1:1", "127.0.0.1:2")];
    assert_eq!(members(&c), [(2, "127.0.0.1:3".to_string()), (1, "127.0.0.1:1".to_string())]);
    c.peers = vec![];
    assert!(members(&c).is_empty());
}
