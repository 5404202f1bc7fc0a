use keepafloatd::raft::network::{
    check_send, connect_ended, connect_failed, dispatch_incoming, effective_ttl, epochs_compatible,
    link_step, secrets_match, ConnectEnd, DispatchError, Incoming, LinkStep, RpcFault, RpcOutcome,
    SendError, RPC_MIN_TIMEOUT_NANOS,
};
use keepafloatd::raft::wire::{
    cluster_id_from, read_framed_bounded, read_handshake, write_handshake, FrameKind, FrameStep,
    HandshakeError, HandshakeStep, Oversize,
};

#[test]
fn secrets_match_no_local_accepts_anything() {
    assert!(secrets_match(None, None));
    assert!(secrets_match(None, Some("anything")));
}

#[test]
fn secrets_match_requires_exact_match_when_set() {
    assert!(secrets_match(Some("alpha"), Some("alpha")));
    assert!(!secrets_match(Some("alpha"), Some("beta")));
    assert!(!secrets_match(Some("alpha"), None));
}

#[test]
fn epochs_compatible_fences_only_two_concrete_different_incarnations() {
    // Different concrete incarnations are fenced.
    assert!(!epochs_compatible(Some(1), Some(2)));
    // Same incarnation is allowed.
    assert!(epochs_compatible(Some(1), Some(1)));
    // A blank side (either) is always allowed, so diskless reboots still rejoin.
    assert!(epochs_compatible(None, Some(2)));
    assert!(epochs_compatible(Some(1), None));
    assert!(epochs_compatible(None, None));
}

#[test]
fn handshake_roundtrips_id_secret_and_epoch() {
    for (secret, epoch) in [
        (None, None),
        (Some("s3cr3t"), None),
        (None, Some(0x0102_0304_0506_0708_090a_0b0c_0d0e_0f10_u128)),
        (Some("s3cr3t"), Some(u128::MAX)),
    ] {
        let buf = write_handshake(42, secret, epoch);
        match read_handshake(&buf) {
            HandshakeStep::Done(h) => {
                assert_eq!(h.node_id, 42);
                assert_eq!(h.secret.as_deref(), secret);
                assert_eq!(h.epoch, epoch);
            }
            step => panic!("{step:?}"),
        }
    }
}

fn framed(payload: &[u8]) -> Vec<u8> {
    let mut buf = (payload.len() as u32).to_be_bytes().to_vec();
    buf.extend_from_slice(payload);
    buf
}

#[test]
fn read_framed_bounded_roundtrips_exact_payload() {
    let frame = framed(b"hello frame");
    match read_framed_bounded(&frame, 1024) {
        FrameStep::Done(got) => assert_eq!(got, b"hello frame"),
        step => panic!("{step:?}"),
    }
}

#[test]
fn read_framed_bounded_rejects_oversize_length_before_allocating() {
    // Only the 4-byte length prefix is present; the claimed size dwarfs the cap, so the
    // read must fail on the prefix alone without attempting to allocate/read the body.
    let header = 1_000_000_u32.to_be_bytes();
    match read_framed_bounded(&header, 64) {
        FrameStep::Refused(e) => assert_eq!(e, Oversize { len: 1_000_000, max_frame_bytes: 64 }),
        step => panic!("{step:?}"),
    }
}

#[test]
fn read_framed_bounded_errors_on_truncated_body() {
    let mut buf = 5_u32.to_be_bytes().to_vec();
    buf.extend_from_slice(b"ab"); // promises 5 bytes, delivers 2
    // Three bytes are still missing, and a reader that finds none has come to an unexpected end.
    assert!(matches!(read_framed_bounded(&buf, 1024), FrameStep::Need(3)));
}

#[test]
fn a_frame_read_piece_by_piece_never_asks_for_too_much() {
    let frame = framed(b"hello frame");
    let mut buf: Vec<u8> = Vec::new();
    loop {
        match read_framed_bounded(&buf, 1024) {
            FrameStep::Need(n) => {
                assert!(n > 0 && buf.len() + n <= frame.len());
                // One byte at a time is as good as all of them.
                buf.push(frame[buf.len()]);
            }
            FrameStep::Done(got) => {
                assert_eq!(got, b"hello frame");
                break;
            }
            step => panic!("{step:?}"),
        }
    }
    assert_eq!(buf.len(), frame.len());
}

#[test]
fn a_handshake_has_a_fixed_layout() {
    assert_eq!(
        write_handshake(0x0102, Some("ab"), Some(3)),
        [0, 0, 0, 0, 0, 0, 1, 2, 0, 0, 0, 2, b'a', b'b', 1, 0, 0, 0, 0, 0, 0, 0, 0, 0, 0, 0, 0, 0, 0, 0, 3]
    );
    assert_eq!(write_handshake(7, None, None), [0, 0, 0, 0, 0, 0, 0, 7, 0, 0, 0, 0, 0]);
}

#[test]
fn a_handshake_read_piece_by_piece_never_asks_for_too_much() {
    let sent = write_handshake(42, Some("s3cr3t"), Some(9));
    let mut buf: Vec<u8> = Vec::new();
    loop {
        match read_handshake(&buf) {
            HandshakeStep::Need(n) => {
                assert!(n > 0 && buf.len() + n <= sent.len());
                let next = sent[buf.len()..buf.len() + n].to_vec();
                buf.extend(next);
            }
            HandshakeStep::Done(h) => {
                assert_eq!((h.node_id, h.epoch), (42, Some(9)));
                break;
            }
            step => panic!("{step:?}"),
        }
    }
    assert_eq!(buf, sent);
}

#[test]
fn bad_handshakes_are_refused() {
    let refused = |buf: &[u8]| match read_handshake(buf) {
        HandshakeStep::Refused(e) => e,
        step => panic!("{step:?}"),
    };
    let mut long = 7_u64.to_be_bytes().to_vec();
    long.extend(257_u32.to_be_bytes());
    let err = refused(&long);
    assert!(matches!(err, HandshakeError::SecretTooLong { len: 257 }));
    assert_eq!(err.message(), "handshake secret length 257 too large");

    let mut flag = 7_u64.to_be_bytes().to_vec();
    flag.extend(0_u32.to_be_bytes());
    flag.push(2);
    let err = refused(&flag);
    assert!(matches!(err, HandshakeError::BadFlag { flag: 2 }));
    assert_eq!(err.message(), "handshake incarnation flag 2 invalid");

    let mut text = 7_u64.to_be_bytes().to_vec();
    text.extend(2_u32.to_be_bytes());
    text.extend([b'a', 0xff]);
    let err = refused(&text);
    assert!(matches!(err, HandshakeError::SecretNotText { .. }));
    let expected = String::from_utf8(vec![b'a', 0xff]).unwrap_err().to_string();
    assert_eq!(err.message(), format!("utf8: {expected}"));
}

#[test]
fn an_empty_secret_is_read_as_none() {
    match read_handshake(&write_handshake(1, Some(""), None)) {
        HandshakeStep::Done(h) => assert_eq!(h.secret, None),
        step => panic!("{step:?}"),
    }
}

#[test]
fn an_incarnation_is_sixteen_bytes() {
    let id = 0x0102_0304_0506_0708_090a_0b0c_0d0e_0f10_u128;
    assert_eq!(cluster_id_from(&id.to_be_bytes()), id);
    assert_eq!(cluster_id_from(&[0xff; 16]), u128::MAX);
}

#[test]
fn frames_of_another_lineage_are_fenced_but_probes_are_answered() {
    assert_eq!(dispatch_incoming(Incoming::StatusProbe, Some(1), Some(2)), Ok(Incoming::StatusProbe));
    for frame in [Incoming::AppendEntries, Incoming::InstallSnapshot, Incoming::Vote, Incoming::Unknown] {
        for (local, peer) in [(1, 2), (2, 1)] {
            assert_eq!(
                dispatch_incoming(frame, Some(local), Some(peer)),
                Err(DispatchError::Fenced { local: Some(local), peer: Some(peer) })
            );
        }
    }
    assert_eq!(dispatch_incoming(Incoming::Vote, None, Some(2)), Ok(Incoming::Vote));
    assert_eq!(dispatch_incoming(Incoming::Vote, Some(2), Some(2)), Ok(Incoming::Vote));
    assert_eq!(dispatch_incoming(Incoming::Unknown, None, None), Err(DispatchError::Unrecognized));
}

#[test]
fn a_fenced_frame_is_explained() {
    let fenced = DispatchError::Fenced { local: Some(1), peer: None };
    assert_eq!(fenced.message(), "cluster_epoch mismatch (local Some(1), peer None); dropping raft rpc");
    assert_eq!(DispatchError::Unrecognized.message(), "unrecognized raft rpc frame");
}

#[test]
fn an_rpc_is_sent_only_within_the_cap_to_a_connected_peer() {
    assert_eq!(check_send(64, 64, 2, true, true), Ok(()));
    assert_eq!(
        check_send(65, 64, 2, false, false),
        Err(SendError::TooLarge(Oversize { len: 65, max_frame_bytes: 64 }))
    );
    assert_eq!(check_send(1, 64, 2, false, false), Err(SendError::UnknownPeer { target: 2 }));
    assert_eq!(check_send(1, 64, 2, true, false), Err(SendError::NotConnected));
}

#[test]
fn an_rpc_gets_at_least_the_floor() {
    assert_eq!(effective_ttl(0), RPC_MIN_TIMEOUT_NANOS);
    assert_eq!(effective_ttl(RPC_MIN_TIMEOUT_NANOS + 1), RPC_MIN_TIMEOUT_NANOS + 1);
}

#[test]
fn a_stream_is_given_up_after_anything_but_an_answer() {
    assert!(!RpcOutcome::Answered.drops_stream());
    assert!(RpcOutcome::IoFailed.drops_stream());
    assert!(RpcOutcome::TimedOut.drops_stream());
}

#[test]
fn failed_connects_are_logged_now_and_then() {
    assert_eq!(connect_failed(0), (1, true));
    assert_eq!(connect_failed(1), (2, false));
    assert_eq!(connect_failed(39), (40, true));
    assert_eq!(connect_failed(u32::MAX), (0, true));
}

#[test]
fn an_rpc_fails_by_the_way_it_ended() {
    assert_eq!(RpcOutcome::Answered.fault(true), None);
    assert_eq!(RpcOutcome::Answered.fault(false), Some(RpcFault::Network));
    for decoded in [false, true] {
        assert_eq!(RpcOutcome::IoFailed.fault(decoded), Some(RpcFault::Network));
        assert_eq!(RpcOutcome::TimedOut.fault(decoded), Some(RpcFault::Timeout));
    }
}

#[test]
fn an_rpc_that_is_not_sent_says_why() {
    let over = SendError::TooLarge(Oversize { len: 9, max_frame_bytes: 4 });
    assert_eq!(over.fault(), RpcFault::Network);
    assert_eq!(
        over.message(FrameKind::Vote),
        "serialized Vote rpc is 9 bytes, exceeds max_frame_bytes 4"
    );
    let unknown = SendError::UnknownPeer { target: 17 };
    assert_eq!(unknown.fault(), RpcFault::Unreachable);
    assert_eq!(unknown.message(FrameKind::Vote), "unknown peer 17");
    assert_eq!(SendError::NotConnected.fault(), RpcFault::Unreachable);
    assert_eq!(
        SendError::NotConnected.message(FrameKind::Vote),
        "outbound stream not yet established"
    );
}

#[test]
fn a_stream_that_is_up_is_looked_at_again_later() {
    assert_eq!(link_step(true, 7), (0, LinkStep::Wait { ms: 500 }));
    assert_eq!(link_step(false, 7), (7, LinkStep::Connect));
}

#[test]
fn a_connect_is_counted_by_how_it_ended() {
    assert_eq!(
        connect_ended(4, true),
        ConnectEnd { attempts: 0, attempt: 5, log: true, wait_ms: 0 }
    );
    assert_eq!(
        connect_ended(u32::MAX, true),
        ConnectEnd { attempts: 0, attempt: u32::MAX, log: true, wait_ms: 0 }
    );
    assert_eq!(
        connect_ended(0, false),
        ConnectEnd { attempts: 1, attempt: 1, log: true, wait_ms: 250 }
    );
    assert_eq!(
        connect_ended(4, false),
        ConnectEnd { attempts: 5, attempt: 5, log: false, wait_ms: 250 }
    );
    assert_eq!(
        connect_ended(u32::MAX, false),
        ConnectEnd { attempts: 0, attempt: 0, log: true, wait_ms: 250 }
    );
}
