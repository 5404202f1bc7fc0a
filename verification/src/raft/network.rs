//! Decisions of the transport between Raft peers: whom to talk to, whom to let in, whom to fence,
//! and when to give a connection up.

use vstd::prelude::*;

use crate::config::{Config, PeerConfig, PeerView};
use crate::normalize::{general_problem, has_peer, is_peer_at, peers_of, secret_of};
use crate::raft::probe::foreign;
use crate::raft::wire::{
    handshake_bytes, handshake_state, law_handshakes_are_read_back, oversize_text, FrameKind, HandshakeState,
    HandshakeView, Oversize,
};
use crate::text::{decimal, push_decimal, push_text, same_text};

verus! {

/// RPC budget if the consensus layer passes a zero or absurdly small one (nanoseconds).
pub const RPC_MIN_TIMEOUT_NANOS: u128 = 50_000_000;

/// Period of the reconnect loop while the outbound stream is up (milliseconds).
pub const RECONNECT_PROBE_INTERVAL_MS: u64 = 500;

/// Period of the reconnect loop while a connect is being retried (milliseconds).
pub const RECONNECT_RETRY_INTERVAL_MS: u64 = 250;

/// How often a failed connect is logged after the first time (attempts).
pub const CONNECT_LOG_EVERY: u32 = 20;

/// Every secret is accepted if none is configured, else only the configured one.
pub open spec fn secret_ok(local: Option<Seq<char>>, peer: Option<Seq<char>>) -> bool {
    local is None || peer == local
}

/// True when no secret is configured locally or the configured secret matches the one the peer
/// advertised.
pub fn secrets_match(local: Option<&str>, peer: Option<&str>) -> (b: bool)
    ensures
        b == secret_ok(
            match local { Some(s) => Some(s@), None => None },
            match peer { Some(s) => Some(s@), None => None },
        ),
{
    match (local, peer) {
        (None, _) => true,
        (Some(l), Some(p)) => same_text(l, p),
        (Some(_), None) => false,
    }
}

/// Whether a peer carrying incarnation `peer` may drive Raft RPCs against a local node holding
/// incarnation `local`. Two concrete, different incarnations are incompatible; a blank side is
/// compatible with any.
pub fn epochs_compatible(local: Option<u128>, peer: Option<u128>) -> (b: bool)
    ensures
        b == !foreign(local, peer),
{
    match (local, peer) {
        (Some(l), Some(p)) => l == p,
        _ => true,
    }
}

/// Why a peer is not let in.
#[derive(Debug, Clone, Copy, PartialEq, Eq, Structural)]
pub enum AdmissionError {
    /// The peer's id is not in the roster.
    UnknownPeer,
    /// The peer does not know the secret.
    SecretMismatch,
}

/// A peer is let in if it is in the roster and knows the secret.
pub open spec fn admission(cfg: Config, peer_id: u64, peer_secret: Option<Seq<char>>) -> Result<(), AdmissionError> {
    if !has_peer(peers_of(cfg), peer_id) {
        Err(AdmissionError::UnknownPeer)
    } else if !secret_ok(match cfg.cluster_secret { Some(s) => Some(s@), None => None }, peer_secret) {
        Err(AdmissionError::SecretMismatch)
    } else {
        Ok(())
    }
}

/// Decide on a peer after its handshake.
pub fn admit_peer(cfg: &Config, peer_id: u64, peer_secret: Option<&str>) -> (r: Result<(), AdmissionError>)
    ensures
        r == admission(*cfg, peer_id, match peer_secret { Some(s) => Some(s@), None => None }),
{
    if cfg.get_peer(peer_id).is_none() {
        return Err(AdmissionError::UnknownPeer);
    }
    let local = match &cfg.cluster_secret {
        Some(s) => Some(s.as_str()),
        None => None,
    };
    if secrets_match(local, peer_secret) {
        Ok(())
    } else {
        Err(AdmissionError::SecretMismatch)
    }
}

/// Ids and Raft addresses of all peers but this node.
pub fn other_links(cfg: &Config) -> (links: Vec<(u64, String)>)
    ensures
        links@.map_values(|l: (u64, String)| (l.0, l.1@)) == peers_of(*cfg).filter(|p: PeerView| p.id != cfg.node_id).map_values(
            |p: PeerView| (p.id, p.raft_address),
        ),
{
    let others = cfg.other_peers();
    let ghost wanted = peers_of(*cfg).filter(|p: PeerView| p.id != cfg.node_id);
    let mut links: Vec<(u64, String)> = Vec::new();
    let mut i: usize = 0;
    while i < others.len()
        invariant
            i <= others@.len(),
            wanted == others@.map_values(|p: &PeerConfig| p@),
            links@.len() == i,
            forall|j: int| 0 <= j < i ==> (#[trigger] links@[j]).0 == wanted[j].id && links@[j].1@ == wanted[j].raft_address,
        decreases others@.len() - i,
    {
        links.push((others[i].id, others[i].raft_address.clone()));
        i += 1;
    }
    assert(links@.map_values(|l: (u64, String)| (l.0, l.1@)) =~= wanted.map_values(|p: PeerView| (p.id, p.raft_address)));
    links
}

/// Ids and Raft addresses of all peers, this node among them: the members of a cluster formed from
/// this configuration.
pub fn members(cfg: &Config) -> (m: Vec<(u64, String)>)
    ensures
        m@.map_values(|l: (u64, String)| (l.0, l.1@)) == peers_of(*cfg).map_values(|p: PeerView| (p.id, p.raft_address)),
{
    let ghost wanted = peers_of(*cfg);
    let mut m: Vec<(u64, String)> = Vec::new();
    let mut i: usize = 0;
    while i < cfg.peers.len()
        invariant
            i <= cfg.peers@.len(),
            wanted == peers_of(*cfg),
            m@.len() == i,
            forall|j: int| 0 <= j < i ==> (#[trigger] m@[j]).0 == wanted[j].id && m@[j].1@ == wanted[j].raft_address,
        decreases cfg.peers@.len() - i,
    {
        m.push((cfg.peers[i].id, cfg.peers[i].raft_address.clone()));
        i += 1;
    }
    assert(m@.map_values(|l: (u64, String)| (l.0, l.1@)) =~= wanted.map_values(|p: PeerView| (p.id, p.raft_address)));
    m
}

/// What an incoming frame turned out to be.
#[derive(Debug, Clone, Copy, PartialEq, Eq, Structural)]
pub enum Incoming {
    StatusProbe,
    AppendEntries,
    InstallSnapshot,
    Vote,
    Unknown,
}

/// Why an incoming frame is not served.
#[derive(Debug, Clone, Copy, PartialEq, Eq, Structural)]
pub enum DispatchError {
    /// The peer belongs to another cluster lineage.
    Fenced { local: Option<u128>, peer: Option<u128> },
    /// The frame is nothing known.
    Unrecognized,
}

/// What becomes of an incoming frame.
pub open spec fn dispatch_result(frame: Incoming, local: Option<u128>, peer: Option<u128>) -> Result<Incoming, DispatchError> {
    if frame is StatusProbe {
        Ok(frame)
    } else if foreign(local, peer) {
        Err(DispatchError::Fenced { local, peer })
    } else if frame is Unknown {
        Err(DispatchError::Unrecognized)
    } else {
        Ok(frame)
    }
}

/// Decide on an incoming frame.
///
/// A status probe is answered regardless of incarnation, so that a stale survivor can still find
/// out that a majority moved on. Everything else from another lineage is fenced before it reaches
/// the consensus layer.
pub fn dispatch_incoming(frame: Incoming, local_epoch: Option<u128>, peer_epoch: Option<u128>) -> (r: Result<Incoming, DispatchError>)
    ensures
        r == dispatch_result(frame, local_epoch, peer_epoch),
{
    match frame {
        Incoming::StatusProbe => Ok(frame),
        _ => {
            if !epochs_compatible(local_epoch, peer_epoch) {
                return Err(DispatchError::Fenced { local: local_epoch, peer: peer_epoch });
            }
            match frame {
                Incoming::Unknown => Err(DispatchError::Unrecognized),
                _ => Ok(frame),
            }
        },
    }
}

/// How an incarnation is written in a message.
pub open spec fn epoch_text(epoch: Option<u128>) -> Seq<char> {
    match epoch {
        Some(e) => "Some("@ + decimal(e as nat) + ")"@,
        None => "None"@,
    }
}

/// The message for a frame that is not served.
pub open spec fn dispatch_text(e: DispatchError) -> Seq<char> {
    match e {
        DispatchError::Fenced { local, peer } => "cluster_epoch mismatch (local "@ + epoch_text(local) + ", peer "@
            + epoch_text(peer) + "); dropping raft rpc"@,
        DispatchError::Unrecognized => "unrecognized raft rpc frame"@,
    }
}

fn push_epoch(s: &mut String, epoch: Option<u128>)
    ensures
        final(s)@ == old(s)@ + epoch_text(epoch),
{
    match epoch {
        Some(e) => {
            push_text(s, "Some(");
            push_decimal(s, e);
            push_text(s, ")");
        },
        None => {
            push_text(s, "None");
        },
    }
    assert(s@ =~= old(s)@ + epoch_text(epoch));
}

impl DispatchError {
    pub fn message(&self) -> (text: String)
        ensures
            text@ == dispatch_text(*self),
    {
        let mut s = String::new();
        match self {
            DispatchError::Fenced { local, peer } => {
                push_text(&mut s, "cluster_epoch mismatch (local ");
                push_epoch(&mut s, *local);
                push_text(&mut s, ", peer ");
                push_epoch(&mut s, *peer);
                push_text(&mut s, "); dropping raft rpc");
            },
            DispatchError::Unrecognized => push_text(&mut s, "unrecognized raft rpc frame"),
        }
        assert(s@ =~= dispatch_text(*self));
        s
    }
}

/// Why an RPC is not even sent.
#[derive(Debug, Clone, Copy, PartialEq, Eq, Structural)]
pub enum SendError {
    /// The request is over the frame cap.
    TooLarge(Oversize),
    /// The target is no peer of this node.
    UnknownPeer { target: u64 },
    /// There is no stream to the target.
    NotConnected,
}

/// Decide whether an RPC can be sent, in the order in which it fails.
pub fn check_send(request_len: usize, max_frame_bytes: u32, target: u64, known: bool, connected: bool) -> (r: Result<(), SendError>)
    ensures
        r == if request_len > max_frame_bytes {
            Err::<(), SendError>(SendError::TooLarge(Oversize { len: request_len as u64, max_frame_bytes }))
        } else if !known {
            Err(SendError::UnknownPeer { target })
        } else if !connected {
            Err(SendError::NotConnected)
        } else {
            Ok(())
        },
{
    if request_len as u64 > max_frame_bytes as u64 {
        Err(SendError::TooLarge(Oversize { len: request_len as u64, max_frame_bytes }))
    } else if !known {
        Err(SendError::UnknownPeer { target })
    } else if !connected {
        Err(SendError::NotConnected)
    } else {
        Ok(())
    }
}

/// The time an RPC may take (nanoseconds), never less than the floor.
pub fn effective_ttl(hard_ttl_nanos: u128) -> (nanos: u128)
    ensures
        nanos == if hard_ttl_nanos < RPC_MIN_TIMEOUT_NANOS { RPC_MIN_TIMEOUT_NANOS } else { hard_ttl_nanos },
{
    if hard_ttl_nanos < RPC_MIN_TIMEOUT_NANOS {
        RPC_MIN_TIMEOUT_NANOS
    } else {
        hard_ttl_nanos
    }
}

/// What kind of failure the consensus layer is told.
#[derive(Debug, Clone, Copy, PartialEq, Eq, Structural)]
pub enum RpcFault {
    /// The RPC failed on its way or its answer made no sense.
    Network,
    /// No answer came in time.
    Timeout,
    /// There is nobody to send to for now.
    Unreachable,
}

/// The message for an RPC that is not sent.
pub open spec fn send_error_text(e: SendError, kind: FrameKind) -> Seq<char> {
    match e {
        SendError::TooLarge(over) => oversize_text(over, kind),
        SendError::UnknownPeer { target } => "unknown peer "@ + decimal(target as nat),
        SendError::NotConnected => "outbound stream not yet established"@,
    }
}

impl SendError {
    /// What the consensus layer is told of an RPC that is not sent.
    pub fn fault(&self) -> (f: RpcFault)
        ensures
            f == if self is TooLarge { RpcFault::Network } else { RpcFault::Unreachable },
    {
        match self {
            SendError::TooLarge(_) => RpcFault::Network,
            _ => RpcFault::Unreachable,
        }
    }

    pub fn message(&self, kind: FrameKind) -> (text: String)
        ensures
            text@ == send_error_text(*self, kind),
    {
        let mut s = String::new();
        match self {
            SendError::TooLarge(over) => push_text(&mut s, over.message(kind).as_str()),
            SendError::UnknownPeer { target } => {
                push_text(&mut s, "unknown peer ");
                push_decimal(&mut s, *target as u128);
            },
            SendError::NotConnected => push_text(&mut s, "outbound stream not yet established"),
        }
        assert(s@ =~= send_error_text(*self, kind));
        s
    }
}

/// How sending an RPC and reading its answer ended.
#[derive(Debug, Clone, Copy, PartialEq, Eq, Structural)]
pub enum RpcOutcome {
    Answered,
    IoFailed,
    TimedOut,
}

impl RpcOutcome {
    /// The stream may be out of step and is given up, so that it is set up anew.
    pub fn drops_stream(&self) -> (b: bool)
        ensures
            b == !(self is Answered),
    {
        match self {
            RpcOutcome::Answered => false,
            _ => true,
        }
    }

    /// What the consensus layer is told of an RPC that was sent; `decoded` says whether the answer,
    /// if there was one, could be read.
    pub fn fault(&self, decoded: bool) -> (f: Option<RpcFault>)
        ensures
            f == match *self {
                RpcOutcome::Answered => if decoded { None } else { Some(RpcFault::Network) },
                RpcOutcome::IoFailed => Some(RpcFault::Network),
                RpcOutcome::TimedOut => Some(RpcFault::Timeout),
            },
    {
        match self {
            RpcOutcome::Answered => {
                if decoded {
                    None
                } else {
                    Some(RpcFault::Network)
                }
            },
            RpcOutcome::IoFailed => Some(RpcFault::Network),
            RpcOutcome::TimedOut => Some(RpcFault::Timeout),
        }
    }
}

/// What the reconnect loop does next.
#[derive(Debug, Clone, Copy, PartialEq, Eq, Structural)]
pub enum LinkStep {
    /// Look again after a while.
    Wait { ms: u64 },
    /// Connect now.
    Connect,
}

/// Choose the next step of the reconnect loop and the count of failed connects to go on with: while
/// the stream is up the loop waits and the count starts over, while it is down the loop connects.
pub fn link_step(connected: bool, attempts: u32) -> (r: (u32, LinkStep))
    ensures
        r == if connected {
            (0u32, LinkStep::Wait { ms: RECONNECT_PROBE_INTERVAL_MS })
        } else {
            (attempts, LinkStep::Connect)
        },
{
    if connected {
        (0, LinkStep::Wait { ms: RECONNECT_PROBE_INTERVAL_MS })
    } else {
        (attempts, LinkStep::Connect)
    }
}

/// Count a failed connect. Returns the new count and whether to log it: the first time, and then
/// every so often.
pub fn connect_failed(attempts: u32) -> (r: (u32, bool))
    ensures
        r.0 == if attempts == u32::MAX { 0 } else { (attempts + 1) as u32 },
        r.1 == (r.0 == 1 || r.0 % CONNECT_LOG_EVERY == 0),
{
    let next: u32 = if attempts == u32::MAX {
        0
    } else {
        attempts + 1
    };
    (next, next == 1 || next % CONNECT_LOG_EVERY == 0)
}

/// What follows a connect.
#[derive(Debug, Clone, Copy, PartialEq, Eq, Structural)]
pub struct ConnectEnd {
    /// Count of failed connects to go on with.
    pub attempts: u32,
    /// Number of the connect that ended, as it is logged.
    pub attempt: u32,
    /// Whether to log it.
    pub log: bool,
    /// Time to let pass before the loop goes on (milliseconds).
    pub wait_ms: u64,
}

/// Count a connect after `attempts` failed ones. A stream that came up is always logged, and the
/// count starts over at once; a failure is counted, and tried again after a while.
pub fn connect_ended(attempts: u32, connected: bool) -> (end: ConnectEnd)
    ensures
        connected ==> end == (ConnectEnd {
            attempts: 0,
            attempt: if attempts == u32::MAX { u32::MAX } else { (attempts + 1) as u32 },
            log: true,
            wait_ms: 0,
        }),
        !connected ==> {
            let failed = if attempts == u32::MAX { 0 } else { (attempts + 1) as u32 };
            end == (ConnectEnd {
                attempts: failed,
                attempt: failed,
                log: failed == 1 || failed % CONNECT_LOG_EVERY == 0,
                wait_ms: RECONNECT_RETRY_INTERVAL_MS,
            })
        },
{
    if connected {
        ConnectEnd { attempts: 0, attempt: attempts.saturating_add(1), log: true, wait_ms: 0 }
    } else {
        let (failed, log) = connect_failed(attempts);
        ConnectEnd { attempts: failed, attempt: failed, log, wait_ms: RECONNECT_RETRY_INTERVAL_MS }
    }
}

/// A member whose configuration is valid is let in by every peer with the same roster and secret:
/// the peer reads the handshake as the member meant it, and admits it.
pub proof fn law_members_are_admitted(member: Config, peer: Config, epoch: Option<u128>)
    requires
        general_problem(member) is None,
        peers_of(member) == peers_of(peer),
        secret_of(member) == secret_of(peer),
    ensures
        ({
            let said = HandshakeView { node_id: member.node_id, secret: Some(secret_of(member)), epoch };
            &&& handshake_state(handshake_bytes(said)) == HandshakeState::Done(said)
            &&& admission(peer, said.node_id, said.secret) is Ok
        }),
{
    law_handshakes_are_read_back(HandshakeView { node_id: member.node_id, secret: Some(secret_of(member)), epoch });
}

/// Raft RPCs between members of different lineages are fenced on both sides, and status probes are
/// answered on both.
pub proof fn law_lineages_are_fenced_both_ways(frame: Incoming, a: Option<u128>, b: Option<u128>)
    requires
        foreign(a, b),
    ensures
        frame is StatusProbe ==> dispatch_result(frame, a, b) is Ok && dispatch_result(frame, b, a) is Ok,
        !(frame is StatusProbe) ==> {
            &&& dispatch_result(frame, a, b) == Err::<Incoming, DispatchError>(DispatchError::Fenced { local: a, peer: b })
            &&& dispatch_result(frame, b, a) == Err::<Incoming, DispatchError>(DispatchError::Fenced { local: b, peer: a })
        },
{
}

/// A node that has no incarnation yet, or shares the peer's, is never fenced.
pub proof fn law_a_blank_or_equal_side_is_never_fenced(frame: Incoming, local: Option<u128>, peer: Option<u128>)
    requires
        local is None || peer is None || local == peer,
    ensures
        !(dispatch_result(frame, local, peer) matches Err(DispatchError::Fenced { .. })),
{
}

/// A secret is accepted exactly if none is configured or it is the configured one.
pub proof fn law_only_the_configured_secret_is_accepted(local: Option<&str>, peer: Option<&str>, b: bool)
    requires
        call_ensures(secrets_match, (local, peer), b),
    ensures
        local is None ==> b,
        local is Some && peer is None ==> !b,
        local is Some && peer is Some ==> (b <==> local->0@ == peer->0@),
{
}

/// Two incarnations are incompatible exactly if both are known and they differ.
pub proof fn law_only_two_different_incarnations_are_incompatible(local: Option<u128>, peer: Option<u128>, b: bool)
    requires
        call_ensures(epochs_compatible, (local, peer), b),
    ensures
        !b <==> local is Some && peer is Some && local->0 != peer->0,
{
}

/// A peer is let in exactly if its id is in the roster and its secret is accepted; the error says which
/// of the two it failed, the roster first.
pub proof fn law_peers_are_let_in_by_roster_and_secret(cfg: &Config, peer_id: u64, secret: Option<&str>, r: Result<(), AdmissionError>)
    requires
        call_ensures(admit_peer, (cfg, peer_id, secret), r),
    ensures
        ({
            let listed = exists|i: int| 0 <= i < cfg.peers@.len() && (#[trigger] cfg.peers@[i]).id == peer_id;
            let known = cfg.cluster_secret is None || (secret is Some && secret->0@ == cfg.cluster_secret->0@);
            &&& r is Ok <==> listed && known
            &&& r == Err::<(), AdmissionError>(AdmissionError::UnknownPeer) <==> !listed
            &&& r == Err::<(), AdmissionError>(AdmissionError::SecretMismatch) <==> listed && !known
        }),
{
    let peers = peers_of(*cfg);
    assert forall|i: int| 0 <= i < peers.len() implies #[trigger] peers[i] == cfg.peers@[i]@ by {}
    if has_peer(peers, peer_id) {
        let k = choose|k: int| is_peer_at(peers, peer_id, k);
        assert(cfg.peers@[k].id == peer_id);
    }
    if exists|i: int| 0 <= i < cfg.peers@.len() && (#[trigger] cfg.peers@[i]).id == peer_id {
        let i = choose|i: int| 0 <= i < cfg.peers@.len() && (#[trigger] cfg.peers@[i]).id == peer_id;
        let ids = cfg.peers@.map_values(|p: PeerConfig| p.id);
        assert(ids[i] == peer_id);
        ids.index_of_first_ensures(peer_id);
        let k = ids.index_of_first(peer_id)->0;
        assert forall|j: int| 0 <= j < k implies (#[trigger] peers[j]).id != peer_id by {
            assert(ids[j] != peer_id);
        }
        assert(is_peer_at(peers, peer_id, k));
    }
}

/// The members of a cluster are the peers of the configuration, this node among them, and the links
/// lead to all of them but this node; both keep the order of the roster.
pub proof fn law_links_lead_to_every_member_but_this_node(cfg: &Config, all: Vec<(u64, String)>, links: Vec<(u64, String)>, i: int)
    requires
        call_ensures(members, (cfg,), all),
        call_ensures(other_links, (cfg,), links),
        0 <= i < cfg.peers@.len(),
    ensures
        all@.len() == cfg.peers@.len(),
        all@[i].0 == cfg.peers@[i].id && all@[i].1@ == cfg.peers@[i].raft_address@,
        links@.map_values(|l: (u64, String)| (l.0, l.1@)) == all@.map_values(|l: (u64, String)| (l.0, l.1@)).filter(
            |l: (u64, Seq<char>)| l.0 != cfg.node_id,
        ),
{
    let peers = peers_of(*cfg);
    let listed = all@.map_values(|l: (u64, String)| (l.0, l.1@));
    assert(listed.len() == peers.len());
    assert(listed[i] == (peers[i].id, peers[i].raft_address));
    assert(listed =~= peers.map_values(|p: PeerView| (p.id, p.raft_address)));
    lemma_filter_of_map(peers, cfg.node_id);
}

proof fn lemma_filter_of_map(peers: Seq<PeerView>, id: u64)
    ensures
        peers.filter(|p: PeerView| p.id != id).map_values(|p: PeerView| (p.id, p.raft_address)) == peers.map_values(
            |p: PeerView| (p.id, p.raft_address),
        ).filter(|l: (u64, Seq<char>)| l.0 != id),
    decreases peers.len(),
{
    reveal(Seq::filter);
    let named = |p: PeerView| (p.id, p.raft_address);
    let (by_peer, by_link) = (|p: PeerView| p.id != id, |l: (u64, Seq<char>)| l.0 != id);
    if peers.len() > 0 {
        let front = peers.drop_last();
        lemma_filter_of_map(front, id);
        assert(peers.map_values(named).drop_last() =~= front.map_values(named));
        assert(peers.map_values(named).last() == named(peers.last()));
        if by_peer(peers.last()) {
            assert(peers.filter(by_peer).map_values(named) =~= front.filter(by_peer).map_values(named).push(named(peers.last())));
        }
    } else {
        assert(peers.filter(by_peer).map_values(named) =~= peers.map_values(named).filter(by_link));
    }
}

/// A status probe is always answered. Any other known frame is served exactly if the incarnations are
/// not two different ones, and is fenced otherwise; an unknown one is never served.
pub proof fn law_frames_are_served_within_one_lineage(
    frame: Incoming,
    local: Option<u128>,
    peer: Option<u128>,
    r: Result<Incoming, DispatchError>,
)
    requires
        call_ensures(dispatch_incoming, (frame, local, peer), r),
    ensures
        ({
            let apart = local is Some && peer is Some && local->0 != peer->0;
            &&& frame is StatusProbe ==> r == Ok::<Incoming, DispatchError>(frame)
            &&& !(frame is StatusProbe) && apart ==> r == Err::<Incoming, DispatchError>(DispatchError::Fenced { local, peer })
            &&& frame is Unknown && !apart ==> r == Err::<Incoming, DispatchError>(DispatchError::Unrecognized)
            &&& !(frame is StatusProbe) && !(frame is Unknown) && !apart ==> r == Ok::<Incoming, DispatchError>(frame)
        }),
{
}

/// An RPC is sent exactly if it fits a frame, the target is a peer and there is a stream to it. What
/// is too large is refused whoever the target is, and an unknown target whether or not there is a
/// stream.
pub proof fn law_an_rpc_is_sent_if_it_fits_and_the_peer_is_there(
    request_len: usize,
    max_frame_bytes: u32,
    target: u64,
    known: bool,
    connected: bool,
    r: Result<(), SendError>,
)
    requires
        call_ensures(check_send, (request_len, max_frame_bytes, target, known, connected), r),
    ensures
        r is Ok <==> request_len <= max_frame_bytes && known && connected,
        r matches Err(SendError::TooLarge(over)) ==> over.len == request_len && over.max_frame_bytes == max_frame_bytes && request_len > max_frame_bytes,
        request_len > max_frame_bytes ==> r matches Err(SendError::TooLarge(_)),
        request_len <= max_frame_bytes && !known ==> r == Err::<(), SendError>(SendError::UnknownPeer { target }),
        request_len <= max_frame_bytes && known && !connected ==> r == Err::<(), SendError>(SendError::NotConnected),
{
}

/// An RPC is given the time that is asked for, but never less than 50 milliseconds.
pub proof fn law_an_rpc_is_given_time(asked: u128, given: u128)
    requires
        call_ensures(effective_ttl, (asked,), given),
    ensures
        given >= asked,
        given >= 50_000_000,
        given == asked || given == 50_000_000,
{
}

/// A stream survives exactly the RPCs that were answered; whoever is told of a failure is told of a
/// timeout only where time ran out, and of success only where an answer could be read.
pub proof fn law_only_an_answer_keeps_the_stream(outcome: RpcOutcome, decoded: bool, drops: bool, fault: Option<RpcFault>)
    requires
        call_ensures(RpcOutcome::drops_stream, (&outcome,), drops),
        call_ensures(RpcOutcome::fault, (&outcome, decoded), fault),
    ensures
        !drops <==> outcome is Answered,
        fault is None <==> outcome is Answered && decoded,
        fault == Some(RpcFault::Timeout) <==> outcome is TimedOut,
        fault == Some(RpcFault::Network) <==> outcome is IoFailed || (outcome is Answered && !decoded),
{
}

/// The reconnect loop connects exactly while the stream is down. The count of failed connects grows by
/// one with each failure, and starts over once a connect has succeeded.
pub proof fn law_the_reconnect_loop_counts_failures_in_a_row(
    up: bool,
    attempts: u32,
    step: (u32, LinkStep),
    connected: bool,
    end: ConnectEnd,
)
    requires
        call_ensures(link_step, (up, attempts), step),
        call_ensures(connect_ended, (step.0, connected), end),
    ensures
        step.1 is Connect <==> !up,
        up ==> step.0 == 0 && step.1 == (LinkStep::Wait { ms: 500 }),
        !up ==> step.0 == attempts,
        connected ==> end.attempts == 0 && end.log && end.wait_ms == 0,
        connected ==> end.attempt == if step.0 < u32::MAX { step.0 + 1 } else { u32::MAX as int },
        !connected ==> end.attempts == end.attempt && end.wait_ms == 250,
        !connected ==> end.attempts == if step.0 < u32::MAX { step.0 + 1 } else { 0 },
        !connected ==> (end.log <==> end.attempts == 1 || end.attempts % 20 == 0),
{
}

/// An RPC that is not sent counts as a network failure if it is too large, and else as a peer that cannot
/// be reached.
pub proof fn law_a_missing_peer_cannot_be_reached(e: SendError, fault: RpcFault)
    requires
        call_ensures(SendError::fault, (&e,), fault),
    ensures
        fault == RpcFault::Network <==> e is TooLarge,
        fault == RpcFault::Unreachable <==> e is UnknownPeer || e is NotConnected,
{
}

} // verus!
