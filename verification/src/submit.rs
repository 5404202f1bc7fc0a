//! Submitting commands to the Raft leader: what is checked, where it goes, and what comes back.
//!
//! A request is written locally if this node leads, and else forwarded to the leader in an envelope
//! that carries the shared secret. The leader takes it only with its own secret, for a node of the
//! roster, and from that node's own address.

use vstd::prelude::*;

use crate::addr::{ip_text, parse_socket, IpAddr, SocketAddr};
use crate::config::Config;
use crate::config_laws::lemma_no_peer_has_a_problem;
use crate::normalize::{general_problem, has_peer, is_peer_at, peer_of, peers_of, secret_of};
use crate::raft::types::KafRequest;
use crate::text::{decimal, push_decimal, push_text, same_text};

verus! {

/// How long an accepted submit connection may take to deliver its request (seconds).
pub const SUBMIT_READ_TIMEOUT_SECS: u64 = 5;

/// Outer envelope on the submit channel.
#[derive(Debug)]
pub struct SubmitEnvelope {
    /// Cluster shared secret, `None` if not provided.
    pub secret: Option<String>,
    pub request: KafRequest,
}

/// Result of one submit attempt as returned by the leader.
#[derive(Debug)]
pub struct SubmitResponse {
    pub ok: bool,
    pub message: String,
}

/// Why a submitted request is turned away.
pub enum Rejection {
    SecretMismatch,
    ClusterScoped,
    UnknownNode { node_id: u64 },
    BadPeerAddress { node_id: u64 },
    WrongSource { node_id: u64, from_ip: IpAddr, expected_ip: IpAddr },
}

/// The message for a request that is turned away.
pub open spec fn rejection_text(r: Rejection) -> Seq<char> {
    match r {
        Rejection::SecretMismatch => "cluster_secret mismatch"@,
        Rejection::ClusterScoped => "cluster-scoped request not accepted over client submit"@,
        Rejection::UnknownNode { node_id } => "node_id "@ + decimal(node_id as nat) + " not in peers"@,
        Rejection::BadPeerAddress { node_id } => "peer "@ + decimal(node_id as nat)
            + " has an unparseable client_submit_address: invalid socket address syntax"@,
        Rejection::WrongSource { node_id, from_ip, expected_ip } => "submit for node_id "@ + decimal(node_id as nat)
            + " came from "@ + ip_text(from_ip) + ", but its advertised address is "@ + ip_text(expected_ip),
    }
}

/// The secret is the configured one, or none is configured.
pub open spec fn secret_accepted(configured: Option<String>, given: Option<String>) -> bool {
    configured is Some ==> given is Some && given->0@ == configured->0@
}

/// Why a request is turned away, if it is: its secret is wrong, it speaks for no node, for a node
/// that is not in the roster, or it does not come from that node's own address.
pub open spec fn rejection(cfg: Config, from_ip: IpAddr, secret: Option<String>, request: KafRequest) -> Option<Rejection> {
    let peers = peers_of(cfg);
    if !secret_accepted(cfg.cluster_secret, secret) {
        Some(Rejection::SecretMismatch)
    } else {
        match request.origin() {
            None => Some(Rejection::ClusterScoped),
            Some(node_id) => if !has_peer(peers, node_id) {
                Some(Rejection::UnknownNode { node_id })
            } else {
                match parse_socket(peer_of(peers, node_id).client_submit_address) {
                    None => Some(Rejection::BadPeerAddress { node_id }),
                    Some(expected) => if from_ip != expected.ip {
                        Some(Rejection::WrongSource { node_id, from_ip, expected_ip: expected.ip })
                    } else {
                        None
                    },
                }
            },
        }
    }
}

fn numbered(before: &str, n: u64, after: &str) -> (s: String)
    ensures
        s@ == before@ + decimal(n as nat) + after@,
{
    let mut s = String::new();
    push_text(&mut s, before);
    push_decimal(&mut s, n as u128);
    push_text(&mut s, after);
    assert(s@ =~= before@ + decimal(n as nat) + after@);
    s
}

/// Check an envelope and take the request out of it, or say why not.
///
/// A node may submit only for itself, so the source address must be the advertised address of the
/// node that the request speaks for.
pub fn validate_and_extract(cfg: &Config, from_ip: IpAddr, env: SubmitEnvelope) -> (r: Result<KafRequest, String>)
    ensures
        match (r, rejection(*cfg, from_ip, env.secret, env.request)) {
            (Ok(request), None) => request == env.request,
            (Err(message), Some(why)) => message@ == rejection_text(why),
            _ => false,
        },
{
    if let Some(local) = &cfg.cluster_secret {
        let matches = match &env.secret {
            Some(given) => same_text(given.as_str(), local.as_str()),
            None => false,
        };
        if !matches {
            return Err("cluster_secret mismatch".to_owned());
        }
    }
    let node_id: u64 = match env.request.node_id() {
        Some(id) => id,
        None => return Err("cluster-scoped request not accepted over client submit".to_owned()),
    };
    let peer = match cfg.get_peer(node_id) {
        Some(peer) => peer,
        None => return Err(numbered("node_id ", node_id, " not in peers")),
    };
    let expected = match SocketAddr::parse(peer.client_submit_address.as_str()) {
        Some(addr) => addr,
        None => {
            return Err(numbered(
                "peer ",
                node_id,
                " has an unparseable client_submit_address: invalid socket address syntax",
            ));
        },
    };
    if from_ip != expected.ip {
        let mut s = numbered("submit for node_id ", node_id, " came from ");
        from_ip.push_to(&mut s);
        push_text(&mut s, ", but its advertised address is ");
        expected.ip.push_to(&mut s);
        assert(s@ =~= rejection_text(Rejection::WrongSource { node_id, from_ip, expected_ip: expected.ip }));
        return Err(s);
    }
    Ok(env.request)
}

/// Why a request could not be submitted.
#[derive(Debug)]
pub enum SubmitError {
    /// The request speaks for the cluster, not for a node.
    ClusterScoped,
    /// The request speaks for a node that is not in the roster.
    UnknownNode { node_id: u64 },
    /// The local write took too long.
    WriteTimedOut { timeout_ms: u64 },
    /// The local write failed for another reason than not leading.
    WriteFailed { message: String },
    /// This node does not lead, and no leader is known.
    NoLeader,
    /// The leader is not in the roster.
    LeaderNotAPeer,
    /// Forwarding took too long.
    ForwardTimedOut { leader: u64, address: String },
    /// The leader turned the request away.
    Rejected { message: String },
}

impl SubmitError {
    /// What the error says.
    pub open spec fn text(self) -> Seq<char> {
        match self {
            SubmitError::ClusterScoped => "cluster-scoped request cannot be submitted via submit_request"@,
            SubmitError::UnknownNode { node_id } => "request node_id "@ + decimal(node_id as nat) + " not in peers"@,
            SubmitError::WriteTimedOut { timeout_ms } => "local raft client_write timed out after "@
                + decimal(timeout_ms as nat) + "ms"@,
            SubmitError::WriteFailed { message } => "raft client_write: "@ + message@,
            SubmitError::NoLeader => "forward to leader but no leader id"@,
            SubmitError::LeaderNotAPeer => "leader not in peers"@,
            SubmitError::ForwardTimedOut { leader, address } => "forward to leader "@ + decimal(leader as nat) + " ("@
                + address@ + ") timed out"@,
            SubmitError::Rejected { message } => "leader rejected: "@ + message@,
        }
    }

    pub fn message(&self) -> (text: String)
        ensures
            text@ == self.text(),
    {
        let s = match self {
            SubmitError::ClusterScoped => "cluster-scoped request cannot be submitted via submit_request".to_owned(),
            SubmitError::UnknownNode { node_id } => numbered("request node_id ", *node_id, " not in peers"),
            SubmitError::WriteTimedOut { timeout_ms } => numbered("local raft client_write timed out after ", *timeout_ms, "ms"),
            SubmitError::WriteFailed { message } => {
                let mut s = String::new();
                push_text(&mut s, "raft client_write: ");
                push_text(&mut s, message.as_str());
                s
            },
            SubmitError::NoLeader => "forward to leader but no leader id".to_owned(),
            SubmitError::LeaderNotAPeer => "leader not in peers".to_owned(),
            SubmitError::ForwardTimedOut { leader, address } => {
                let mut s = numbered("forward to leader ", *leader, " (");
                push_text(&mut s, address.as_str());
                push_text(&mut s, ") timed out");
                s
            },
            SubmitError::Rejected { message } => {
                let mut s = String::new();
                push_text(&mut s, "leader rejected: ");
                push_text(&mut s, message.as_str());
                s
            },
        };
        assert(s@ =~= self.text());
        s
    }
}

/// Check a request before it is written: it must speak for a node of the roster.
pub fn check_request(cfg: &Config, request: &KafRequest) -> (r: Result<u64, SubmitError>)
    ensures
        match request.origin() {
            None => r == Err::<u64, SubmitError>(SubmitError::ClusterScoped),
            Some(node_id) => r == if has_peer(peers_of(*cfg), node_id) {
                Ok::<u64, SubmitError>(node_id)
            } else {
                Err(SubmitError::UnknownNode { node_id })
            },
        },
{
    let node_id: u64 = match request.node_id() {
        Some(id) => id,
        None => return Err(SubmitError::ClusterScoped),
    };
    match cfg.get_peer(node_id) {
        Some(_) => Ok(node_id),
        None => Err(SubmitError::UnknownNode { node_id }),
    }
}

/// Where a request goes that this node may not write: to the leader named with the refusal, or else
/// to the current leader, at its submit address.
pub fn forward_target(cfg: &Config, named: Option<u64>, current: Option<u64>) -> (r: Result<(u64, String), SubmitError>)
    ensures
        ({
            let leader = if named is Some { named } else { current };
            match leader {
                None => r == Err::<(u64, String), SubmitError>(SubmitError::NoLeader),
                Some(id) => if has_peer(peers_of(*cfg), id) {
                    &&& r is Ok
                    &&& r->Ok_0.0 == id
                    &&& r->Ok_0.1@ == peer_of(peers_of(*cfg), id).client_submit_address
                } else {
                    r == Err::<(u64, String), SubmitError>(SubmitError::LeaderNotAPeer)
                },
            }
        }),
{
    let leader = match named {
        Some(id) => Some(id),
        None => current,
    };
    match leader {
        None => Err(SubmitError::NoLeader),
        Some(id) => match cfg.get_peer(id) {
            Some(peer) => Ok((id, peer.client_submit_address.clone())),
            None => Err(SubmitError::LeaderNotAPeer),
        },
    }
}

/// The envelope a request is forwarded in.
pub fn envelope_for(cfg: &Config, request: KafRequest) -> (env: SubmitEnvelope)
    ensures
        env.request == request,
        env.secret == cfg.cluster_secret,
{
    let secret = match &cfg.cluster_secret {
        Some(secret) => Some(secret.clone()),
        None => None,
    };
    SubmitEnvelope { secret, request }
}

/// How this node's own write of a request ended.
#[derive(Debug)]
pub enum LocalWrite {
    Committed,
    /// This node does not lead; the refusal may name the leader.
    NotLeader { named: Option<u64> },
    Failed { message: String },
    TimedOut,
}

/// What is left to do for a request after this node has tried to write it.
#[derive(Debug)]
pub enum SubmitStep {
    Done,
    /// Send the envelope to the leader.
    Forward { leader: u64, address: String, envelope: SubmitEnvelope },
}

/// Decide what comes after this node's own write. `current` is the leader this node sees.
pub fn after_local_write(cfg: &Config, request: KafRequest, written: LocalWrite, current: Option<u64>) -> (r: Result<SubmitStep, SubmitError>)
    ensures
        match written {
            LocalWrite::Committed => r == Ok::<SubmitStep, SubmitError>(SubmitStep::Done),
            LocalWrite::Failed { message } => r == Err::<SubmitStep, SubmitError>(SubmitError::WriteFailed { message }),
            LocalWrite::TimedOut => r == Err::<SubmitStep, SubmitError>(
                SubmitError::WriteTimedOut { timeout_ms: cfg.submit_timeout_ms },
            ),
            LocalWrite::NotLeader { named } => {
                let target = if named is Some { named } else { current };
                match target {
                    None => r == Err::<SubmitStep, SubmitError>(SubmitError::NoLeader),
                    Some(id) => if has_peer(peers_of(*cfg), id) {
                        r matches Ok(SubmitStep::Forward { leader, address, envelope }) && {
                            &&& leader == id
                            &&& address@ == peer_of(peers_of(*cfg), id).client_submit_address
                            &&& envelope.request == request
                            &&& envelope.secret == cfg.cluster_secret
                        }
                    } else {
                        r == Err::<SubmitStep, SubmitError>(SubmitError::LeaderNotAPeer)
                    },
                }
            },
        },
{
    match written {
        LocalWrite::Committed => Ok(SubmitStep::Done),
        LocalWrite::Failed { message } => Err(SubmitError::WriteFailed { message }),
        LocalWrite::TimedOut => Err(SubmitError::WriteTimedOut { timeout_ms: cfg.submit_timeout_ms }),
        LocalWrite::NotLeader { named } => match forward_target(cfg, named, current) {
            Ok((leader, address)) => {
                let envelope = envelope_for(cfg, request);
                Ok(SubmitStep::Forward { leader, address, envelope })
            },
            Err(e) => Err(e),
        },
    }
}

/// What the leader's answer means for the one who forwarded.
pub fn forwarded(response: SubmitResponse) -> (r: Result<(), SubmitError>)
    ensures
        r == if response.ok {
            Ok::<(), SubmitError>(())
        } else {
            Err(SubmitError::Rejected { message: response.message })
        },
{
    if response.ok {
        Ok(())
    } else {
        Err(SubmitError::Rejected { message: response.message })
    }
}

/// How the leader's write of a submitted request ended.
#[derive(Debug)]
pub enum WriteOutcome {
    Committed,
    Failed { message: String },
    TimedOut,
}

/// The leader's answer after it tried to write an accepted request.
pub fn write_response(outcome: WriteOutcome, submit_timeout_ms: u64) -> (response: SubmitResponse)
    ensures
        response.ok == (outcome is Committed),
        response.message@ == match outcome {
            WriteOutcome::Committed => Seq::<char>::empty(),
            WriteOutcome::Failed { message } => message@,
            WriteOutcome::TimedOut => (SubmitError::WriteTimedOut { timeout_ms: submit_timeout_ms }).text(),
        },
{
    match outcome {
        WriteOutcome::Committed => SubmitResponse { ok: true, message: String::new() },
        WriteOutcome::Failed { message } => SubmitResponse { ok: false, message },
        WriteOutcome::TimedOut => SubmitResponse {
            ok: false,
            message: (SubmitError::WriteTimedOut { timeout_ms: submit_timeout_ms }).message(),
        },
    }
}

/// The leader's answer to a request it does not accept.
pub fn rejection_response(message: String) -> (response: SubmitResponse)
    ensures
        !response.ok,
        response.message == message,
{
    SubmitResponse { ok: false, message }
}

/// An accepted request carries the configured secret, speaks for a node of the roster, and comes
/// from that node's own address.
pub proof fn law_accepted_requests_are_authentic(cfg: Config, from_ip: IpAddr, secret: Option<String>, request: KafRequest)
    requires
        rejection(cfg, from_ip, secret, request) is None,
    ensures
        cfg.cluster_secret is Some ==> secret is Some && secret->0@ == cfg.cluster_secret->0@,
        request.origin() is Some,
        has_peer(peers_of(cfg), request.origin()->0),
        parse_socket(peer_of(peers_of(cfg), request.origin()->0).client_submit_address) is Some,
        parse_socket(peer_of(peers_of(cfg), request.origin()->0).client_submit_address)->0.ip == from_ip,
{
}

/// No one can set the cluster's incarnation over the submit channel.
pub proof fn law_incarnation_cannot_be_submitted(cfg: Config, from_ip: IpAddr, secret: Option<String>, cluster_id: u128)
    ensures
        rejection(cfg, from_ip, secret, KafRequest::ClusterFormed { cluster_id }) is Some,
{
}

/// What a member reports about itself, from its own address, is accepted by every leader with a
/// valid configuration of the same roster and secret.
pub proof fn law_own_reports_are_accepted(member: Config, leader: Config, from_ip: IpAddr, request: KafRequest)
    requires
        general_problem(member) is None,
        general_problem(leader) is None,
        peers_of(member) == peers_of(leader),
        secret_of(member) == secret_of(leader),
        request.origin() == Some(member.node_id),
        parse_socket(peer_of(peers_of(member), member.node_id).client_submit_address) matches Some(own) && own.ip == from_ip,
    ensures
        rejection(leader, from_ip, member.cluster_secret, request) is None,
{
    let peers = peers_of(leader);
    let at = choose|i: int| is_peer_at(peers, member.node_id, i);
    assert(is_peer_at(peers, member.node_id, at));
    lemma_no_peer_has_a_problem(peers, at);
}

/// A submitted request is taken exactly if its secret is the configured one, or none is configured,
/// and it speaks for a node of the roster whose own submit address has the IP it came from. It is
/// handed on unchanged.
pub proof fn law_requests_are_taken_from_their_own_node_only(
    cfg: &Config,
    from_ip: IpAddr,
    env: SubmitEnvelope,
    r: Result<KafRequest, String>,
)
    requires
        call_ensures(validate_and_extract, (cfg, from_ip, env), r),
    ensures
        r matches Ok(request) ==> request == env.request,
        r is Ok <==> {
            &&& cfg.cluster_secret matches Some(own) ==> env.secret is Some && env.secret->0@ == own@
            &&& !(env.request is ClusterFormed)
            &&& exists|i: int| {
                let node = match env.request {
                    KafRequest::HealthUpdate { node_id, .. } => node_id,
                    KafRequest::VipReleased { node_id, .. } => node_id,
                    KafRequest::ClusterFormed { .. } => 0,
                };
                &&& 0 <= i < cfg.peers@.len()
                &&& (#[trigger] cfg.peers@[i]).id == node
                &&& forall|j: int| 0 <= j < i ==> (#[trigger] cfg.peers@[j]).id != node
                &&& parse_socket(cfg.peers@[i].client_submit_address@) is Some
                &&& parse_socket(cfg.peers@[i].client_submit_address@)->0.ip == from_ip
            }
        },
{
    let node = match env.request {
        KafRequest::HealthUpdate { node_id, .. } => node_id,
        KafRequest::VipReleased { node_id, .. } => node_id,
        KafRequest::ClusterFormed { .. } => 0,
    };
    lemma_peer_positions(*cfg, node);
}

/// A peer with an id is the first of the roster that has it.
proof fn lemma_peer_positions(cfg: Config, id: u64)
    ensures
        has_peer(peers_of(cfg), id) <==> exists|i: int| {
            &&& 0 <= i < cfg.peers@.len()
            &&& (#[trigger] cfg.peers@[i]).id == id
            &&& forall|j: int| 0 <= j < i ==> (#[trigger] cfg.peers@[j]).id != id
        },
        forall|i: int|
            0 <= i < cfg.peers@.len() && (#[trigger] cfg.peers@[i]).id == id && (forall|j: int| 0 <= j < i ==> (#[trigger] cfg.peers@[j]).id != id)
                ==> peer_of(peers_of(cfg), id) == cfg.peers@[i]@,
{
    let peers = peers_of(cfg);
    assert forall|i: int| 0 <= i < peers.len() implies #[trigger] peers[i] == cfg.peers@[i]@ by {}
    assert forall|i: int|
        0 <= i < cfg.peers@.len() && (#[trigger] cfg.peers@[i]).id == id && (forall|j: int| 0 <= j < i ==> (#[trigger] cfg.peers@[j]).id != id) implies is_peer_at(
        peers,
        id,
        i,
    ) && peer_of(peers, id) == cfg.peers@[i]@ by {
        assert forall|j: int| 0 <= j < i implies (#[trigger] peers[j]).id != id by {
            assert(cfg.peers@[j].id != id);
        }
        assert(peers[i].id == id);
        assert(is_peer_at(peers, id, i));
        let k = choose|k: int| is_peer_at(peers, id, k);
        assert(is_peer_at(peers, id, k));
    }
    if has_peer(peers, id) {
        let k = choose|k: int| is_peer_at(peers, id, k);
        assert(is_peer_at(peers, id, k));
        assert(cfg.peers@[k].id == id);
        assert forall|j: int| 0 <= j < k implies (#[trigger] cfg.peers@[j]).id != id by {
            assert(peers[j].id != id);
        }
    }
}

/// A request goes to the leader that the refusal names, else to the one this node sees, at the submit
/// address of that leader in the roster; without a leader, or with one that is not in the roster, it
/// goes nowhere.
pub proof fn law_requests_are_forwarded_to_the_leader(
    cfg: &Config,
    named: Option<u64>,
    current: Option<u64>,
    r: Result<(u64, String), SubmitError>,
)
    requires
        call_ensures(forward_target, (cfg, named, current), r),
    ensures
        named is None && current is None ==> r == Err::<(u64, String), SubmitError>(SubmitError::NoLeader),
        r matches Ok((leader, address)) ==> {
            &&& named is Some ==> named == Some(leader)
            &&& named is None ==> current == Some(leader)
            &&& exists|i: int| 0 <= i < cfg.peers@.len() && (#[trigger] cfg.peers@[i]).id == leader && cfg.peers@[i].client_submit_address@
                == address@
        },
        named is Some || current is Some ==> (r is Ok <==> exists|i: int|
            0 <= i < cfg.peers@.len() && (#[trigger] cfg.peers@[i]).id == (if named is Some { named->0 } else { current->0 })),
        (named is Some || current is Some) && r is Err ==> r->Err_0 is LeaderNotAPeer,
{
    let id = if named is Some { named->0 } else { current->0 };
    lemma_peer_positions(*cfg, id);
    if exists|i: int| 0 <= i < cfg.peers@.len() && (#[trigger] cfg.peers@[i]).id == id {
        let i = choose|i: int| 0 <= i < cfg.peers@.len() && (#[trigger] cfg.peers@[i]).id == id;
        let ids = cfg.peers@.map_values(|p: crate::config::PeerConfig| p.id);
        assert(ids[i] == id);
        ids.index_of_first_ensures(id);
        let k = ids.index_of_first(id)->0;
        assert forall|j: int| 0 <= j < k implies (#[trigger] cfg.peers@[j]).id != id by {
            assert(ids[j] != id);
        }
        assert(cfg.peers@[k].id == id);
    }
}

/// Only requests that speak for a node of the roster are written at all.
pub proof fn law_only_requests_of_the_roster_are_written(cfg: &Config, request: &KafRequest, r: Result<u64, SubmitError>)
    requires
        call_ensures(check_request, (cfg, request), r),
    ensures
        request is ClusterFormed ==> r == Err::<u64, SubmitError>(SubmitError::ClusterScoped),
        r matches Ok(node) ==> {
            &&& *request matches KafRequest::HealthUpdate { node_id, .. } ==> node_id == node
            &&& *request matches KafRequest::VipReleased { node_id, .. } ==> node_id == node
            &&& exists|i: int| 0 <= i < cfg.peers@.len() && (#[trigger] cfg.peers@[i]).id == node
        },
        r matches Err(SubmitError::UnknownNode { node_id }) ==> forall|i: int| 0 <= i < cfg.peers@.len() ==> (#[trigger] cfg.peers@[i]).id != node_id,
        r matches Err(e) ==> e is ClusterScoped || e is UnknownNode,
{
    let node = match *request {
        KafRequest::HealthUpdate { node_id, .. } => node_id,
        KafRequest::VipReleased { node_id, .. } => node_id,
        KafRequest::ClusterFormed { .. } => 0,
    };
    lemma_peer_positions(*cfg, node);
    if exists|i: int| 0 <= i < cfg.peers@.len() && (#[trigger] cfg.peers@[i]).id == node {
        let i = choose|i: int| 0 <= i < cfg.peers@.len() && (#[trigger] cfg.peers@[i]).id == node;
        let ids = cfg.peers@.map_values(|p: crate::config::PeerConfig| p.id);
        assert(ids[i] == node);
        ids.index_of_first_ensures(node);
        let k = ids.index_of_first(node)->0;
        assert forall|j: int| 0 <= j < k implies (#[trigger] cfg.peers@[j]).id != node by {
            assert(ids[j] != node);
        }
        assert(cfg.peers@[k].id == node);
    }
}

/// A request that this node has committed is done; one that it may not write is forwarded unchanged
/// and with this node's secret; one that failed here is not tried elsewhere.
pub proof fn law_a_request_is_forwarded_only_where_this_node_does_not_lead(
    cfg: &Config,
    request: KafRequest,
    written: LocalWrite,
    current: Option<u64>,
    r: Result<SubmitStep, SubmitError>,
)
    requires
        call_ensures(after_local_write, (cfg, request, written, current), r),
    ensures
        written is Committed <==> r == Ok::<SubmitStep, SubmitError>(SubmitStep::Done),
        r matches Ok(SubmitStep::Forward { leader, envelope, .. }) ==> {
            &&& written is NotLeader
            &&& written->named is Some ==> written->named == Some(leader)
            &&& written->named is None ==> current == Some(leader)
            &&& envelope.request == request
            &&& envelope.secret == cfg.cluster_secret
        },
        written is TimedOut <==> r matches Err(SubmitError::WriteTimedOut { .. }),
        written is Failed <==> r matches Err(SubmitError::WriteFailed { .. }),
{
}

/// The leader's answer reaches the one who asked: a request that the leader committed has succeeded,
/// any other has failed with what the leader said.
pub proof fn law_the_leaders_answer_decides(
    outcome: WriteOutcome,
    submit_timeout_ms: u64,
    response: SubmitResponse,
    r: Result<(), SubmitError>,
)
    requires
        call_ensures(write_response, (outcome, submit_timeout_ms), response),
        call_ensures(forwarded, (response,), r),
    ensures
        r is Ok <==> outcome is Committed,
        outcome matches WriteOutcome::Failed { message } ==> r matches Err(SubmitError::Rejected { message: said }) && said@ == message@,
{
}

/// A request that is turned away has failed with the reason.
pub proof fn law_a_request_that_is_turned_away_has_failed(message: String, response: SubmitResponse, r: Result<(), SubmitError>)
    requires
        call_ensures(rejection_response, (message,), response),
        call_ensures(forwarded, (response,), r),
    ensures
        r matches Err(SubmitError::Rejected { message: said }) && said == message,
{
}

} // verus!
