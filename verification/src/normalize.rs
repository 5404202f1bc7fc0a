//! Validating and normalizing a configuration, and what is derived from it.

use vstd::prelude::*;

use vstd::utf8::encode_utf8;

use crate::addr::{parse_socket, IpAddr, SocketAddr};
use crate::config::{
    ceil_div, interval_secs, interval_secs_of, divide_up, stale_secs_of, AddressField, Config,
    ConfigError, ConfigProblem, PeerConfig, PeerView, VipAddr, VipConfig, VipView,
};
use crate::order::{lemma_sorted_distinct, sorted_distinct};
use crate::ordmap::{AddrMap, OrdMap};
use crate::text::{decimal, push_decimal, push_text};

verus! {

/// The members of a configuration.
pub open spec fn peers_of(c: Config) -> Seq<PeerView> {
    c.peers@.map_values(|p: PeerConfig| p@)
}

/// The VIPs of a configuration.
pub open spec fn vips_of(c: Config) -> Seq<VipView> {
    c.vips@.map_values(|v: VipConfig| v@)
}

/// All ids differ.
pub open spec fn distinct_ids(peers: Seq<PeerView>) -> bool {
    forall|i: int, j: int| 0 <= i < j < peers.len() ==> (#[trigger] peers[i]).id != (#[trigger] peers[j]).id
}

/// Position of the peer with this id.
pub open spec fn is_peer_at(peers: Seq<PeerView>, id: u64, i: int) -> bool {
    &&& 0 <= i < peers.len()
    &&& peers[i].id == id
    &&& forall|j: int| 0 <= j < i ==> (#[trigger] peers[j]).id != id
}

pub open spec fn has_peer(peers: Seq<PeerView>, id: u64) -> bool {
    exists|i: int| is_peer_at(peers, id, i)
}

/// The first peer with this id.
pub open spec fn peer_of(peers: Seq<PeerView>, id: u64) -> PeerView {
    peers[choose|i: int| is_peer_at(peers, id, i)]
}

/// What is wrong with the addresses of a peer.
pub open spec fn peer_problem(p: PeerView) -> Option<ConfigProblem> {
    let (raft, submit) = (parse_socket(p.raft_address), parse_socket(p.client_submit_address));
    let (raft_field, submit_field) = (AddressField::PeerRaft(p.id), AddressField::PeerSubmit(p.id));
    if raft is None {
        Some(ConfigProblem::BadAddress { field: raft_field, value: p.raft_address })
    } else if submit is None {
        Some(ConfigProblem::BadAddress { field: submit_field, value: p.client_submit_address })
    } else if raft->0.ip.unspecified() {
        Some(ConfigProblem::UnspecifiedIp { field: raft_field, value: p.raft_address })
    } else if submit->0.ip.unspecified() {
        Some(ConfigProblem::UnspecifiedIp { field: submit_field, value: p.client_submit_address })
    } else if raft == submit {
        Some(ConfigProblem::SameAddresses { peer: p.id })
    } else {
        None
    }
}

/// The first problem with the addresses of a list of peers.
pub open spec fn peers_problem(peers: Seq<PeerView>) -> Option<ConfigProblem>
    decreases peers.len(),
{
    if peers.len() == 0 {
        None
    } else {
        match peers_problem(peers.drop_last()) {
            Some(p) => Some(p),
            None => peer_problem(peers.last()),
        }
    }
}

/// What is wrong with the health settings.
pub open spec fn health_problem(command_len: nat, interval_ms: u64, timeout_ms: u64, stale_secs: Option<u64>) -> Option<ConfigProblem> {
    if command_len == 0 {
        Some(ConfigProblem::NoHealthCommand)
    } else if interval_ms == 0 {
        Some(ConfigProblem::ZeroInterval)
    } else if timeout_ms == 0 {
        Some(ConfigProblem::ZeroTimeout)
    } else if timeout_ms > interval_ms * 10 {
        Some(ConfigProblem::TimeoutTooLarge)
    } else if stale_secs_of(interval_ms, stale_secs) * 1000 <= interval_ms {
        Some(ConfigProblem::StaleTooSmall {
            stale_secs: stale_secs_of(interval_ms, stale_secs) as u64,
            interval_ms,
        })
    } else {
        None
    }
}

/// The secret, the empty text if there is none.
pub open spec fn secret_of(c: Config) -> Seq<char> {
    match c.cluster_secret {
        Some(secret) => secret@,
        None => Seq::empty(),
    }
}

/// The first problem of a configuration, in the order in which they are looked for, up to the VIP
/// list.
pub open spec fn general_problem(c: Config) -> Option<ConfigProblem> {
    let peers = peers_of(c);
    let health = health_problem(c.health.command@.len(), c.health.interval_ms, c.health.timeout_ms, c.health.stale_secs);
    let local = peer_of(peers, c.node_id);
    let (raft, submit) = (parse_socket(c.raft_listen@), parse_socket(c.client_submit_listen@));
    if peers.len() == 0 {
        Some(ConfigProblem::NoPeers)
    } else if c.vips@.len() == 0 {
        Some(ConfigProblem::NoVips)
    } else if secret_of(c).len() == 0 {
        Some(ConfigProblem::NoSecret)
    } else if health is Some {
        health
    } else if !distinct_ids(peers) {
        Some(ConfigProblem::DuplicatePeerId)
    } else if !has_peer(peers, c.node_id) {
        Some(ConfigProblem::NodeNotAPeer)
    } else if raft is None {
        Some(ConfigProblem::BadAddress { field: AddressField::RaftListen, value: c.raft_listen@ })
    } else if submit is None {
        Some(ConfigProblem::BadAddress { field: AddressField::ClientSubmitListen, value: c.client_submit_listen@ })
    } else if peers_problem(peers) is Some {
        peers_problem(peers)
    } else if raft != parse_socket(local.raft_address) {
        Some(ConfigProblem::RaftListenMismatch { listen: c.raft_listen@, node_id: c.node_id, address: local.raft_address })
    } else if submit != parse_socket(local.client_submit_address) {
        Some(ConfigProblem::SubmitListenMismatch {
            listen: c.client_submit_listen@,
            node_id: c.node_id,
            address: local.client_submit_address,
        })
    } else if encode_utf8(secret_of(c)).len() > 256 {
        Some(ConfigProblem::SecretTooLong)
    } else if c.max_frame_bytes < 64 * 1024 {
        Some(ConfigProblem::FrameCapTooSmall)
    } else if c.submit_timeout_ms == 0 {
        Some(ConfigProblem::ZeroSubmitTimeout)
    } else {
        None
    }
}

/// Position of the first VIP with this address.
pub open spec fn is_vip_at(vips: Seq<VipView>, addr: IpAddr, i: int) -> bool {
    &&& 0 <= i < vips.len()
    &&& vips[i].address.addr == addr
    &&& forall|j: int| 0 <= j < i ==> (#[trigger] vips[j]).address.addr != addr
}

/// The addresses of a list of VIPs.
pub open spec fn vip_addresses(vips: Seq<VipView>) -> Seq<IpAddr> {
    vips.map_values(|v: VipView| v.address.addr)
}

/// The VIPs in ascending order of their addresses, each address once; of several with the same
/// address the first one listed.
pub open spec fn normal_vips(vips: Seq<VipView>) -> Seq<VipView> {
    sorted_distinct(vip_addresses(vips)).map_values(|a: IpAddr| vips[choose|i: int| is_vip_at(vips, a, i)])
}

/// What is wrong with the VLAN tag of a VIP.
pub open spec fn vlan_problem(index: nat, v: VipView) -> Option<ConfigProblem> {
    match v.vlan {
        None => None,
        Some(vlan) => if !(1 <= vlan <= 4094) {
            Some(ConfigProblem::VlanOutOfRange { index, vip: v.address, vlan })
        } else if v.interface.contains('.') {
            Some(ConfigProblem::DottedInterface { index, vip: v.address, interface: v.interface })
        } else {
            None
        },
    }
}

/// The first problem with the VLAN tags of a list of VIPs.
pub open spec fn vlans_problem(vips: Seq<VipView>) -> Option<ConfigProblem>
    decreases vips.len(),
{
    if vips.len() == 0 {
        None
    } else {
        match vlans_problem(vips.drop_last()) {
            Some(p) => Some(p),
            None => vlan_problem((vips.len() - 1) as nat, vips.last()),
        }
    }
}

/// Why a configuration is refused, if it is.
pub open spec fn problem(c: Config) -> Option<ConfigProblem> {
    if general_problem(c) is Some { general_problem(c) } else { vlans_problem(normal_vips(vips_of(c))) }
}

/// Nothing but the VIP list may differ.
pub open spec fn same_but_vips(a: Config, b: Config) -> bool {
    &&& a.node_id == b.node_id
    &&& a.raft_listen == b.raft_listen
    &&& a.client_submit_listen == b.client_submit_listen
    &&& a.peers == b.peers
    &&& a.health == b.health
    &&& a.raft == b.raft
    &&& a.cluster_secret == b.cluster_secret
    &&& a.max_frame_bytes == b.max_frame_bytes
    &&& a.submit_timeout_ms == b.submit_timeout_ms
    &&& a.dry_run == b.dry_run
    &&& a.notify == b.notify
    &&& a.failback == b.failback
    &&& a.failback_delay_secs == b.failback_delay_secs
}

/// Read a socket address of the configuration.
fn parse_socket_addr(field: AddressField, value: &String) -> (r: Result<SocketAddr, ConfigError>)
    ensures
        match r {
            Ok(addr) => parse_socket(value@) == Some(addr),
            Err(e) => parse_socket(value@) is None && e@ == (ConfigProblem::BadAddress { field, value: value@ }),
        },
{
    match SocketAddr::parse(value.as_str()) {
        Some(addr) => Ok(addr),
        None => Err(ConfigError::BadAddress { field, value: value.clone() }),
    }
}

fn check_peer(p: &PeerConfig) -> (r: Result<(), ConfigError>)
    ensures
        match r {
            Ok(()) => peer_problem(p@) is None,
            Err(e) => peer_problem(p@) == Some(e@),
        },
{
    let (raft_field, submit_field) = (AddressField::PeerRaft(p.id), AddressField::PeerSubmit(p.id));
    let raft = match parse_socket_addr(raft_field, &p.raft_address) {
        Ok(a) => a,
        Err(e) => return Err(e),
    };
    let submit = match parse_socket_addr(submit_field, &p.client_submit_address) {
        Ok(a) => a,
        Err(e) => return Err(e),
    };
    if raft.ip.is_unspecified() {
        return Err(ConfigError::UnspecifiedIp { field: raft_field, value: p.raft_address.clone() });
    }
    if submit.ip.is_unspecified() {
        return Err(ConfigError::UnspecifiedIp { field: submit_field, value: p.client_submit_address.clone() });
    }
    if raft == submit {
        return Err(ConfigError::SameAddresses { peer: p.id });
    }
    Ok(())
}

proof fn lemma_peers_problem_prefix(peers: Seq<PeerView>, i: int)
    requires
        0 <= i <= peers.len(),
        peers_problem(peers.take(i)) is Some,
    ensures
        peers_problem(peers) == peers_problem(peers.take(i)),
    decreases peers.len(),
{
    if i < peers.len() {
        assert(peers.drop_last().take(i) =~= peers.take(i));
        lemma_peers_problem_prefix(peers.drop_last(), i);
    } else {
        assert(peers.take(i) =~= peers);
    }
}

proof fn lemma_vlans_problem_prefix(vips: Seq<VipView>, i: int)
    requires
        0 <= i <= vips.len(),
        vlans_problem(vips.take(i)) is Some,
    ensures
        vlans_problem(vips) == vlans_problem(vips.take(i)),
    decreases vips.len(),
{
    if i < vips.len() {
        assert(vips.drop_last().take(i) =~= vips.take(i));
        lemma_vlans_problem_prefix(vips.drop_last(), i);
    } else {
        assert(vips.take(i) =~= vips);
    }
}

proof fn lemma_peer_unique(peers: Seq<PeerView>, id: u64, i: int)
    requires
        is_peer_at(peers, id, i),
    ensures
        has_peer(peers, id),
        peer_of(peers, id) == peers[i],
{
    let k = choose|k: int| is_peer_at(peers, id, k);
    assert(is_peer_at(peers, id, k));
}

impl Config {
    /// The position of the first peer with this id.
    fn find_peer(&self, id: u64) -> (at: Option<usize>)
        ensures
            match at {
                Some(i) => is_peer_at(peers_of(*self), id, i as int),
                None => !has_peer(peers_of(*self), id),
            },
    {
        let ghost peers = peers_of(*self);
        let mut i: usize = 0;
        while i < self.peers.len()
            invariant
                i <= self.peers@.len(),
                peers == peers_of(*self),
                forall|j: int| 0 <= j < i ==> (#[trigger] peers[j]).id != id,
            decreases self.peers@.len() - i,
        {
            assert(peers[i as int] == self.peers@[i as int]@);
            if self.peers[i].id == id {
                return Some(i);
            }
            i += 1;
        }
        None
    }

    /// The peer with this id.
    pub fn get_peer(&self, id: u64) -> (p: Option<&PeerConfig>)
        ensures
            match p {
                Some(p) => has_peer(peers_of(*self), id) && p@ == peer_of(peers_of(*self), id),
                None => !has_peer(peers_of(*self), id),
            },
    {
        match self.find_peer(id) {
            Some(i) => {
                proof { lemma_peer_unique(peers_of(*self), id, i as int); }
                Some(&self.peers[i])
            },
            None => None,
        }
    }

    /// All peers but this node.
    pub fn other_peers(&self) -> (others: Vec<&PeerConfig>)
        ensures
            others@.map_values(|p: &PeerConfig| p@) == peers_of(*self).filter(|p: PeerView| p.id != self.node_id),
    {
        let ghost peers = peers_of(*self);
        let ghost pred = |p: PeerView| p.id != self.node_id;
        let mut others: Vec<&PeerConfig> = Vec::new();
        let mut i: usize = 0;
        proof {
            reveal(Seq::filter);
            assert(others@.map_values(|p: &PeerConfig| p@) =~= peers.take(0).filter(pred));
        }
        while i < self.peers.len()
            invariant
                i <= self.peers@.len(),
                peers == peers_of(*self),
                pred == (|p: PeerView| p.id != self.node_id),
                others@.map_values(|p: &PeerConfig| p@) == peers.take(i as int).filter(pred),
            decreases self.peers@.len() - i,
        {
            let ghost before = others@.map_values(|p: &PeerConfig| p@);
            proof {
                reveal(Seq::filter);
                assert(peers.take(i + 1).drop_last() =~= peers.take(i as int));
                assert(peers.take(i + 1).last() == self.peers@[i as int]@);
            }
            if self.peers[i].id != self.node_id {
                others.push(&self.peers[i]);
                assert(others@.map_values(|p: &PeerConfig| p@) =~= before.push(self.peers@[i as int]@));
            }
            i += 1;
        }
        assert(peers.take(i as int) =~= peers);
        others
    }

    fn ids_differ(&self) -> (b: bool)
        ensures
            b == distinct_ids(peers_of(*self)),
    {
        let ghost peers = peers_of(*self);
        let mut seen: OrdMap<u64, ()> = OrdMap::new();
        let mut i: usize = 0;
        while i < self.peers.len()
            invariant
                i <= self.peers@.len(),
                peers == peers_of(*self),
                forall|id: u64| #[trigger] seen@.contains_key(id) ==> exists|j: int| 0 <= j < i && (#[trigger] peers[j]).id == id,
                forall|j: int| 0 <= j < i ==> seen@.contains_key((#[trigger] peers[j]).id),
                forall|j: int, k: int| 0 <= j < k < i ==> (#[trigger] peers[j]).id != (#[trigger] peers[k]).id,
            decreases self.peers@.len() - i,
        {
            assert(peers[i as int] == self.peers@[i as int]@);
            if seen.contains_key(&self.peers[i].id) {
                return false;
            }
            let ghost before = seen@;
            seen.insert(self.peers[i].id, ());
            proof {
                assert forall|id: u64| #[trigger] seen@.contains_key(id) implies exists|j: int| 0 <= j < i + 1 && (#[trigger] peers[j]).id == id by {
                    if before.contains_key(id) {
                        let j = choose|j: int| 0 <= j < i && (#[trigger] peers[j]).id == id;
                        assert(peers[j].id == id);
                    } else {
                        assert(peers[i as int].id == id);
                    }
                }
            }
            i += 1;
        }
        true
    }

    fn check_health(&self) -> (r: Result<(), ConfigError>)
        ensures
            ({
                let p = health_problem(
                    self.health.command@.len(),
                    self.health.interval_ms,
                    self.health.timeout_ms,
                    self.health.stale_secs,
                );
                match r {
                    Ok(()) => p is None,
                    Err(e) => p == Some(e@),
                }
            }),
    {
        let h = &self.health;
        if h.command.len() == 0 {
            return Err(ConfigError::NoHealthCommand);
        }
        if h.interval_ms == 0 {
            return Err(ConfigError::ZeroInterval);
        }
        if h.timeout_ms == 0 {
            return Err(ConfigError::ZeroTimeout);
        }
        if (h.timeout_ms as u128) > (h.interval_ms as u128) * 10 {
            return Err(ConfigError::TimeoutTooLarge);
        }
        let stale_secs: u64 = h.effective_stale_secs();
        if (stale_secs as u128) * 1000 <= h.interval_ms as u128 {
            return Err(ConfigError::StaleTooSmall { stale_secs, interval_ms: h.interval_ms });
        }
        Ok(())
    }

    fn check_peers(&self) -> (r: Result<(), ConfigError>)
        ensures
            match r {
                Ok(()) => peers_problem(peers_of(*self)) is None,
                Err(e) => peers_problem(peers_of(*self)) == Some(e@),
            },
    {
        let ghost peers = peers_of(*self);
        let mut i: usize = 0;
        while i < self.peers.len()
            invariant
                i <= self.peers@.len(),
                peers == peers_of(*self),
                peers_problem(peers.take(i as int)) is None,
            decreases self.peers@.len() - i,
        {
            proof {
                assert(peers.take(i + 1).drop_last() =~= peers.take(i as int));
                assert(peers.take(i + 1).last() == self.peers@[i as int]@);
            }
            if let Err(e) = check_peer(&self.peers[i]) {
                proof { lemma_peers_problem_prefix(peers, i + 1); }
                return Err(e);
            }
            i += 1;
        }
        assert(peers.take(i as int) =~= peers);
        Ok(())
    }

    /// Everything but the VIP list.
    fn check_general(&self) -> (r: Result<(), ConfigError>)
        ensures
            match r {
                Ok(()) => general_problem(*self) is None,
                Err(e) => general_problem(*self) == Some(e@),
            },
    {
        let ghost peers = peers_of(*self);
        if self.peers.len() == 0 {
            return Err(ConfigError::NoPeers);
        }
        if self.vips.len() == 0 {
            return Err(ConfigError::NoVips);
        }
        let secret_bytes: usize = match &self.cluster_secret {
            Some(secret) => {
                let bytes = secret.as_str().as_bytes();
                if bytes.len() == 0 {
                    proof { lemma_no_bytes(secret@); }
                    return Err(ConfigError::NoSecret);
                }
                proof { lemma_no_bytes(secret@); }
                bytes.len()
            },
            None => return Err(ConfigError::NoSecret),
        };
        if let Err(e) = self.check_health() {
            return Err(e);
        }
        if !self.ids_differ() {
            return Err(ConfigError::DuplicatePeerId);
        }
        let local = match self.find_peer(self.node_id) {
            Some(i) => {
                proof { lemma_peer_unique(peers, self.node_id, i as int); }
                &self.peers[i]
            },
            None => return Err(ConfigError::NodeNotAPeer),
        };
        let raft_listen = match parse_socket_addr(AddressField::RaftListen, &self.raft_listen) {
            Ok(a) => a,
            Err(e) => return Err(e),
        };
        let submit_listen = match parse_socket_addr(AddressField::ClientSubmitListen, &self.client_submit_listen) {
            Ok(a) => a,
            Err(e) => return Err(e),
        };
        if let Err(e) = self.check_peers() {
            return Err(e);
        }
        let raft_matches = match SocketAddr::parse(local.raft_address.as_str()) {
            Some(a) => a == raft_listen,
            None => false,
        };
        if !raft_matches {
            return Err(ConfigError::RaftListenMismatch {
                listen: self.raft_listen.clone(),
                node_id: self.node_id,
                address: local.raft_address.clone(),
            });
        }
        let submit_matches = match SocketAddr::parse(local.client_submit_address.as_str()) {
            Some(a) => a == submit_listen,
            None => false,
        };
        if !submit_matches {
            return Err(ConfigError::SubmitListenMismatch {
                listen: self.client_submit_listen.clone(),
                node_id: self.node_id,
                address: local.client_submit_address.clone(),
            });
        }
        if secret_bytes > 256 {
            return Err(ConfigError::SecretTooLong);
        }
        if self.max_frame_bytes < 64 * 1024 {
            return Err(ConfigError::FrameCapTooSmall);
        }
        if self.submit_timeout_ms == 0 {
            return Err(ConfigError::ZeroSubmitTimeout);
        }
        Ok(())
    }

    fn check_vlans(&self) -> (r: Result<(), ConfigError>)
        ensures
            match r {
                Ok(()) => vlans_problem(vips_of(*self)) is None,
                Err(e) => vlans_problem(vips_of(*self)) == Some(e@),
            },
    {
        let ghost vips = vips_of(*self);
        let mut i: usize = 0;
        while i < self.vips.len()
            invariant
                i <= self.vips@.len(),
                vips == vips_of(*self),
                vlans_problem(vips.take(i as int)) is None,
            decreases self.vips@.len() - i,
        {
            let v = &self.vips[i];
            proof {
                assert(vips.take(i + 1).drop_last() =~= vips.take(i as int));
                assert(vips.take(i + 1).last() == v@);
            }
            if let Some(vlan) = v.vlan {
                if !(1 <= vlan && vlan <= 4094) {
                    proof { lemma_vlans_problem_prefix(vips, i + 1); }
                    return Err(ConfigError::VlanOutOfRange { index: i, vip: v.address, vlan });
                }
                if has_dot(&v.interface) {
                    proof { lemma_vlans_problem_prefix(vips, i + 1); }
                    return Err(ConfigError::DottedInterface { index: i, vip: v.address, interface: v.interface.clone() });
                }
            }
            i += 1;
        }
        assert(vips.take(i as int) =~= vips);
        Ok(())
    }

    /// Validate the configuration, and sort and deduplicate the VIP list.
    ///
    /// The VIPs are put in order once everything else is found in order, so a bad VLAN tag of a
    /// dropped duplicate does no harm.
    pub fn normalize(&mut self) -> (r: Result<(), ConfigError>)
        ensures
            match r {
                Ok(()) => problem(*old(self)) is None,
                Err(e) => problem(*old(self)) == Some(e@),
            },
            same_but_vips(*final(self), *old(self)),
            vips_of(*final(self)) == if general_problem(*old(self)) is Some {
                vips_of(*old(self))
            } else {
                normal_vips(vips_of(*old(self)))
            },
    {
        if let Err(e) = self.check_general() {
            return Err(e);
        }
        let vips = normalized(&self.vips);
        self.vips = vips;
        self.check_vlans()
    }

    /// Failback delay as a number of committed probe rounds. Zero means immediate re-eligibility.
    pub fn effective_failback_delay_ticks(&self) -> (ticks: u64)
        ensures
            ticks == ceil_div(self.failback_delay_secs as int, interval_secs_of(self.health.interval_ms)),
    {
        let secs: u64 = interval_secs(self.health.interval_ms);
        if self.failback_delay_secs == 0 {
            proof { vstd::arithmetic::div_mod::lemma_fundamental_div_mod_converse(secs - 1, secs as int, 0, secs - 1); }
            return 0;
        }
        divide_up(self.failback_delay_secs as u64, secs)
    }

    /// The VIPs in list order, each with the interface it is bound on.
    pub fn sorted_vips(&self) -> (list: Vec<(VipAddr, String)>)
        ensures
            list@.len() == self.vips@.len(),
            forall|i: int| 0 <= i < list@.len() ==> (#[trigger] list@[i]).0 == self.vips@[i].address
                && list@[i].1@ == effective_interface(self.vips@[i]@),
    {
        let mut list: Vec<(VipAddr, String)> = Vec::new();
        let mut i: usize = 0;
        while i < self.vips.len()
            invariant
                i <= self.vips@.len(),
                list@.len() == i,
                forall|j: int| 0 <= j < i ==> (#[trigger] list@[j]).0 == self.vips@[j].address
                    && list@[j].1@ == effective_interface(self.vips@[j]@),
            decreases self.vips@.len() - i,
        {
            let v = &self.vips[i];
            let mut interface = v.interface.clone();
            if let Some(vlan) = v.vlan {
                push_text(&mut interface, ".");
                push_decimal(&mut interface, vlan as u128);
                assert(interface@ =~= effective_interface(v@));
            }
            list.push((v.address, interface));
            i += 1;
        }
        list
    }
}

/// The interface, or its VLAN sub-interface.
pub open spec fn effective_interface(v: VipView) -> Seq<char> {
    match v.vlan {
        Some(vlan) => v.interface + "."@ + decimal(vlan as nat),
        None => v.interface,
    }
}

/// A text has no bytes exactly if it has no characters.
proof fn lemma_no_bytes(s: Seq<char>)
    ensures
        encode_utf8(s).len() == 0 <==> s.len() == 0,
{
    if s.len() == 0 {
        assert(s =~= Seq::empty());
    }
    if encode_utf8(s).len() == 0 {
        vstd::utf8::encode_utf8_decode_utf8(s);
        let none = Seq::<char>::empty();
        vstd::utf8::encode_utf8_decode_utf8(none);
        assert(encode_utf8(s) =~= encode_utf8(none));
    }
}

fn has_dot(s: &String) -> (b: bool)
    ensures
        b == s@.contains('.'),
{
    let chars = crate::text::chars_of(s.as_str());
    let mut i: usize = 0;
    while i < chars.len()
        invariant
            i <= chars@.len(),
            chars@ == s@,
            forall|j: int| 0 <= j < i ==> chars@[j] != '.',
        decreases chars@.len() - i,
    {
        if chars[i] == '.' {
            assert(s@[i as int] == '.');
            return true;
        }
        i += 1;
    }
    false
}

/// The VIPs in order and without duplicates.
fn normalized(vips: &Vec<VipConfig>) -> (list: Vec<VipConfig>)
    ensures
        list@.map_values(|v: VipConfig| v@) == normal_vips(vips@.map_values(|v: VipConfig| v@)),
{
    let ghost all = vips@.map_values(|v: VipConfig| v@);
    let mut first: AddrMap<usize> = OrdMap::new();
    let mut i: usize = 0;
    while i < vips.len()
        invariant
            i <= vips@.len(),
            all == vips@.map_values(|v: VipConfig| v@),
            forall|a: IpAddr| #[trigger] first@.contains_key(a) ==> first@[a] < i && is_vip_at(all, a, first@[a] as int),
            forall|j: int| 0 <= j < i ==> first@.contains_key((#[trigger] all[j]).address.addr),
        decreases vips@.len() - i,
    {
        let addr = vips[i].address.addr;
        assert(all[i as int].address.addr == addr);
        if !first.contains_key(&addr) {
            first.insert(addr, i);
            proof {
                assert forall|j: int| 0 <= j < i implies (#[trigger] all[j]).address.addr != addr by {
                }
                assert(is_vip_at(all, addr, i as int));
            }
        }
        i += 1;
    }
    let keys = first.keys();
    proof {
        let addrs = vip_addresses(all);
        assert(keys@.to_set() =~= addrs.to_set()) by {
            assert forall|a: IpAddr| keys@.contains(a) == addrs.contains(a) by {
                assert(keys@.contains(a) == first@.contains_key(a));
                if keys@.contains(a) {
                    assert(addrs[first@[a] as int] == a);
                }
                if addrs.contains(a) {
                    let j = addrs.index_of(a);
                    assert(all[j].address.addr == a);
                }
            }
        }
        lemma_sorted_distinct(addrs, keys@);
    }
    let mut list: Vec<VipConfig> = Vec::new();
    let mut k: usize = 0;
    while k < keys.len()
        invariant
            k <= keys@.len(),
            all == vips@.map_values(|v: VipConfig| v@),
            forall|a: IpAddr| #[trigger] keys@.contains(a) == first@.contains_key(a),
            forall|a: IpAddr| #[trigger] first@.contains_key(a) ==> is_vip_at(all, a, first@[a] as int),
            list@.len() == k,
            forall|j: int| 0 <= j < k ==> (#[trigger] list@[j])@ == all[choose|i: int| is_vip_at(all, keys@[j], i)],
        decreases keys@.len() - k,
    {
        let addr = keys[k];
        assert(keys@.contains(addr));
        if let Some(at) = first.get(&addr) {
            proof {
                let other = choose|i: int| is_vip_at(all, addr, i);
                assert(is_vip_at(all, addr, *at as int));
                assert(is_vip_at(all, addr, other));
                assert(all[other].address.addr == all[*at as int].address.addr);
            }
            list.push(vips[*at].clone());
        }
        k += 1;
    }
    assert(list@.map_values(|v: VipConfig| v@) =~= normal_vips(all));
    list
}

} // verus!
