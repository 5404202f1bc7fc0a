//! Daemon configuration: peers, listen addresses, VIP list, health probe, security and timeouts.
//!
//! All cluster-wide fields must be identical on every node: `peers`, `vips`, `health.interval_ms`,
//! `health.stale_secs`, `cluster_secret`, `max_frame_bytes` and `failback`. Only `node_id` and the
//! listen addresses differ per host.

use vstd::prelude::*;

use crate::addr::{cut, ip_text, parse_ip, IpAddr};
use crate::text::{chars_of, decimal, number, push_decimal, push_text, read_number, string_of};

verus! {

/// Default upper bound on accepted frame size for both Raft RPC and submit channel.
pub const DEFAULT_MAX_FRAME_BYTES: u32 = 4 * 1024 * 1024;

/// Default cap on time spent forwarding a single submit request to the leader.
pub const DEFAULT_SUBMIT_TIMEOUT_MS: u64 = 2_000;

/// A VIP plus the prefix length it is bound with, read from `10.0.0.101` (host route) or
/// `10.0.0.101/24` (explicit prefix).
///
/// Ownership is keyed on `addr` alone; the prefix has a local effect only.
#[derive(Debug, Clone, Copy, PartialEq, Eq, Structural)]
pub struct VipAddr {
    /// The virtual IP itself (this is what the consensus layer keys on).
    pub addr: IpAddr,
    /// Prefix length passed to `ip addr replace|del` as `<addr>/<prefix>`.
    pub prefix: u8,
}

/// Why a text is no VIP address.
#[derive(Debug)]
pub enum VipAddrError {
    /// The part before the slash is no IP address.
    Address { text: String },
    /// The part after the slash is no number that a prefix length could be.
    Prefix { text: String },
    /// The prefix length is too great for the address family.
    Range { addr: IpAddr, prefix: u8 },
}

/// What a [`VipAddrError`] says.
pub enum VipAddrProblem {
    Address { text: Seq<char> },
    Prefix { text: Seq<char> },
    Range { addr: IpAddr, prefix: u8 },
}

impl View for VipAddrError {
    type V = VipAddrProblem;

    open spec fn view(&self) -> VipAddrProblem {
        match self {
            VipAddrError::Address { text } => VipAddrProblem::Address { text: text@ },
            VipAddrError::Prefix { text } => VipAddrProblem::Prefix { text: text@ },
            VipAddrError::Range { addr, prefix } => VipAddrProblem::Range { addr: *addr, prefix: *prefix },
        }
    }
}

/// What `{:?}` writes of a string.
pub uninterp spec fn debug_text(s: Seq<char>) -> Seq<char>;

/// The `Debug` form of a string, quoted and escaped as [`std::fmt::Debug`] for `str` does it. Which
/// characters it escapes, and how, is not stated.
#[verifier::external_body]
fn quote(s: &str) -> (text: String)
    ensures
        text@ == debug_text(s@),
{
    format!("{s:?}")
}

/// Largest valid prefix length for the address family (a host route).
pub open spec fn host_prefix_of(addr: IpAddr) -> u8 {
    match addr {
        IpAddr::V4(_) => 32,
        IpAddr::V6(_) => 128,
    }
}

/// A number as `u8` reads it: a plus sign may stand before the digits.
pub open spec fn parse_u8(s: Seq<char>) -> Option<nat> {
    if s.len() > 0 && s[0] == '+' { number(s.skip(1), 10, 255) } else { number(s, 10, 255) }
}

/// The VIP a text stands for. Without a slash it is a host route.
pub open spec fn parse_vip(s: Seq<char>) -> Result<VipAddr, VipAddrProblem> {
    let host = match cut(s, '/') { Some((host, _)) => host, None => s };
    match parse_ip(host) {
        None => Err(VipAddrProblem::Address { text: host }),
        Some(addr) => match cut(s, '/') {
            None => Ok(VipAddr { addr, prefix: host_prefix_of(addr) }),
            Some((_, text)) => match parse_u8(text) {
                None => Err(VipAddrProblem::Prefix { text }),
                Some(n) => if n <= host_prefix_of(addr) {
                    Ok(VipAddr { addr, prefix: n as u8 })
                } else {
                    Err(VipAddrProblem::Range { addr, prefix: n as u8 })
                },
            },
        },
    }
}

/// `<addr>/<prefix>`.
pub open spec fn vip_text(v: VipAddr) -> Seq<char> {
    ip_text(v.addr) + "/"@ + decimal(v.prefix as nat)
}

impl VipAddr {
    fn host_prefix(addr: IpAddr) -> (prefix: u8)
        ensures
            prefix == host_prefix_of(addr),
    {
        match addr {
            IpAddr::V4(_) => 32,
            IpAddr::V6(_) => 128,
        }
    }

    /// A host-route VIP (`/32` or `/128`).
    pub fn host(addr: IpAddr) -> (v: Self)
        ensures
            v == (VipAddr { addr, prefix: host_prefix_of(addr) }),
    {
        VipAddr { addr, prefix: Self::host_prefix(addr) }
    }

    /// Read a VIP address.
    pub fn from_str(text: &str) -> (r: Result<Self, VipAddrError>)
        ensures
            match r {
                Ok(v) => parse_vip(text@) == Ok::<VipAddr, VipAddrProblem>(v),
                Err(e) => parse_vip(text@) == Err::<VipAddr, VipAddrProblem>(e@),
            },
    {
        let s = chars_of(text);
        let (host, prefix) = match crate::addr::cut_at(&s, '/') {
            Some((a, p)) => (a, Some(p)),
            None => (s, None),
        };
        let addr = match crate::addr::read_ip(&host) {
            Some(addr) => addr,
            None => return Err(VipAddrError::Address { text: string_of(&host) }),
        };
        match prefix {
            None => Ok(VipAddr { addr, prefix: Self::host_prefix(addr) }),
            Some(p) => {
                let n = if p.len() > 0 && p[0] == '+' {
                    let digits = crate::addr::part(&p, 1, p.len());
                    assert(digits@ =~= p@.skip(1));
                    read_number(&digits, 10, 255)
                } else {
                    read_number(&p, 10, 255)
                };
                match n {
                    None => Err(VipAddrError::Prefix { text: string_of(&p) }),
                    Some(n) => {
                        let prefix: u8 = n as u8;
                        if prefix <= Self::host_prefix(addr) {
                            Ok(VipAddr { addr, prefix })
                        } else {
                            Err(VipAddrError::Range { addr, prefix })
                        }
                    },
                }
            },
        }
    }

    /// Append the text of the VIP.
    pub fn push_to(&self, s: &mut String)
        ensures
            final(s)@ == old(s)@ + vip_text(*self),
    {
        self.addr.push_to(s);
        push_text(s, "/");
        push_decimal(s, self.prefix as u128);
        assert(s@ =~= old(s)@ + vip_text(*self));
    }

    /// The text of the VIP.
    pub fn to_string(&self) -> (s: String)
        ensures
            s@ == vip_text(*self),
    {
        let mut s = String::new();
        self.push_to(&mut s);
        assert(s@ =~= vip_text(*self));
        s
    }
}

/// The message for a text that is no VIP address.
pub open spec fn vip_problem_text(e: VipAddrProblem) -> Seq<char> {
    match e {
        VipAddrProblem::Address { text } => "vip address "@ + debug_text(text) + " is not a valid IP"@,
        VipAddrProblem::Prefix { text } => "vip prefix "@ + debug_text(text) + " is not a valid prefix length"@,
        VipAddrProblem::Range { addr, prefix } => "vip prefix /"@ + decimal(prefix as nat) + " out of range for "@
            + ip_text(addr) + " (max /"@ + decimal(host_prefix_of(addr) as nat) + ")"@,
    }
}

impl VipAddrError {
    pub fn message(&self) -> (text: String)
        ensures
            text@ == vip_problem_text(self@),
    {
        let mut s = String::new();
        match self {
            VipAddrError::Address { text } => {
                push_text(&mut s, "vip address ");
                push_text(&mut s, quote(text.as_str()).as_str());
                push_text(&mut s, " is not a valid IP");
            },
            VipAddrError::Prefix { text } => {
                push_text(&mut s, "vip prefix ");
                push_text(&mut s, quote(text.as_str()).as_str());
                push_text(&mut s, " is not a valid prefix length");
            },
            VipAddrError::Range { addr, prefix } => {
                push_text(&mut s, "vip prefix /");
                push_decimal(&mut s, *prefix as u128);
                push_text(&mut s, " out of range for ");
                addr.push_to(&mut s);
                push_text(&mut s, " (max /");
                push_decimal(&mut s, VipAddr::host_prefix(*addr) as u128);
                push_text(&mut s, ")");
            },
        }
        assert(s@ =~= vip_problem_text(self@));
        s
    }
}

/// One member of the cluster.
#[derive(Debug)]
pub struct PeerConfig {
    /// Raft node identifier; must match [`Config::node_id`] on that host.
    pub id: u64,
    /// Peer-reachable `IP:port` socket address for Raft RPC.
    pub raft_address: String,
    /// Peer-reachable `IP:port` where this peer takes submitted health updates when it is leader.
    pub client_submit_address: String,
}

/// What a [`PeerConfig`] says.
pub struct PeerView {
    pub id: u64,
    pub raft_address: Seq<char>,
    pub client_submit_address: Seq<char>,
}

impl View for PeerConfig {
    type V = PeerView;

    open spec fn view(&self) -> PeerView {
        PeerView {
            id: self.id,
            raft_address: self.raft_address@,
            client_submit_address: self.client_submit_address@,
        }
    }
}

/// One VIP.
#[derive(Debug)]
pub struct VipConfig {
    /// Secondary address managed by the daemon (identical on every cluster member).
    pub address: VipAddr,
    /// Linux interface name (e.g. `eth0`).
    pub interface: String,
    /// Optional IEEE 802.1Q VLAN tag (1 to 4094). When set, all operations target
    /// `{interface}.{vlan}`, which must already exist.
    pub vlan: Option<u16>,
}

/// What a [`VipConfig`] says.
pub struct VipView {
    pub address: VipAddr,
    pub interface: Seq<char>,
    pub vlan: Option<u16>,
}

impl View for VipConfig {
    type V = VipView;

    open spec fn view(&self) -> VipView {
        VipView { address: self.address, interface: self.interface@, vlan: self.vlan }
    }
}

impl Clone for VipConfig {
    fn clone(&self) -> (copy: Self)
        ensures
            copy@ == self@,
    {
        VipConfig { address: self.address, interface: self.interface.clone(), vlan: self.vlan }
    }
}

/// Local script/command health probe and the cluster-wide staleness window.
#[derive(Debug)]
pub struct HealthConfig {
    /// Executable and arguments.
    pub command: Vec<String>,
    /// Period between probe runs (milliseconds).
    pub interval_ms: u64,
    /// Wall-clock limit for one run; on expiry the process is killed and health is **false**.
    pub timeout_ms: u64,
    /// Staleness window (seconds), converted to a maximum number of missed committed probe rounds.
    ///
    /// Must be greater than `interval_ms / 1000` so that a single missed probe does not flap
    /// eligibility. Defaults to `max(3, ceil(interval_ms / 1000) * 3)`.
    pub stale_secs: Option<u64>,
}

/// `a / b`, rounded up.
pub open spec fn ceil_div(a: int, b: int) -> int {
    (a + b - 1) / b
}

/// The probe period in whole seconds, at least one.
pub open spec fn interval_secs_of(interval_ms: u64) -> int {
    if ceil_div(interval_ms as int, 1000) < 1 { 1 } else { ceil_div(interval_ms as int, 1000) }
}

/// The staleness window in seconds: as configured, or three probe periods.
pub open spec fn stale_secs_of(interval_ms: u64, stale_secs: Option<u64>) -> int {
    match stale_secs {
        Some(s) => s as int,
        None => interval_secs_of(interval_ms) * 3,
    }
}

/// The staleness window in probe rounds, rounded up, at least one.
pub open spec fn missed_probes_of(interval_ms: u64, stale_secs: Option<u64>) -> int {
    let n = ceil_div(stale_secs_of(interval_ms, stale_secs), interval_secs_of(interval_ms));
    if n < 1 { 1 } else { n }
}

pub(crate) fn divide_up(a: u64, b: u64) -> (q: u64)
    requires
        b > 0,
    ensures
        q == ceil_div(a as int, b as int),
{
    let (q, r): (u64, u64) = (a / b, a % b);
    proof {
        vstd::arithmetic::div_mod::lemma_fundamental_div_mod(a as int, b as int);
        assert(q <= a) by {
            vstd::arithmetic::div_mod::lemma_div_is_ordered_by_denominator(a as int, 1, b as int);
        }
        assert(b * (q + 1) == b * q + b) by (nonlinear_arith);
        if r == 0 {
            vstd::arithmetic::div_mod::lemma_fundamental_div_mod_converse(a + b - 1, b as int, q as int, b - 1);
        } else {
            vstd::arithmetic::div_mod::lemma_fundamental_div_mod_converse(a + b - 1, b as int, q + 1, r - 1);
            if q == u64::MAX {
                assert(b * q >= q) by (nonlinear_arith)
                    requires
                        b > 0,
                ;
            }
        }
    }
    if r == 0 {
        q
    } else {
        q + 1
    }
}

pub(crate) fn interval_secs(interval_ms: u64) -> (secs: u64)
    ensures
        secs == interval_secs_of(interval_ms),
        1 <= secs <= 18_446_744_073_709_552,
{
    let secs: u64 = divide_up(interval_ms, 1_000);
    if secs < 1 {
        1
    } else {
        secs
    }
}

impl HealthConfig {
    /// Effective staleness window in seconds.
    pub fn effective_stale_secs(&self) -> (secs: u64)
        ensures
            secs == stale_secs_of(self.interval_ms, self.stale_secs),
    {
        if let Some(s) = self.stale_secs {
            return s;
        }
        interval_secs(self.interval_ms) * 3
    }

    /// Effective staleness window as the number of committed probe rounds a node may miss, at
    /// least one.
    pub fn effective_stale_missed_probes(&self) -> (probes: u64)
        ensures
            probes == missed_probes_of(self.interval_ms, self.stale_secs),
    {
        let n: u64 = divide_up(self.effective_stale_secs(), interval_secs(self.interval_ms));
        if n < 1 {
            1
        } else {
            n
        }
    }
}

/// Raft timing.
#[derive(Debug, Clone, Copy, PartialEq, Eq, Structural)]
pub struct RaftTuneConfig {
    /// Lower bound of the random leader election timeout.
    pub election_timeout_min_ms: u64,
    /// Upper bound of the random leader election timeout.
    pub election_timeout_max_ms: u64,
    /// Leader heartbeat interval. Must be strictly less than `election_timeout_min_ms`.
    pub heartbeat_interval_ms: u64,
}

impl Default for RaftTuneConfig {
    fn default() -> (tune: Self)
        ensures
            tune == (RaftTuneConfig {
                election_timeout_min_ms: 400,
                election_timeout_max_ms: 800,
                heartbeat_interval_ms: 250,
            }),
    {
        RaftTuneConfig { election_timeout_min_ms: 400, election_timeout_max_ms: 800, heartbeat_interval_ms: 250 }
    }
}

/// Top-level daemon configuration (one per process).
#[derive(Debug)]
pub struct Config {
    /// This process identity; must appear in [`Config::peers`].
    pub node_id: u64,
    /// Local Raft listen address (must match `raft_address` for this `node_id` in `peers`).
    pub raft_listen: String,
    /// Listen address for health updates that followers submit when this node is leader.
    pub client_submit_listen: String,
    /// Full voter list.
    pub peers: Vec<PeerConfig>,
    /// Virtual IPs to distribute, sorted by address and without duplicates once normalized.
    pub vips: Vec<VipConfig>,
    /// Health probe for this node.
    pub health: HealthConfig,
    /// Raft timing.
    pub raft: RaftTuneConfig,
    /// Pre-shared secret that authenticates Raft and submit peers.
    pub cluster_secret: Option<String>,
    /// Frame size cap (bytes).
    pub max_frame_bytes: u32,
    /// Wall-clock budget for forwarding one submit request to the leader.
    pub submit_timeout_ms: u64,
    /// When true, log intended `ip` operations but do not run them.
    pub dry_run: bool,
    /// Optional script called on VIP ownership transitions.
    pub notify: Option<String>,
    /// Whether a recovered node may reclaim its VIPs.
    pub failback: bool,
    /// Minimum continuous healthy duration (seconds) before a recovered node becomes eligible
    /// again. Only meaningful with `failback`.
    pub failback_delay_secs: u32,
}

pub fn default_max_frame_bytes() -> (n: u32)
    ensures
        n == DEFAULT_MAX_FRAME_BYTES,
        n == 4_194_304,
{
    DEFAULT_MAX_FRAME_BYTES
}

pub fn default_failback() -> (b: bool)
    ensures
        b,
{
    true
}

pub fn default_failback_delay_secs() -> (n: u32)
    ensures
        n == 10,
{
    10
}

pub fn default_submit_timeout_ms() -> (n: u64)
    ensures
        n == DEFAULT_SUBMIT_TIMEOUT_MS,
        n == 2_000,
{
    DEFAULT_SUBMIT_TIMEOUT_MS
}

/// Which address of the configuration.
#[derive(Debug, Clone, Copy, PartialEq, Eq, Structural)]
pub enum AddressField {
    RaftListen,
    ClientSubmitListen,
    PeerRaft(u64),
    PeerSubmit(u64),
}

/// How a message names an address.
pub open spec fn field_text(f: AddressField) -> Seq<char> {
    match f {
        AddressField::RaftListen => "raft_listen"@,
        AddressField::ClientSubmitListen => "client_submit_listen"@,
        AddressField::PeerRaft(id) => "peers["@ + decimal(id as nat) + "].raft_address"@,
        AddressField::PeerSubmit(id) => "peers["@ + decimal(id as nat) + "].client_submit_address"@,
    }
}

impl AddressField {
    fn push_to(&self, s: &mut String)
        ensures
            final(s)@ == old(s)@ + field_text(*self),
    {
        match self {
            AddressField::RaftListen => push_text(s, "raft_listen"),
            AddressField::ClientSubmitListen => push_text(s, "client_submit_listen"),
            AddressField::PeerRaft(id) => {
                push_text(s, "peers[");
                push_decimal(s, *id as u128);
                push_text(s, "].raft_address");
            },
            AddressField::PeerSubmit(id) => {
                push_text(s, "peers[");
                push_decimal(s, *id as u128);
                push_text(s, "].client_submit_address");
            },
        }
        assert(s@ =~= old(s)@ + field_text(*self));
    }
}

/// Why a configuration is refused.
#[derive(Debug)]
pub enum ConfigError {
    NoPeers,
    NoVips,
    NoSecret,
    NoHealthCommand,
    ZeroInterval,
    ZeroTimeout,
    TimeoutTooLarge,
    StaleTooSmall { stale_secs: u64, interval_ms: u64 },
    DuplicatePeerId,
    NodeNotAPeer,
    BadAddress { field: AddressField, value: String },
    UnspecifiedIp { field: AddressField, value: String },
    SameAddresses { peer: u64 },
    RaftListenMismatch { listen: String, node_id: u64, address: String },
    SubmitListenMismatch { listen: String, node_id: u64, address: String },
    SecretTooLong,
    FrameCapTooSmall,
    ZeroSubmitTimeout,
    VlanOutOfRange { index: usize, vip: VipAddr, vlan: u16 },
    DottedInterface { index: usize, vip: VipAddr, interface: String },
}

/// What a [`ConfigError`] says.
pub enum ConfigProblem {
    NoPeers,
    NoVips,
    NoSecret,
    NoHealthCommand,
    ZeroInterval,
    ZeroTimeout,
    TimeoutTooLarge,
    StaleTooSmall { stale_secs: u64, interval_ms: u64 },
    DuplicatePeerId,
    NodeNotAPeer,
    BadAddress { field: AddressField, value: Seq<char> },
    UnspecifiedIp { field: AddressField, value: Seq<char> },
    SameAddresses { peer: u64 },
    RaftListenMismatch { listen: Seq<char>, node_id: u64, address: Seq<char> },
    SubmitListenMismatch { listen: Seq<char>, node_id: u64, address: Seq<char> },
    SecretTooLong,
    FrameCapTooSmall,
    ZeroSubmitTimeout,
    VlanOutOfRange { index: nat, vip: VipAddr, vlan: u16 },
    DottedInterface { index: nat, vip: VipAddr, interface: Seq<char> },
}

impl View for ConfigError {
    type V = ConfigProblem;

    open spec fn view(&self) -> ConfigProblem {
        match self {
            ConfigError::NoPeers => ConfigProblem::NoPeers,
            ConfigError::NoVips => ConfigProblem::NoVips,
            ConfigError::NoSecret => ConfigProblem::NoSecret,
            ConfigError::NoHealthCommand => ConfigProblem::NoHealthCommand,
            ConfigError::ZeroInterval => ConfigProblem::ZeroInterval,
            ConfigError::ZeroTimeout => ConfigProblem::ZeroTimeout,
            ConfigError::TimeoutTooLarge => ConfigProblem::TimeoutTooLarge,
            ConfigError::StaleTooSmall { stale_secs, interval_ms } => ConfigProblem::StaleTooSmall {
                stale_secs: *stale_secs,
                interval_ms: *interval_ms,
            },
            ConfigError::DuplicatePeerId => ConfigProblem::DuplicatePeerId,
            ConfigError::NodeNotAPeer => ConfigProblem::NodeNotAPeer,
            ConfigError::BadAddress { field, value } => ConfigProblem::BadAddress { field: *field, value: value@ },
            ConfigError::UnspecifiedIp { field, value } => ConfigProblem::UnspecifiedIp { field: *field, value: value@ },
            ConfigError::SameAddresses { peer } => ConfigProblem::SameAddresses { peer: *peer },
            ConfigError::RaftListenMismatch { listen, node_id, address } => ConfigProblem::RaftListenMismatch {
                listen: listen@,
                node_id: *node_id,
                address: address@,
            },
            ConfigError::SubmitListenMismatch { listen, node_id, address } => ConfigProblem::SubmitListenMismatch {
                listen: listen@,
                node_id: *node_id,
                address: address@,
            },
            ConfigError::SecretTooLong => ConfigProblem::SecretTooLong,
            ConfigError::FrameCapTooSmall => ConfigProblem::FrameCapTooSmall,
            ConfigError::ZeroSubmitTimeout => ConfigProblem::ZeroSubmitTimeout,
            ConfigError::VlanOutOfRange { index, vip, vlan } => ConfigProblem::VlanOutOfRange {
                index: *index as nat,
                vip: *vip,
                vlan: *vlan,
            },
            ConfigError::DottedInterface { index, vip, interface } => ConfigProblem::DottedInterface {
                index: *index as nat,
                vip: *vip,
                interface: interface@,
            },
        }
    }
}

/// The message for a refused configuration.
pub open spec fn problem_text(e: ConfigProblem) -> Seq<char> {
    match e {
        ConfigProblem::NoPeers => "peers must be non-empty"@,
        ConfigProblem::NoVips => "vips must be non-empty"@,
        ConfigProblem::NoSecret => "cluster_secret is required and must be non-empty"@,
        ConfigProblem::NoHealthCommand => "health.command must be non-empty"@,
        ConfigProblem::ZeroInterval => "health.interval_ms must be > 0"@,
        ConfigProblem::ZeroTimeout => "health.timeout_ms must be > 0"@,
        ConfigProblem::TimeoutTooLarge => "health.timeout_ms suspiciously large vs interval_ms"@,
        ConfigProblem::StaleTooSmall { stale_secs, interval_ms } => "health.stale_secs ("@ + decimal(stale_secs as nat)
            + ") must be > interval_ms/1000 ("@ + decimal(interval_ms as nat) + "/1000)"@,
        ConfigProblem::DuplicatePeerId => "duplicate peer id"@,
        ConfigProblem::NodeNotAPeer => "node_id must appear in peers"@,
        ConfigProblem::BadAddress { field, value } => field_text(field)
            + " must be a valid IP:port socket address (got "@ + value + ")"@,
        ConfigProblem::UnspecifiedIp { field, value } => field_text(field) + " must not use an unspecified IP ("@
            + value + ")"@,
        ConfigProblem::SameAddresses { peer } => "peer "@ + decimal(peer as nat)
            + " raft_address and client_submit_address must differ"@,
        ConfigProblem::RaftListenMismatch { listen, node_id, address } => "raft_listen "@ + listen + " must match peers["@
            + decimal(node_id as nat) + "].raft_address "@ + address,
        ConfigProblem::SubmitListenMismatch { listen, node_id, address } => "client_submit_listen "@ + listen
            + " must match peers["@ + decimal(node_id as nat) + "].client_submit_address "@ + address,
        ConfigProblem::SecretTooLong => "cluster_secret must be at most 256 bytes"@,
        ConfigProblem::FrameCapTooSmall => "max_frame_bytes must be >= 64 KiB to fit Raft heartbeats"@,
        ConfigProblem::ZeroSubmitTimeout => "submit_timeout_ms must be > 0"@,
        ConfigProblem::VlanOutOfRange { index, vip, vlan } => "vips["@ + decimal(index) + "] ("@ + vip_text(vip)
            + "): vlan "@ + decimal(vlan as nat) + " is out of range: IEEE 802.1Q allows 1–4094"@,
        ConfigProblem::DottedInterface { index, vip, interface } => "vips["@ + decimal(index) + "] ("@
            + vip_text(vip) + "): interface "@ + debug_text(interface)
            + " must not contain a dot when vlan is set; use the base interface name (e.g. \"eth0\", not \"eth0.10\")"@,
    }
}

impl ConfigError {
    pub fn message(&self) -> (text: String)
        ensures
            text@ == problem_text(self@),
    {
        let mut s = String::new();
        match self {
            ConfigError::NoPeers => push_text(&mut s, "peers must be non-empty"),
            ConfigError::NoVips => push_text(&mut s, "vips must be non-empty"),
            ConfigError::NoSecret => push_text(&mut s, "cluster_secret is required and must be non-empty"),
            ConfigError::NoHealthCommand => push_text(&mut s, "health.command must be non-empty"),
            ConfigError::ZeroInterval => push_text(&mut s, "health.interval_ms must be > 0"),
            ConfigError::ZeroTimeout => push_text(&mut s, "health.timeout_ms must be > 0"),
            ConfigError::TimeoutTooLarge => push_text(&mut s, "health.timeout_ms suspiciously large vs interval_ms"),
            ConfigError::StaleTooSmall { stale_secs, interval_ms } => {
                push_text(&mut s, "health.stale_secs (");
                push_decimal(&mut s, *stale_secs as u128);
                push_text(&mut s, ") must be > interval_ms/1000 (");
                push_decimal(&mut s, *interval_ms as u128);
                push_text(&mut s, "/1000)");
            },
            ConfigError::DuplicatePeerId => push_text(&mut s, "duplicate peer id"),
            ConfigError::NodeNotAPeer => push_text(&mut s, "node_id must appear in peers"),
            ConfigError::BadAddress { field, value } => {
                field.push_to(&mut s);
                push_text(&mut s, " must be a valid IP:port socket address (got ");
                push_text(&mut s, value.as_str());
                push_text(&mut s, ")");
            },
            ConfigError::UnspecifiedIp { field, value } => {
                field.push_to(&mut s);
                push_text(&mut s, " must not use an unspecified IP (");
                push_text(&mut s, value.as_str());
                push_text(&mut s, ")");
            },
            ConfigError::SameAddresses { peer } => {
                push_text(&mut s, "peer ");
                push_decimal(&mut s, *peer as u128);
                push_text(&mut s, " raft_address and client_submit_address must differ");
            },
            ConfigError::RaftListenMismatch { listen, node_id, address } => {
                push_text(&mut s, "raft_listen ");
                push_text(&mut s, listen.as_str());
                push_text(&mut s, " must match peers[");
                push_decimal(&mut s, *node_id as u128);
                push_text(&mut s, "].raft_address ");
                push_text(&mut s, address.as_str());
            },
            ConfigError::SubmitListenMismatch { listen, node_id, address } => {
                push_text(&mut s, "client_submit_listen ");
                push_text(&mut s, listen.as_str());
                push_text(&mut s, " must match peers[");
                push_decimal(&mut s, *node_id as u128);
                push_text(&mut s, "].client_submit_address ");
                push_text(&mut s, address.as_str());
            },
            ConfigError::SecretTooLong => push_text(&mut s, "cluster_secret must be at most 256 bytes"),
            ConfigError::FrameCapTooSmall => push_text(&mut s, "max_frame_bytes must be >= 64 KiB to fit Raft heartbeats"),
            ConfigError::ZeroSubmitTimeout => push_text(&mut s, "submit_timeout_ms must be > 0"),
            ConfigError::VlanOutOfRange { index, vip, vlan } => {
                push_text(&mut s, "vips[");
                push_decimal(&mut s, *index as u128);
                push_text(&mut s, "] (");
                vip.push_to(&mut s);
                push_text(&mut s, "): vlan ");
                push_decimal(&mut s, *vlan as u128);
                push_text(&mut s, " is out of range: IEEE 802.1Q allows 1–4094");
            },
            ConfigError::DottedInterface { index, vip, interface } => {
                push_text(&mut s, "vips[");
                push_decimal(&mut s, *index as u128);
                push_text(&mut s, "] (");
                vip.push_to(&mut s);
                push_text(&mut s, "): interface ");
                push_text(&mut s, quote(interface.as_str()).as_str());
                push_text(
                    &mut s,
                    " must not contain a dot when vlan is set; use the base interface name (e.g. \"eth0\", not \"eth0.10\")",
                );
            },
        }
        assert(s@ =~= problem_text(self@));
        s
    }
}

} // verus!
