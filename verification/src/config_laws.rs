//! What holds of every configuration.

use vstd::prelude::*;

use vstd::utf8::encode_utf8;

use crate::addr::{cut, ip_text, parse_ip, parse_socket, IpAddr};
use crate::addr_laws::{law_ip_text_is_read_back, lemma_ip_text_has_no_slash};
use crate::config::{
    ceil_div, host_prefix_of, interval_secs_of, parse_u8, parse_vip, vip_text, AddressField, Config,
    ConfigError, ConfigProblem, HealthConfig, PeerConfig, PeerView, VipAddr, VipAddrError,
    VipAddrProblem, VipView,
};
use crate::normalize::{
    distinct_ids, general_problem, has_peer, is_peer_at, is_vip_at, normal_vips, peer_of, peer_problem,
    peers_of, peers_problem, problem, vip_addresses, vips_of, vlan_problem, vlans_problem,
};
use crate::order::{
    ascending, lemma_sorted_distinct, lemma_sorted_distinct_exists, sorted_distinct, Ranked,
};
use crate::raft::wire::MAX_SECRET_BYTES;
use crate::text::{decimal, lemma_numeral};

verus! {

/// Reading the text of a VIP gives the VIP back.
pub proof fn law_vip_text_is_read_back(v: VipAddr)
    requires
        v.prefix <= host_prefix_of(v.addr),
    ensures
        parse_vip(vip_text(v)) == Ok::<VipAddr, VipAddrProblem>(v),
{
    reveal_strlit("/");
    let (host, digits) = (ip_text(v.addr), decimal(v.prefix as nat));
    let s = vip_text(v);
    law_ip_text_is_read_back(v.addr);
    lemma_ip_text_has_no_slash(v.addr);
    lemma_numeral(v.prefix as nat, 10);
    let n = host.len() as int;
    assert(s[n] == '/');
    assert(s.contains('/'));
    s.index_of_first_ensures('/');
    let at = s.index_of_first('/')->0;
    assert(at == n) by {
        if at < n {
            assert(host[at] == '/');
        }
    }
    assert(s.take(n) =~= host);
    assert(s.skip(n + 1) =~= digits);
    assert(cut(s, '/') == Some((host, digits)));
    assert(digits[0] != '+') by {
        assert(crate::text::digit_value(digits[0], 10) is Some);
    }
    assert(parse_u8(digits) == Some(v.prefix as nat));
}

/// There is a first VIP for every address of the list.
proof fn lemma_first_vip(vips: Seq<VipView>, a: IpAddr)
    requires
        vip_addresses(vips).contains(a),
    ensures
        is_vip_at(vips, a, choose|i: int| is_vip_at(vips, a, i)),
{
    let addrs = vip_addresses(vips);
    addrs.index_of_first_ensures(a);
    let i = addrs.index_of_first(a)->0;
    assert forall|j: int| 0 <= j < i implies (#[trigger] vips[j]).address.addr != a by {
        assert(addrs[j] != a);
    }
    assert(is_vip_at(vips, a, i));
}

/// A normalized VIP list is in ascending order of addresses, each address once, and has the same
/// addresses as before.
pub proof fn law_normal_vips_are_sorted_and_distinct(vips: Seq<VipView>)
    ensures
        ascending(vip_addresses(normal_vips(vips))),
        vip_addresses(normal_vips(vips)).no_duplicates(),
        vip_addresses(normal_vips(vips)).to_set() == vip_addresses(vips).to_set(),
        vip_addresses(normal_vips(vips)) == sorted_distinct(vip_addresses(vips)),
{
    let addrs = vip_addresses(vips);
    let list = sorted_distinct(addrs);
    lemma_sorted_distinct_exists(addrs);
    assert(vip_addresses(normal_vips(vips)) =~= list) by {
        assert forall|k: int| 0 <= k < list.len() implies vip_addresses(normal_vips(vips))[k] == #[trigger] list[k] by {
            assert(list.contains(list[k]));
            lemma_first_vip(vips, list[k]);
        }
    }
}

/// Of several VIPs with the same address the first one listed is kept.
pub proof fn law_first_of_equal_vips_is_kept(vips: Seq<VipView>, i: int)
    requires
        is_vip_at(vips, vips[i].address.addr, i),
    ensures
        normal_vips(vips).contains(vips[i]),
{
    let a = vips[i].address.addr;
    let addrs = vip_addresses(vips);
    assert(addrs[i] == a);
    lemma_sorted_distinct_exists(addrs);
    let list = sorted_distinct(addrs);
    assert(list.contains(a));
    let k = list.index_of(a);
    let other = choose|j: int| is_vip_at(vips, a, j);
    assert(is_vip_at(vips, a, other));
    assert(normal_vips(vips)[k] == vips[i]);
}

/// Normalizing a normalized list changes nothing.
pub proof fn law_normalizing_again_changes_nothing(vips: Seq<VipView>)
    ensures
        normal_vips(normal_vips(vips)) == normal_vips(vips),
{
    law_normal_vips_are_sorted_and_distinct(vips);
    let once = normal_vips(vips);
    let addrs = vip_addresses(once);
    lemma_sorted_distinct(addrs, addrs);
    assert(normal_vips(once) =~= once) by {
        assert forall|k: int| 0 <= k < once.len() implies normal_vips(once)[k] == #[trigger] once[k] by {
            let a = addrs[k];
            assert(a == once[k].address.addr);
            assert(addrs.contains(a));
            lemma_first_vip(once, a);
            let i = choose|i: int| is_vip_at(once, a, i);
            assert(addrs[i] == a);
            assert(i == k);
        }
    }
}

pub proof fn lemma_no_peer_has_a_problem(peers: Seq<PeerView>, i: int)
    requires
        peers_problem(peers) is None,
        0 <= i < peers.len(),
    ensures
        peer_problem(peers[i]) is None,
    decreases peers.len(),
{
    if i < peers.len() - 1 {
        lemma_no_peer_has_a_problem(peers.drop_last(), i);
    }
}

/// The addresses that a valid configuration listens on are the member's own of the roster: they are
/// concrete, and they differ.
pub proof fn law_listen_addresses_are_concrete(c: Config)
    requires
        general_problem(c) is None,
    ensures
        ({
            let own = peer_of(peers_of(c), c.node_id);
            let (raft, submit) = (parse_socket(c.raft_listen@), parse_socket(c.client_submit_listen@));
            &&& raft is Some && raft == parse_socket(own.raft_address)
            &&& submit is Some && submit == parse_socket(own.client_submit_address)
            &&& !raft->0.ip.unspecified()
            &&& !submit->0.ip.unspecified()
            &&& raft != submit
        }),
{
    let at = choose|i: int| is_peer_at(peers_of(c), c.node_id, i);
    assert(is_peer_at(peers_of(c), c.node_id, at));
    lemma_no_peer_has_a_problem(peers_of(c), at);
}

/// Every valid configuration has a secret that fits a handshake, and names each member once.
pub proof fn law_valid_configurations_are_authenticated(c: Config)
    requires
        general_problem(c) is None,
    ensures
        c.cluster_secret is Some,
        c.cluster_secret->0@.len() > 0,
        encode_utf8(c.cluster_secret->0@).len() <= MAX_SECRET_BYTES,
        distinct_ids(peers_of(c)),
        has_peer(peers_of(c), c.node_id),
{
}

proof fn lemma_peers_without_a_problem(peers: Seq<PeerView>)
    requires
        forall|i: int| 0 <= i < peers.len() ==> peer_problem(#[trigger] peers[i]) is None,
    ensures
        peers_problem(peers) is None,
    decreases peers.len(),
{
    if peers.len() > 0 {
        let front = peers.drop_last();
        assert forall|i: int| 0 <= i < front.len() implies peer_problem(#[trigger] front[i]) is None by {
            assert(front[i] == peers[i]);
        }
        lemma_peers_without_a_problem(front);
        assert(peers[peers.len() - 1] == peers.last());
    }
}

proof fn lemma_vlans_without_a_problem(vips: Seq<VipView>)
    ensures
        vlans_problem(vips) is None <==> forall|k: int| 0 <= k < vips.len() ==> vlan_problem(k as nat, #[trigger] vips[k]) is None,
    decreases vips.len(),
{
    if vips.len() > 0 {
        let front = vips.drop_last();
        lemma_vlans_without_a_problem(front);
        if vlans_problem(vips) is None {
            assert forall|k: int| 0 <= k < vips.len() implies vlan_problem(k as nat, #[trigger] vips[k]) is None by {
                if k < front.len() {
                    assert(front[k] == vips[k]);
                }
            }
        }
        if forall|k: int| 0 <= k < vips.len() ==> vlan_problem(k as nat, #[trigger] vips[k]) is None {
            assert forall|k: int| 0 <= k < front.len() implies vlan_problem(k as nat, #[trigger] front[k]) is None by {
                assert(front[k] == vips[k]);
            }
            assert(vips[vips.len() - 1] == vips.last());
        }
    }
}

/// The VIPs that are kept are exactly those that stand first with their address.
proof fn lemma_kept_vips(vips: Seq<VipView>, v: VipView)
    ensures
        normal_vips(vips).contains(v) <==> exists|i: int| #[trigger] is_vip_at(vips, v.address.addr, i) && vips[i] == v,
{
    let addrs = vip_addresses(vips);
    lemma_sorted_distinct_exists(addrs);
    let list = sorted_distinct(addrs);
    let kept = normal_vips(vips);
    if kept.contains(v) {
        let k = kept.index_of(v);
        assert(list.contains(list[k]));
        assert(addrs.contains(list[k]));
        lemma_first_vip(vips, list[k]);
        let i = choose|i: int| is_vip_at(vips, list[k], i);
        assert(is_vip_at(vips, v.address.addr, i) && vips[i] == v);
    }
    if exists|i: int| #[trigger] is_vip_at(vips, v.address.addr, i) && vips[i] == v {
        let i = choose|i: int| #[trigger] is_vip_at(vips, v.address.addr, i) && vips[i] == v;
        law_first_of_equal_vips_is_kept(vips, i);
    }
}

proof fn lemma_vips_in_order(vips: Seq<VipView>)
    ensures
        vlans_problem(normal_vips(vips)) is None <==> forall|i: int|
            #![trigger vips[i]]
            0 <= i < vips.len() && (forall|j: int| 0 <= j < i ==> (#[trigger] vips[j]).address.addr != vips[i].address.addr) ==> (
            vips[i].vlan matches Some(vlan) ==> 1 <= vlan <= 4094 && !vips[i].interface.contains('.')),
{
    let kept = normal_vips(vips);
    lemma_vlans_without_a_problem(kept);
    if vlans_problem(kept) is None {
        assert forall|i: int|
            #![trigger vips[i]]
            0 <= i < vips.len() && (forall|j: int| 0 <= j < i ==> (#[trigger] vips[j]).address.addr != vips[i].address.addr) implies (
        vips[i].vlan matches Some(vlan) ==> 1 <= vlan <= 4094 && !vips[i].interface.contains('.')) by {
            assert(is_vip_at(vips, vips[i].address.addr, i));
            law_first_of_equal_vips_is_kept(vips, i);
            let k = kept.index_of(vips[i]);
            assert(vlan_problem(k as nat, kept[k]) is None);
        }
    }
    if forall|i: int|
        #![trigger vips[i]]
        0 <= i < vips.len() && (forall|j: int| 0 <= j < i ==> (#[trigger] vips[j]).address.addr != vips[i].address.addr) ==> (
        vips[i].vlan matches Some(vlan) ==> 1 <= vlan <= 4094 && !vips[i].interface.contains('.')) {
        assert forall|k: int| 0 <= k < kept.len() implies vlan_problem(k as nat, #[trigger] kept[k]) is None by {
            assert(kept.contains(kept[k]));
            lemma_kept_vips(vips, kept[k]);
            let i = choose|i: int| #[trigger] is_vip_at(vips, kept[k].address.addr, i) && vips[i] == kept[k];
            assert(vips[i] == kept[k]);
        }
    }
}

/// What a valid peer looks like: both its addresses are sockets with a concrete IP, and they differ.
pub open spec fn reachable_peer(p: PeerConfig) -> bool {
    let (raft, submit) = (parse_socket(p.raft_address@), parse_socket(p.client_submit_address@));
    &&& raft is Some && raft->0.ip != IpAddr::V4(0) && raft->0.ip != IpAddr::V6(0)
    &&& submit is Some && submit->0.ip != IpAddr::V4(0) && submit->0.ip != IpAddr::V6(0)
    &&& raft != submit
}

/// A configuration is accepted exactly if all of this holds: there are peers and VIPs, a secret of 1
/// to 256 bytes, a probe with a period, a time limit of at most ten periods and a window of more than
/// one period, every peer has its own id and two concrete addresses, this node is one of them and
/// listens on its own addresses, a frame may hold 64 KiB, submitting may take some time, and every
/// VIP that is first with its address has no VLAN tag, or one from 1 to 4094 on a plain interface.
#[verifier::spinoff_prover]
#[verifier::rlimit(60)]
pub proof fn law_a_configuration_is_accepted_unless_something_is_wrong(c: Config)
    ensures
        problem(c) is None <==> {
            &&& c.peers@.len() > 0
            &&& c.vips@.len() > 0
            &&& c.cluster_secret is Some && 0 < c.cluster_secret->0@.len() && encode_utf8(c.cluster_secret->0@).len() <= 256
            &&& c.health.command@.len() > 0
            &&& 0 < c.health.interval_ms
            &&& 0 < c.health.timeout_ms <= 10 * c.health.interval_ms
            &&& c.health.stale_secs matches Some(s) ==> s * 1000 > c.health.interval_ms
            &&& forall|i: int, j: int| 0 <= i < j < c.peers@.len() ==> (#[trigger] c.peers@[i]).id != (#[trigger] c.peers@[j]).id
            &&& forall|i: int| 0 <= i < c.peers@.len() ==> reachable_peer(#[trigger] c.peers@[i])
            &&& exists|i: int| 0 <= i < c.peers@.len() && (#[trigger] c.peers@[i]).id == c.node_id
                && parse_socket(c.raft_listen@) == parse_socket(c.peers@[i].raft_address@)
                && parse_socket(c.client_submit_listen@) == parse_socket(c.peers@[i].client_submit_address@)
            &&& c.max_frame_bytes >= 65536
            &&& c.submit_timeout_ms > 0
            &&& forall|i: int|
                #![trigger c.vips@[i]]
                0 <= i < c.vips@.len() && (forall|j: int| 0 <= j < i ==> (#[trigger] c.vips@[j]).address.addr != c.vips@[i].address.addr) ==> (
                c.vips@[i].vlan matches Some(vlan) ==> 1 <= vlan <= 4094 && !c.vips@[i].interface@.contains('.'))
        },
{
    let (peers, vips) = (peers_of(c), vips_of(c));
    lemma_reachable_peers(c);
    lemma_own_ids(c);
    if distinct_ids(peers) {
        lemma_own_peer(c);
    }
    lemma_vips_in_order(vips);
    lemma_vip_views(c);
}

proof fn lemma_reachable_peers(c: Config)
    ensures
        peers_problem(peers_of(c)) is None <==> forall|i: int| 0 <= i < c.peers@.len() ==> reachable_peer(#[trigger] c.peers@[i]),
{
    let peers = peers_of(c);
    assert forall|i: int| 0 <= i < peers.len() implies (peer_problem(#[trigger] peers[i]) is None) == reachable_peer(c.peers@[i]) by {
        assert(peers[i] == c.peers@[i]@);
    }
    assert(peers_problem(peers) is None <==> forall|i: int| 0 <= i < c.peers@.len() ==> reachable_peer(#[trigger] c.peers@[i])) by {
        if peers_problem(peers) is None {
            assert forall|i: int| 0 <= i < c.peers@.len() implies reachable_peer(#[trigger] c.peers@[i]) by {
                lemma_no_peer_has_a_problem(peers, i);
                assert(peer_problem(peers[i]) is None);
            }
        }
        if forall|i: int| 0 <= i < c.peers@.len() ==> reachable_peer(#[trigger] c.peers@[i]) {
            assert forall|i: int| 0 <= i < peers.len() implies peer_problem(#[trigger] peers[i]) is None by {
                assert(reachable_peer(c.peers@[i]));
            }
            lemma_peers_without_a_problem(peers);
        }
    }
}

proof fn lemma_own_ids(c: Config)
    ensures
        distinct_ids(peers_of(c)) <==> forall|i: int, j: int|
            0 <= i < j < c.peers@.len() ==> (#[trigger] c.peers@[i]).id != (#[trigger] c.peers@[j]).id,
{
    let peers = peers_of(c);
    assert(distinct_ids(peers) <==> forall|i: int, j: int|
        0 <= i < j < c.peers@.len() ==> (#[trigger] c.peers@[i]).id != (#[trigger] c.peers@[j]).id) by {
        assert forall|i: int| 0 <= i < peers.len() implies (#[trigger] peers[i]).id == c.peers@[i].id by {}
        if distinct_ids(peers) {
            assert forall|i: int, j: int| 0 <= i < j < c.peers@.len() implies (#[trigger] c.peers@[i]).id != (#[trigger] c.peers@[j]).id by {
                assert(peers[i].id != peers[j].id);
            }
        }
        if forall|i: int, j: int| 0 <= i < j < c.peers@.len() ==> (#[trigger] c.peers@[i]).id != (#[trigger] c.peers@[j]).id {
            assert forall|i: int, j: int| 0 <= i < j < peers.len() implies (#[trigger] peers[i]).id != (#[trigger] peers[j]).id by {
                assert(c.peers@[i].id != c.peers@[j].id);
            }
        }
    }
}

proof fn lemma_own_peer(c: Config)
    requires
        distinct_ids(peers_of(c)),
    ensures
        has_peer(peers_of(c), c.node_id) <==> exists|i: int| 0 <= i < c.peers@.len() && (#[trigger] c.peers@[i]).id == c.node_id,
        forall|i: int|
            0 <= i < c.peers@.len() && (#[trigger] c.peers@[i]).id == c.node_id ==> peer_of(peers_of(c), c.node_id) == c.peers@[i]@,
{
    let peers = peers_of(c);
    assert forall|i: int| 0 <= i < peers.len() implies #[trigger] peers[i] == c.peers@[i]@ by {}
    assert forall|i: int| 0 <= i < c.peers@.len() && (#[trigger] c.peers@[i]).id == c.node_id implies is_peer_at(peers, c.node_id, i) && peer_of(
        peers,
        c.node_id,
    ) == c.peers@[i]@ by {
        assert(peers[i].id == c.node_id);
        assert(is_peer_at(peers, c.node_id, i));
        let k = choose|k: int| is_peer_at(peers, c.node_id, k);
        assert(is_peer_at(peers, c.node_id, k));
    }
    if has_peer(peers, c.node_id) {
        let k = choose|k: int| is_peer_at(peers, c.node_id, k);
        assert(c.peers@[k].id == c.node_id);
    }
}

proof fn lemma_vip_views(c: Config)
    ensures
        ({
            let vips = vips_of(c);
            (forall|i: int|
                #![trigger vips[i]]
                0 <= i < vips.len() && (forall|j: int| 0 <= j < i ==> (#[trigger] vips[j]).address.addr != vips[i].address.addr) ==> (
                vips[i].vlan matches Some(vlan) ==> 1 <= vlan <= 4094 && !vips[i].interface.contains('.'))) <==> (forall|i: int|
                #![trigger c.vips@[i]]
                0 <= i < c.vips@.len() && (forall|j: int| 0 <= j < i ==> (#[trigger] c.vips@[j]).address.addr != c.vips@[i].address.addr) ==> (
                c.vips@[i].vlan matches Some(vlan) ==> 1 <= vlan <= 4094 && !c.vips@[i].interface@.contains('.')))
        }),
{
    let vips = vips_of(c);
    assert forall|i: int| 0 <= i < vips.len() implies #[trigger] vips[i] == c.vips@[i]@ by {}
    assert forall|i: int| 0 <= i < vips.len() implies (forall|j: int| 0 <= j < i ==> (#[trigger] vips[j]).address.addr
        != (#[trigger] vips[i]).address.addr) == (forall|j: int| 0 <= j < i ==> (#[trigger] c.vips@[j]).address.addr != c.vips@[i].address.addr) by {
        if forall|j: int| 0 <= j < i ==> (#[trigger] vips[j]).address.addr != vips[i].address.addr {
            assert forall|j: int| 0 <= j < i implies (#[trigger] c.vips@[j]).address.addr != c.vips@[i].address.addr by {
                assert(vips[j].address.addr != vips[i].address.addr);
            }
        }
        if forall|j: int| 0 <= j < i ==> (#[trigger] c.vips@[j]).address.addr != c.vips@[i].address.addr {
            assert forall|j: int| 0 <= j < i implies (#[trigger] vips[j]).address.addr != vips[i].address.addr by {
                assert(c.vips@[j].address.addr != c.vips@[i].address.addr);
            }
        }
    }
    assert forall|i: int| 0 <= i < c.vips@.len() implies (#[trigger] c.vips@[i])@ == vips[i] by {}
}

proof fn lemma_ceil_div(a: int, b: int)
    requires
        0 <= a,
        0 < b,
    ensures
        ceil_div(a, b) * b >= a,
        (ceil_div(a, b) - 1) * b < a,
        ceil_div(a, b) >= 0,
{
    let (q, r) = ((a + b - 1) / b, (a + b - 1) % b);
    vstd::arithmetic::div_mod::lemma_fundamental_div_mod(a + b - 1, b);
    assert(q >= 0) by {
        vstd::arithmetic::div_mod::lemma_div_pos_is_pos(a + b - 1, b);
    }
    assert(b * q == q * b && (q - 1) * b == q * b - b) by (nonlinear_arith);
}

/// The staleness window in probe rounds is the least number of rounds, and at least one, that lasts
/// as long as the window: the configured one, or three periods. A period counts in whole seconds,
/// rounded up, and as one at least.
pub proof fn law_the_window_is_the_least_number_of_rounds_that_lasts_it(h: &HealthConfig, secs: int, n: u64)
    requires
        1 <= secs,
        h.interval_ms <= 1000 * secs,
        secs == 1 || 1000 * (secs - 1) < h.interval_ms,
        call_ensures(HealthConfig::effective_stale_missed_probes, (h,), n),
    ensures
        ({
            let window = match h.stale_secs { Some(s) => s as int, None => 3 * secs };
            &&& n >= 1
            &&& n * secs >= window
            &&& n == 1 || (n - 1) * secs < window
        }),
{
    lemma_ceil_div(h.interval_ms as int, 1000);
    assert(interval_secs_of(h.interval_ms) == secs);
    let window = match h.stale_secs { Some(s) => s as int, None => secs * 3 };
    lemma_ceil_div(window, secs);
    assert(1 * secs == secs && 0 * secs == 0) by (nonlinear_arith);
}

/// The failback delay in probe rounds is the least number of rounds that lasts as long as the delay.
pub proof fn law_the_delay_is_the_least_number_of_rounds_that_lasts_it(c: &Config, secs: int, n: u64)
    requires
        1 <= secs,
        c.health.interval_ms <= 1000 * secs,
        secs == 1 || 1000 * (secs - 1) < c.health.interval_ms,
        call_ensures(Config::effective_failback_delay_ticks, (c,), n),
    ensures
        n * secs >= c.failback_delay_secs,
        n == 0 || (n - 1) * secs < c.failback_delay_secs,
        n == 0 <==> c.failback_delay_secs == 0,
{
    lemma_ceil_div(c.health.interval_ms as int, 1000);
    assert(interval_secs_of(c.health.interval_ms) == secs);
    lemma_ceil_div(c.failback_delay_secs as int, secs);
    if n == 0 {
        assert(0 * secs == 0) by (nonlinear_arith);
    }
    if c.failback_delay_secs == 0 && n > 0 {
        assert((n - 1) * secs >= 0) by (nonlinear_arith)
            requires
                n > 0,
                secs >= 1,
        ;
    }
}

/// The list that the daemon works with has every VIP in its place, on its interface or on the VLAN
/// sub-interface with the tag in decimal.
pub proof fn law_vips_are_listed_on_their_interfaces(c: &Config, list: Vec<(VipAddr, String)>, i: int)
    requires
        call_ensures(Config::sorted_vips, (c,), list),
        0 <= i < c.vips@.len(),
    ensures
        list@.len() == c.vips@.len(),
        list@[i].0 == c.vips@[i].address,
        c.vips@[i].vlan is None ==> list@[i].1@ == c.vips@[i].interface@,
        c.vips@[i].vlan matches Some(vlan) ==> {
            let (name, base) = (list@[i].1@, c.vips@[i].interface@);
            &&& name.len() > base.len()
            &&& name.take(base.len() as int) == base
            &&& name[base.len() as int] == '.'
            &&& crate::text::number(name.skip(1 + base.len() as int), 10, 65535) == Some(vlan as nat)
        },
{
    reveal_strlit(".");
    assert(list@[i].0 == c.vips@[i].address);
    if let Some(vlan) = c.vips@[i].vlan {
        let (name, base) = (list@[i].1@, c.vips@[i].interface@);
        lemma_numeral(vlan as nat, 10);
        assert(name.take(base.len() as int) =~= base);
        assert(name.skip(1 + base.len() as int) =~= decimal(vlan as nat));
    }
}

/// A peer is found exactly if its id is in the roster, and then it is the first with that id.
pub proof fn law_peers_are_found_by_their_id(c: &Config, id: u64, p: Option<&PeerConfig>)
    requires
        call_ensures(Config::get_peer, (c, id), p),
    ensures
        p is None <==> forall|i: int| 0 <= i < c.peers@.len() ==> (#[trigger] c.peers@[i]).id != id,
        p matches Some(p) ==> exists|i: int| {
            &&& 0 <= i < c.peers@.len()
            &&& p@ == (#[trigger] c.peers@[i])@
            &&& p.id == id
            &&& forall|j: int| 0 <= j < i ==> (#[trigger] c.peers@[j]).id != id
        },
{
    let peers = peers_of(*c);
    assert forall|i: int| 0 <= i < peers.len() implies #[trigger] peers[i] == c.peers@[i]@ by {}
    if has_peer(peers, id) {
        let k = choose|k: int| is_peer_at(peers, id, k);
        assert(is_peer_at(peers, id, k));
        assert(c.peers@[k].id == id);
        assert forall|j: int| 0 <= j < k implies (#[trigger] c.peers@[j]).id != id by {
            assert(peers[j].id != id);
        }
    } else {
        let ids = c.peers@.map_values(|p: PeerConfig| p.id);
        if exists|i: int| 0 <= i < c.peers@.len() && (#[trigger] c.peers@[i]).id == id {
            let i = choose|i: int| 0 <= i < c.peers@.len() && (#[trigger] c.peers@[i]).id == id;
            assert(ids[i] == id);
            ids.index_of_first_ensures(id);
            let k = ids.index_of_first(id)->0;
            assert forall|j: int| 0 <= j < k implies (#[trigger] peers[j]).id != id by {
                assert(ids[j] != id);
            }
            assert(is_peer_at(peers, id, k));
        }
    }
}

/// What a refusal says is the case.
#[verifier::spinoff_prover]
#[verifier::rlimit(60)]
pub proof fn law_a_refusal_names_something_that_is_wrong(c: Config)
    ensures
        match problem(c) {
            None => true,
            Some(ConfigProblem::NoPeers) => c.peers@.len() == 0,
            Some(ConfigProblem::NoVips) => c.vips@.len() == 0,
            Some(ConfigProblem::NoSecret) => c.cluster_secret is None || c.cluster_secret->0@.len() == 0,
            Some(ConfigProblem::NoHealthCommand) => c.health.command@.len() == 0,
            Some(ConfigProblem::ZeroInterval) => c.health.interval_ms == 0,
            Some(ConfigProblem::ZeroTimeout) => c.health.timeout_ms == 0,
            Some(ConfigProblem::TimeoutTooLarge) => c.health.timeout_ms > 10 * c.health.interval_ms,
            Some(ConfigProblem::StaleTooSmall { stale_secs, interval_ms }) => {
                &&& c.health.stale_secs == Some(stale_secs) && interval_ms == c.health.interval_ms
                &&& stale_secs * 1000 <= interval_ms
            },
            Some(ConfigProblem::DuplicatePeerId) => exists|i: int, j: int|
                0 <= i < j < c.peers@.len() && (#[trigger] c.peers@[i]).id == (#[trigger] c.peers@[j]).id,
            Some(ConfigProblem::NodeNotAPeer) => forall|i: int| 0 <= i < c.peers@.len() ==> (#[trigger] c.peers@[i]).id != c.node_id,
            Some(ConfigProblem::BadAddress { field, value }) => {
                &&& parse_socket(value) is None
                &&& field == AddressField::RaftListen ==> value == c.raft_listen@
                &&& field == AddressField::ClientSubmitListen ==> value == c.client_submit_listen@
            },
            Some(ConfigProblem::UnspecifiedIp { value, .. }) => parse_socket(value) matches Some(a) && (a.ip == IpAddr::V4(0) || a.ip
                == IpAddr::V6(0)),
            Some(ConfigProblem::SameAddresses { peer }) => exists|i: int|
                0 <= i < c.peers@.len() && (#[trigger] c.peers@[i]).id == peer && parse_socket(c.peers@[i].raft_address@) == parse_socket(
                    c.peers@[i].client_submit_address@,
                ),
            Some(ConfigProblem::RaftListenMismatch { listen, node_id, address }) => {
                &&& listen == c.raft_listen@ && node_id == c.node_id
                &&& parse_socket(listen) != parse_socket(address)
            },
            Some(ConfigProblem::SubmitListenMismatch { listen, node_id, address }) => {
                &&& listen == c.client_submit_listen@ && node_id == c.node_id
                &&& parse_socket(listen) != parse_socket(address)
            },
            Some(ConfigProblem::SecretTooLong) => c.cluster_secret is Some && encode_utf8(c.cluster_secret->0@).len() > 256,
            Some(ConfigProblem::FrameCapTooSmall) => c.max_frame_bytes < 65536,
            Some(ConfigProblem::ZeroSubmitTimeout) => c.submit_timeout_ms == 0,
            Some(ConfigProblem::VlanOutOfRange { vlan, .. }) => vlan == 0 || vlan > 4094,
            Some(ConfigProblem::DottedInterface { interface, .. }) => interface.contains('.'),
        },
{
    let peers = peers_of(c);
    assert forall|i: int| 0 <= i < peers.len() implies #[trigger] peers[i] == c.peers@[i]@ by {}
    if peers_problem(peers) is Some {
        let i = lemma_first_bad_peer(peers);
        lemma_peer_blame(peers[i]);
        assert(c.peers@[i].id == peers[i].id);
    }
    if general_problem(c) is None && vlans_problem(normal_vips(vips_of(c))) is Some {
        lemma_some_bad_vlan(normal_vips(vips_of(c)));
    }
    if !distinct_ids(peers) {
        let (i, j) = choose|i: int, j: int| 0 <= i < j < peers.len() && (#[trigger] peers[i]).id == (#[trigger] peers[j]).id;
        assert(c.peers@[i].id == c.peers@[j].id);
    } else {
        lemma_own_peer(c);
    }
}

proof fn lemma_peer_blame(p: PeerView)
    ensures
        match peer_problem(p) {
            None => true,
            Some(ConfigProblem::BadAddress { field, value }) => (field == AddressField::PeerRaft(p.id) || field == AddressField::PeerSubmit(
                p.id,
            )) && parse_socket(value) is None,
            Some(ConfigProblem::UnspecifiedIp { value, .. }) => parse_socket(value) matches Some(a) && (a.ip == IpAddr::V4(0) || a.ip
                == IpAddr::V6(0)),
            Some(ConfigProblem::SameAddresses { peer }) => peer == p.id && parse_socket(p.raft_address) == parse_socket(
                p.client_submit_address,
            ),
            _ => false,
        },
{
}

proof fn lemma_first_bad_peer(peers: Seq<PeerView>) -> (i: int)
    requires
        peers_problem(peers) is Some,
    ensures
        0 <= i < peers.len(),
        peer_problem(peers[i]) == peers_problem(peers),
    decreases peers.len(),
{
    let front = peers.drop_last();
    if peers_problem(front) is Some {
        let i = lemma_first_bad_peer(front);
        assert(front[i] == peers[i]);
        i
    } else {
        peers.len() - 1
    }
}

proof fn lemma_some_bad_vlan(vips: Seq<VipView>)
    requires
        vlans_problem(vips) is Some,
    ensures
        exists|k: int| 0 <= k < vips.len() && vlan_problem(k as nat, #[trigger] vips[k]) == vlans_problem(vips),
    decreases vips.len(),
{
    let front = vips.drop_last();
    if vlans_problem(front) is Some {
        lemma_some_bad_vlan(front);
        let k = choose|k: int| 0 <= k < front.len() && vlan_problem(k as nat, #[trigger] front[k]) == vlans_problem(front);
        assert(vips[k] == front[k]);
    } else {
        assert(vips[vips.len() - 1] == vips.last());
    }
}

/// A VIP is an IP address, as a host route, or an IP address, a slash and a prefix length of its family.
pub proof fn law_a_vip_is_an_address_and_a_prefix_of_its_family(text: &str, r: Result<VipAddr, VipAddrError>)
    requires
        call_ensures(VipAddr::from_str, (text,), r),
    ensures
        r matches Ok(v) ==> v.prefix <= (if v.addr is V4 { 32u8 } else { 128u8 }),
        !text@.contains('/') ==> {
            &&& r is Ok <==> parse_ip(text@) is Some
            &&& r matches Ok(v) ==> parse_ip(text@) == Some(v.addr) && v.prefix == if v.addr is V4 { 32u8 } else { 128u8 }
        },
        forall|host: Seq<char>, prefix: Seq<char>|
            text@ == #[trigger] (host.push('/') + prefix) && !host.contains('/') ==> {
                &&& r is Ok <==> {
                    &&& parse_ip(host) is Some
                    &&& parse_u8(prefix) is Some
                    &&& parse_u8(prefix)->0 <= if parse_ip(host)->0 is V4 { 32nat } else { 128nat }
                }
                &&& r matches Ok(v) ==> parse_ip(host) == Some(v.addr) && parse_u8(prefix) == Some(v.prefix as nat)
                &&& parse_ip(host) is None ==> (r matches Err(VipAddrError::Address { .. }))
                &&& parse_ip(host) is Some && parse_u8(prefix) is None ==> (r matches Err(VipAddrError::Prefix { .. }))
            },
{
    assert forall|host: Seq<char>, prefix: Seq<char>| text@ == #[trigger] (host.push('/') + prefix) && !host.contains('/') implies cut(
        text@,
        '/',
    ) == Some((host, prefix)) by {
        let s = text@;
        let n = host.len() as int;
        assert(s[n] == '/');
        assert(s.contains('/'));
        s.index_of_first_ensures('/');
        let at = s.index_of_first('/')->0;
        if at < n {
            assert(host[at] == '/');
        }
        assert(s.take(n) =~= host);
        assert(s.skip(n + 1) =~= prefix);
    }
}

/// Normalizing changes nothing but the VIP list, and that only once everything else is in order: then it
/// ascends strictly by address, and holds the first VIP of each address and no other.
pub proof fn law_normalizing_touches_only_the_vips()
    ensures
        forall|c: &mut Config, r: Result<(), ConfigError>| #[trigger] call_ensures(Config::normalize, (c,), r) ==> {
            let (before, after) = (*c, *final(c));
            &&& after.node_id == before.node_id && after.raft_listen == before.raft_listen && after.client_submit_listen == before.client_submit_listen
            &&& after.peers == before.peers && after.health == before.health && after.raft == before.raft
            &&& after.cluster_secret == before.cluster_secret && after.max_frame_bytes == before.max_frame_bytes
            &&& after.submit_timeout_ms == before.submit_timeout_ms && after.dry_run == before.dry_run && after.notify == before.notify
            &&& after.failback == before.failback && after.failback_delay_secs == before.failback_delay_secs
            &&& r is Ok <==> problem(before) is None
            &&& r is Ok ==> {
                let (old_list, new_list) = (vips_of(before), vips_of(after));
                &&& forall|i: int, j: int|
                    0 <= i < j < new_list.len() ==> (#[trigger] new_list[i]).address.addr.rank() < (#[trigger] new_list[j]).address.addr.rank()
                &&& forall|v: VipView| #[trigger] new_list.contains(v) <==> exists|i: int| {
                    &&& 0 <= i < old_list.len() && #[trigger] old_list[i] == v
                    &&& forall|j: int| 0 <= j < i ==> (#[trigger] old_list[j]).address.addr != v.address.addr
                }
            }
        },
{
    assert forall|c: &mut Config, r: Result<(), ConfigError>| #[trigger] call_ensures(Config::normalize, (c,), r) && r is Ok implies ({
        let (old_list, new_list) = (vips_of(*c), vips_of(*final(c)));
        &&& forall|i: int, j: int|
            0 <= i < j < new_list.len() ==> (#[trigger] new_list[i]).address.addr.rank() < (#[trigger] new_list[j]).address.addr.rank()
        &&& forall|v: VipView| #[trigger] new_list.contains(v) <==> exists|i: int| {
            &&& 0 <= i < old_list.len() && #[trigger] old_list[i] == v
            &&& forall|j: int| 0 <= j < i ==> (#[trigger] old_list[j]).address.addr != v.address.addr
        }
    }) by {
        let (old_list, new_list) = (vips_of(*c), vips_of(*final(c)));
        assert(new_list == normal_vips(old_list));
        law_normal_vips_are_sorted_and_distinct(old_list);
        let addrs = vip_addresses(new_list);
        assert forall|i: int, j: int| 0 <= i < j < new_list.len() implies (#[trigger] new_list[i]).address.addr.rank() < (
        #[trigger] new_list[j]).address.addr.rank() by {
            assert(addrs[i].rank() < addrs[j].rank());
        }
        assert forall|v: VipView| #[trigger] new_list.contains(v) <==> exists|i: int| {
            &&& 0 <= i < old_list.len() && #[trigger] old_list[i] == v
            &&& forall|j: int| 0 <= j < i ==> (#[trigger] old_list[j]).address.addr != v.address.addr
        } by {
            lemma_kept_vips(old_list, v);
            if new_list.contains(v) {
                let i = choose|i: int| #[trigger] is_vip_at(old_list, v.address.addr, i) && old_list[i] == v;
                assert(old_list[i] == v);
            }
            if exists|i: int| {
                &&& 0 <= i < old_list.len() && #[trigger] old_list[i] == v
                &&& forall|j: int| 0 <= j < i ==> (#[trigger] old_list[j]).address.addr != v.address.addr
            } {
                let i = choose|i: int| {
                    &&& 0 <= i < old_list.len() && #[trigger] old_list[i] == v
                    &&& forall|j: int| 0 <= j < i ==> (#[trigger] old_list[j]).address.addr != v.address.addr
                };
                assert(is_vip_at(old_list, v.address.addr, i));
            }
        }
    }
}

/// What is written of a VIP is read as that VIP.
pub proof fn law_a_written_vip_is_read(v: VipAddr, written: String, text: &str, r: Result<VipAddr, VipAddrError>)
    requires
        v.prefix <= (if v.addr is V4 { 32u8 } else { 128u8 }),
        call_ensures(VipAddr::to_string, (&v,), written),
        text@ == written@,
        call_ensures(VipAddr::from_str, (text,), r),
    ensures
        r is Ok && r->Ok_0 == v,
{
    law_vip_text_is_read_back(v);
}

/// A host route has the longest prefix of its family.
pub proof fn law_a_host_route_has_the_longest_prefix(addr: IpAddr, v: VipAddr)
    requires
        call_ensures(VipAddr::host, (addr,), v),
    ensures
        v.addr == addr,
        v.prefix == if addr is V4 { 32u8 } else { 128u8 },
{
}

/// The window in seconds is the configured one, or three periods in whole seconds, rounded up.
pub proof fn law_the_window_is_three_periods_unless_configured(h: &HealthConfig, secs: int, n: u64)
    requires
        1 <= secs,
        h.interval_ms <= 1000 * secs,
        secs == 1 || 1000 * (secs - 1) < h.interval_ms,
        call_ensures(HealthConfig::effective_stale_secs, (h,), n),
    ensures
        h.stale_secs matches Some(s) ==> n == s,
        h.stale_secs is None ==> n == 3 * secs,
{
    lemma_ceil_div(h.interval_ms as int, 1000);
    assert(interval_secs_of(h.interval_ms) == secs);
}

} // verus!
