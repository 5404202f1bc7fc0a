use keepafloatd::addr::{IpAddr, SocketAddr};
use keepafloatd::config::{
    default_failback, default_failback_delay_secs, default_max_frame_bytes,
    default_submit_timeout_ms, AddressField, Config, ConfigError, HealthConfig, PeerConfig,
    RaftTuneConfig, VipAddr, VipAddrError, VipConfig, DEFAULT_MAX_FRAME_BYTES,
    DEFAULT_SUBMIT_TIMEOUT_MS,
};
use serde_yaml::Value;

fn text(v: &Value, key: &str) -> String {
    v.get(key).and_then(Value::as_str).unwrap_or_else(|| panic!("{key}")).to_string()
}

fn number(v: &Value, key: &str) -> u64 {
    v.get(key).and_then(Value::as_u64).unwrap_or_else(|| panic!("{key}"))
}

fn list<'a>(v: &'a Value, key: &str) -> Vec<&'a Value> {
    v.get(key).and_then(Value::as_sequence).map(|s| s.iter().collect()).unwrap_or_default()
}

fn read_config(yaml: &str) -> Result<Config, String> {
    let v: Value = serde_yaml::from_str(yaml).map_err(|e| e.to_string())?;
    let mut vips = Vec::new();
    for vip in list(&v, "vips") {
        vips.push(VipConfig {
            address: VipAddr::from_str(&text(vip, "address")).map_err(|e| e.message())?,
            interface: text(vip, "interface"),
            vlan: vip.get("vlan").and_then(Value::as_u64).map(|n| u16::try_from(n).unwrap()),
        });
    }
    let health = v.get("health").unwrap();
    Ok(Config {
        node_id: number(&v, "node_id"),
        raft_listen: text(&v, "raft_listen"),
        client_submit_listen: text(&v, "client_submit_listen"),
        peers: list(&v, "peers")
            .into_iter()
            .map(|p| PeerConfig {
                id: number(p, "id"),
                raft_address: text(p, "raft_address"),
                client_submit_address: text(p, "client_submit_address"),
            })
            .collect(),
        vips,
        health: HealthConfig {
            command: list(health, "command")
                .into_iter()
                .map(|c| c.as_str().unwrap().to_string())
                .collect(),
            interval_ms: number(health, "interval_ms"),
            timeout_ms: number(health, "timeout_ms"),
            stale_secs: health.get("stale_secs").and_then(Value::as_u64),
        },
        raft: RaftTuneConfig::default(),
        cluster_secret: v.get("cluster_secret").and_then(Value::as_str).map(str::to_string),
        max_frame_bytes: v
            .get("max_frame_bytes")
            .and_then(Value::as_u64)
            .map_or_else(default_max_frame_bytes, |n| u32::try_from(n).unwrap()),
        submit_timeout_ms: v
            .get("submit_timeout_ms")
            .and_then(Value::as_u64)
            .unwrap_or_else(default_submit_timeout_ms),
        dry_run: v.get("dry_run").and_then(Value::as_bool).unwrap_or(false),
        notify: v.get("notify").and_then(Value::as_str).map(str::to_string),
        failback: v.get("failback").and_then(Value::as_bool).unwrap_or_else(default_failback),
        failback_delay_secs: v
            .get("failback_delay_secs")
            .and_then(Value::as_u64)
            .map_or_else(default_failback_delay_secs, |n| u32::try_from(n).unwrap()),
    })
}

fn parse_normalize(yaml: &str) -> Result<Config, String> {
    let mut c = read_config(yaml)?;
    c.normalize().map_err(|e| e.message())?;
    Ok(c)
}

const MINIMAL_YAML: &str = r#"
node_id: 1
raft_listen: "127.0.0.1:17101"
client_submit_listen: "127.0.0.1:17102"
cluster_secret: "test-secret"
peers:
  - id: 1
    raft_address: "127.0.0.1:17101"
    client_submit_address: "127.0.0.1:17102"
vips:
  - address: 10.0.0.1
    interface: lo
health:
  command: ["/bin/true"]
  interval_ms: 1000
  timeout_ms: 500
"#;

#[test]
fn minimal_config_loads() {
    let c = parse_normalize(MINIMAL_YAML).unwrap();
    assert_eq!(c.node_id, 1);
    assert_eq!(c.max_frame_bytes, DEFAULT_MAX_FRAME_BYTES);
    assert_eq!(c.submit_timeout_ms, DEFAULT_SUBMIT_TIMEOUT_MS);
    assert_eq!(c.cluster_secret.as_deref(), Some("test-secret"));
    assert_eq!(c.health.effective_stale_secs(), 3);
    assert_eq!(c.health.effective_stale_missed_probes(), 3);
}

#[test]
fn config_without_cluster_secret_is_rejected() {
    // Secure by default: loading a config with no shared secret fails closed.
    let yaml = MINIMAL_YAML.replace("cluster_secret: \"test-secret\"\n", "");
    let err = parse_normalize(&yaml).unwrap_err().to_string();
    assert!(err.contains("cluster_secret is required"), "{err}");
}

#[test]
fn vips_sorted_by_address_after_normalize() {
    let yaml = r#"
node_id: 2
raft_listen: "127.0.0.1:3"
client_submit_listen: "127.0.0.1:4"
cluster_secret: "test-secret"
peers:
  - id: 1
    raft_address: "127.0.0.1:1"
    client_submit_address: "127.0.0.1:2"
  - id: 2
    raft_address: "127.0.0.1:3"
    client_submit_address: "127.0.0.1:4"
vips:
  - address: 10.0.0.10
    interface: eth0
  - address: 10.0.0.2
    interface: eth0
  - address: 2001:db8::1
    interface: eth0
health:
  command: ["/bin/sh", "-c", "true"]
  interval_ms: 1000
  timeout_ms: 500
"#;
    let c = parse_normalize(yaml).unwrap();
    let addrs: Vec<IpAddr> = c.vips.iter().map(|v| v.address.addr).collect();
    assert_eq!(addrs.len(), 3);
    assert!(addrs[0] < addrs[1]);
    assert!(addrs[1] < addrs[2]);
    let sorted = c.sorted_vips();
    assert_eq!(sorted[0].0.addr, IpAddr::parse("10.0.0.2").unwrap());
    assert_eq!(sorted[1].0.addr, IpAddr::parse("10.0.0.10").unwrap());
    assert_eq!(sorted[2].0.addr, IpAddr::parse("2001:db8::1").unwrap());
}

#[test]
fn vip_address_parses_cidr_suffix() {
    let v = VipAddr::from_str("10.0.0.101/24").unwrap();
    assert_eq!(v.addr, IpAddr::parse("10.0.0.101").unwrap());
    assert_eq!(v.prefix, 24);
    let v6 = VipAddr::from_str("2001:db8::1/64").unwrap();
    assert_eq!(v6.prefix, 64);
}

#[test]
fn vip_address_defaults_to_host_prefix() {
    let v4 = VipAddr::from_str("10.0.0.101").unwrap();
    assert_eq!(v4.prefix, 32);
    let v6 = VipAddr::from_str("2001:db8::1").unwrap();
    assert_eq!(v6.prefix, 128);
}

#[test]
fn vip_address_rejects_out_of_range_prefix() {
    assert!(VipAddr::from_str("10.0.0.101/33").is_err());
    assert!(VipAddr::from_str("2001:db8::1/129").is_err());
    assert!(VipAddr::from_str("10.0.0.101/abc").is_err());
    assert!(VipAddr::from_str("not-an-ip/24").is_err());
}

#[test]
fn vip_cidr_suffix_flows_through_config() {
    let yaml = r#"
node_id: 1
raft_listen: "127.0.0.1:1"
client_submit_listen: "127.0.0.1:2"
cluster_secret: "test-secret"
peers:
  - id: 1
    raft_address: "127.0.0.1:1"
    client_submit_address: "127.0.0.1:2"
vips:
  - address: "10.0.0.101/24"
    interface: eth0
health:
  command: ["/bin/true"]
  interval_ms: 1000
  timeout_ms: 500
"#;
    let c = parse_normalize(yaml).unwrap();
    let sorted = c.sorted_vips();
    assert_eq!(sorted.len(), 1);
    assert_eq!(sorted[0].0.addr, IpAddr::parse("10.0.0.101").unwrap());
    assert_eq!(sorted[0].0.prefix, 24);
}

#[test]
fn vip_out_of_range_prefix_rejected_by_config() {
    let yaml = r#"
node_id: 1
raft_listen: "127.0.0.1:1"
client_submit_listen: "127.0.0.1:2"
cluster_secret: "test-secret"
peers:
  - id: 1
    raft_address: "127.0.0.1:1"
    client_submit_address: "127.0.0.1:2"
vips:
  - address: "10.0.0.101/33"
    interface: eth0
health:
  command: ["/bin/true"]
  interval_ms: 1000
  timeout_ms: 500
"#;
    assert!(parse_normalize(yaml).is_err());
}

#[test]
fn dedup_removes_duplicate_vip_addresses_keeping_one() {
    let yaml = r#"
node_id: 1
raft_listen: "127.0.0.1:1"
client_submit_listen: "127.0.0.1:2"
cluster_secret: "test-secret"
peers:
  - id: 1
    raft_address: "127.0.0.1:1"
    client_submit_address: "127.0.0.1:2"
vips:
  - address: 10.0.0.1
    interface: eth0
  - address: 10.0.0.1
    interface: eth0
health:
  command: ["/bin/true"]
  interval_ms: 1000
  timeout_ms: 500
"#;
    let c = parse_normalize(yaml).unwrap();
    assert_eq!(c.vips.len(), 1);
}

#[test]
fn empty_peers_rejected() {
    let yaml = r#"
node_id: 1
raft_listen: "127.0.0.1:1"
client_submit_listen: "127.0.0.1:2"
cluster_secret: "test-secret"
peers: []
vips:
  - address: 10.0.0.1
    interface: lo
health:
  command: ["/bin/true"]
  interval_ms: 1000
  timeout_ms: 500
"#;
    assert!(parse_normalize(yaml).is_err());
}

#[test]
fn duplicate_peer_ids_rejected() {
    let yaml = r#"
node_id: 1
raft_listen: "127.0.0.1:1"
client_submit_listen: "127.0.0.1:2"
cluster_secret: "test-secret"
peers:
  - id: 1
    raft_address: "127.0.0.1:1"
    client_submit_address: "127.0.0.1:2"
  - id: 1
    raft_address: "127.0.0.1:3"
    client_submit_address: "127.0.0.1:4"
vips:
  - address: 10.0.0.1
    interface: lo
health:
  command: ["/bin/true"]
  interval_ms: 1000
  timeout_ms: 500
"#;
    assert!(parse_normalize(yaml).is_err());
}

#[test]
fn node_id_must_be_listed_as_peer() {
    let yaml = r#"
node_id: 9
raft_listen: "127.0.0.1:9"
client_submit_listen: "127.0.0.1:10"
cluster_secret: "test-secret"
peers:
  - id: 1
    raft_address: "127.0.0.1:1"
    client_submit_address: "127.0.0.1:2"
vips:
  - address: 10.0.0.1
    interface: lo
health:
  command: ["/bin/true"]
  interval_ms: 1000
  timeout_ms: 500
"#;
    assert!(parse_normalize(yaml).is_err());
}

#[test]
fn empty_health_command_rejected() {
    let yaml = r#"
node_id: 1
raft_listen: "127.0.0.1:1"
client_submit_listen: "127.0.0.1:2"
cluster_secret: "test-secret"
peers:
  - id: 1
    raft_address: "127.0.0.1:1"
    client_submit_address: "127.0.0.1:2"
vips:
  - address: 10.0.0.1
    interface: lo
health:
  command: []
  interval_ms: 1000
  timeout_ms: 500
"#;
    assert!(parse_normalize(yaml).is_err());
}

#[test]
fn empty_vips_rejected() {
    let yaml = r#"
node_id: 1
raft_listen: "127.0.0.1:1"
client_submit_listen: "127.0.0.1:2"
cluster_secret: "test-secret"
peers:
  - id: 1
    raft_address: "127.0.0.1:1"
    client_submit_address: "127.0.0.1:2"
vips: []
health:
  command: ["/bin/true"]
  interval_ms: 1000
  timeout_ms: 500
"#;
    assert!(parse_normalize(yaml).is_err());
}

#[test]
fn empty_cluster_secret_rejected() {
    let yaml = r#"
node_id: 1
raft_listen: "127.0.0.1:1"
client_submit_listen: "127.0.0.1:2"
cluster_secret: "test-secret"
peers:
  - id: 1
    raft_address: "127.0.0.1:1"
    client_submit_address: "127.0.0.1:2"
vips:
  - address: 10.0.0.1
    interface: lo
health:
  command: ["/bin/true"]
  interval_ms: 1000
  timeout_ms: 500
cluster_secret: ""
"#;
    assert!(parse_normalize(yaml).is_err());
}

#[test]
fn small_max_frame_rejected() {
    let yaml = r#"
node_id: 1
raft_listen: "127.0.0.1:1"
client_submit_listen: "127.0.0.1:2"
cluster_secret: "test-secret"
peers:
  - id: 1
    raft_address: "127.0.0.1:1"
    client_submit_address: "127.0.0.1:2"
vips:
  - address: 10.0.0.1
    interface: lo
health:
  command: ["/bin/true"]
  interval_ms: 1000
  timeout_ms: 500
max_frame_bytes: 1024
"#;
    assert!(parse_normalize(yaml).is_err());
}

#[test]
fn stale_secs_smaller_than_interval_rejected() {
    let yaml = r#"
node_id: 1
raft_listen: "127.0.0.1:1"
client_submit_listen: "127.0.0.1:2"
cluster_secret: "test-secret"
peers:
  - id: 1
    raft_address: "127.0.0.1:1"
    client_submit_address: "127.0.0.1:2"
vips:
  - address: 10.0.0.1
    interface: lo
health:
  command: ["/bin/true"]
  interval_ms: 5000
  timeout_ms: 500
  stale_secs: 1
"#;
    assert!(parse_normalize(yaml).is_err());
}

#[test]
fn raft_listen_must_match_local_peer_raft_address() {
    let yaml = r#"
node_id: 1
raft_listen: "127.0.0.1:17099"
client_submit_listen: "127.0.0.1:17102"
cluster_secret: "test-secret"
peers:
  - id: 1
    raft_address: "127.0.0.1:17101"
    client_submit_address: "127.0.0.1:17102"
vips:
  - address: 10.0.0.1
    interface: lo
health:
  command: ["/bin/true"]
  interval_ms: 1000
  timeout_ms: 500
"#;
    let err = parse_normalize(yaml).unwrap_err();
    assert!(err.to_string().contains("raft_listen"));
}

#[test]
fn client_submit_listen_must_match_local_peer_submit_address() {
    let yaml = r#"
node_id: 1
raft_listen: "127.0.0.1:17101"
client_submit_listen: "127.0.0.1:17099"
cluster_secret: "test-secret"
peers:
  - id: 1
    raft_address: "127.0.0.1:17101"
    client_submit_address: "127.0.0.1:17102"
vips:
  - address: 10.0.0.1
    interface: lo
health:
  command: ["/bin/true"]
  interval_ms: 1000
  timeout_ms: 500
"#;
    let err = parse_normalize(yaml).unwrap_err();
    assert!(err.to_string().contains("client_submit_listen"));
}

#[test]
fn peer_addresses_must_be_valid_socket_addresses() {
    let yaml = r#"
node_id: 1
raft_listen: "127.0.0.1:17101"
client_submit_listen: "127.0.0.1:17102"
cluster_secret: "test-secret"
peers:
  - id: 1
    raft_address: "not-an-addr"
    client_submit_address: "127.0.0.1:17102"
vips:
  - address: 10.0.0.1
    interface: lo
health:
  command: ["/bin/true"]
  interval_ms: 1000
  timeout_ms: 500
"#;
    let err = parse_normalize(yaml).unwrap_err();
    assert!(err.to_string().contains("peers[1].raft_address"));
}

#[test]
fn peer_addresses_must_not_use_unspecified_ip() {
    let yaml = r#"
node_id: 1
raft_listen: "0.0.0.0:17101"
client_submit_listen: "0.0.0.0:17102"
cluster_secret: "test-secret"
peers:
  - id: 1
    raft_address: "0.0.0.0:17101"
    client_submit_address: "0.0.0.0:17102"
vips:
  - address: 10.0.0.1
    interface: lo
health:
  command: ["/bin/true"]
  interval_ms: 1000
  timeout_ms: 500
"#;
    let err = parse_normalize(yaml).unwrap_err();
    assert!(err.to_string().contains("must not use an unspecified IP"));
}

#[test]
fn get_peer_other_peers() {
    let c = parse_normalize(MINIMAL_YAML).unwrap();
    assert_eq!(c.get_peer(1).map(|p| p.id), Some(1));
    assert!(c.get_peer(2).is_none());
    let others: Vec<u64> = c.other_peers().into_iter().map(|p| p.id).collect();
    assert!(others.is_empty());
}

fn hc(interval_ms: u64, stale_secs: Option<u64>) -> HealthConfig {
    HealthConfig {
        command: vec!["/bin/true".into()],
        interval_ms,
        timeout_ms: 1,
        stale_secs,
    }
}

#[test]
fn effective_stale_window_heuristics() {
    // Default heuristic: max(3, ceil(interval_ms/1000) * 3) seconds, at least one probe round.
    assert_eq!(hc(1, None).effective_stale_secs(), 3);
    assert_eq!(hc(1, None).effective_stale_missed_probes(), 3);
    assert_eq!(hc(1000, None).effective_stale_secs(), 3);
    assert_eq!(hc(1000, None).effective_stale_missed_probes(), 3);
    assert_eq!(hc(2000, None).effective_stale_secs(), 6);
    assert_eq!(hc(2000, None).effective_stale_missed_probes(), 3);
    assert_eq!(hc(5000, None).effective_stale_secs(), 15);
    assert_eq!(hc(5000, None).effective_stale_missed_probes(), 3);
    // Explicit override is honored and converted to whole missed rounds (ceil).
    assert_eq!(hc(1000, Some(10)).effective_stale_secs(), 10);
    assert_eq!(hc(1000, Some(10)).effective_stale_missed_probes(), 10);
    assert_eq!(hc(3000, Some(10)).effective_stale_missed_probes(), 4);
}

#[test]
fn vip_address_accepts_prefix_zero_and_host_max() {
    assert_eq!(VipAddr::from_str("10.0.0.0/0").unwrap().prefix, 0);
    assert_eq!(VipAddr::from_str("10.0.0.1/32").unwrap().prefix, 32);
    assert_eq!(VipAddr::from_str("::/0").unwrap().prefix, 0);
    assert_eq!(
        VipAddr::from_str("2001:db8::1/128").unwrap().prefix,
        128
    );
}

#[test]
fn dedup_by_address_ignores_prefix_and_keeps_first_after_sort() {
    let yaml = r#"
node_id: 1
raft_listen: "127.0.0.1:1"
client_submit_listen: "127.0.0.1:2"
cluster_secret: "test-secret"
peers:
  - id: 1
    raft_address: "127.0.0.1:1"
    client_submit_address: "127.0.0.1:2"
vips:
  - address: "10.0.0.1/24"
    interface: eth0
  - address: "10.0.0.1/32"
    interface: eth0
  - address: "2001:db8::1"
    interface: eth0
health:
  command: ["/bin/true"]
  interval_ms: 1000
  timeout_ms: 500
"#;
    let c = parse_normalize(yaml).unwrap();
    let sorted = c.sorted_vips();
    // Same address with different prefixes collapses to a single VIP (consensus keys on addr).
    assert_eq!(sorted.len(), 2);
    assert_eq!(sorted[0].0.addr, IpAddr::parse("10.0.0.1").unwrap());
    // dedup keeps the first entry encountered after the stable sort (the /24).
    assert_eq!(sorted[0].0.prefix, 24);
    assert_eq!(sorted[1].0.addr, IpAddr::parse("2001:db8::1").unwrap());
}

fn yaml_with_secret(secret: &str) -> String {
    format!(
        r#"
node_id: 1
raft_listen: "127.0.0.1:1"
client_submit_listen: "127.0.0.1:2"
peers:
  - id: 1
    raft_address: "127.0.0.1:1"
    client_submit_address: "127.0.0.1:2"
vips:
  - address: 10.0.0.1
    interface: lo
health:
  command: ["/bin/true"]
  interval_ms: 1000
  timeout_ms: 500
cluster_secret: "{secret}"
"#
    )
}

#[test]
fn cluster_secret_length_boundary() {
    // Exactly 256 bytes is accepted; 257 is rejected.
    let ok = "a".repeat(256);
    let c = parse_normalize(&yaml_with_secret(&ok)).unwrap();
    assert_eq!(c.cluster_secret.as_deref(), Some(ok.as_str()));
    let too_long = "a".repeat(257);
    assert!(parse_normalize(&yaml_with_secret(&too_long)).is_err());
}

#[test]
fn timeout_far_larger_than_interval_rejected() {
    let yaml = r#"
node_id: 1
raft_listen: "127.0.0.1:1"
client_submit_listen: "127.0.0.1:2"
cluster_secret: "test-secret"
peers:
  - id: 1
    raft_address: "127.0.0.1:1"
    client_submit_address: "127.0.0.1:2"
vips:
  - address: 10.0.0.1
    interface: lo
health:
  command: ["/bin/true"]
  interval_ms: 1000
  timeout_ms: 10001
"#;
    assert!(parse_normalize(yaml).is_err());
}

#[test]
fn submit_timeout_zero_rejected() {
    let yaml = r#"
node_id: 1
raft_listen: "127.0.0.1:1"
client_submit_listen: "127.0.0.1:2"
cluster_secret: "test-secret"
peers:
  - id: 1
    raft_address: "127.0.0.1:1"
    client_submit_address: "127.0.0.1:2"
vips:
  - address: 10.0.0.1
    interface: lo
health:
  command: ["/bin/true"]
  interval_ms: 1000
  timeout_ms: 500
submit_timeout_ms: 0
"#;
    assert!(parse_normalize(yaml).is_err());
}

#[test]
fn vip_addr_display_and_string_conversion() {
    let v = VipAddr::from_str("10.0.0.5/24").unwrap();
    assert_eq!(v.to_string(), "10.0.0.5/24");
    let host = VipAddr::from_str("10.0.0.5").unwrap();
    assert_eq!(host.to_string(), "10.0.0.5/32");
    let s: String = host.to_string();
    assert_eq!(s, "10.0.0.5/32");
}

#[test]
fn peer_raft_and_submit_address_must_differ() {
    let yaml = r#"
node_id: 1
raft_listen: "127.0.0.1:1"
client_submit_listen: "127.0.0.1:1"
cluster_secret: "test-secret"
peers:
  - id: 1
    raft_address: "127.0.0.1:1"
    client_submit_address: "127.0.0.1:1"
vips:
  - address: 10.0.0.1
    interface: lo
health:
  command: ["/bin/true"]
  interval_ms: 1000
  timeout_ms: 500
"#;
    let err = parse_normalize(yaml).unwrap_err();
    assert!(err.to_string().contains("must differ"));
}

fn vlan_yaml(vlan_line: &str) -> String {
    format!(
        r#"
node_id: 1
raft_listen: "127.0.0.1:1"
client_submit_listen: "127.0.0.1:2"
cluster_secret: "test-secret"
peers:
  - id: 1
    raft_address: "127.0.0.1:1"
    client_submit_address: "127.0.0.1:2"
vips:
  - address: "10.0.0.101/24"
    interface: eth0
    {vlan_line}
health:
  command: ["/bin/true"]
  interval_ms: 1000
  timeout_ms: 500
"#
    )
}

#[test]
fn vlan_field_absent_preserves_interface() {
    let c = parse_normalize(&vlan_yaml("")).unwrap();
    assert_eq!(c.sorted_vips()[0].1, "eth0");
}

#[test]
fn vlan_field_produces_effective_subinterface() {
    let c = parse_normalize(&vlan_yaml("vlan: 100")).unwrap();
    assert_eq!(c.sorted_vips()[0].1, "eth0.100");
}

#[test]
fn vlan_boundary_1_accepted() {
    let c = parse_normalize(&vlan_yaml("vlan: 1")).unwrap();
    assert_eq!(c.sorted_vips()[0].1, "eth0.1");
}

#[test]
fn vlan_boundary_4094_accepted() {
    let c = parse_normalize(&vlan_yaml("vlan: 4094")).unwrap();
    assert_eq!(c.sorted_vips()[0].1, "eth0.4094");
}

#[test]
fn vlan_zero_rejected() {
    let err = parse_normalize(&vlan_yaml("vlan: 0")).unwrap_err();
    let msg = err.to_string();
    assert!(msg.contains("out of range"), "{err}");
    assert!(msg.contains("10.0.0.101"), "{err}");
}

#[test]
fn vlan_4095_rejected() {
    let err = parse_normalize(&vlan_yaml("vlan: 4095")).unwrap_err();
    let msg = err.to_string();
    assert!(msg.contains("out of range"), "{err}");
    assert!(msg.contains("10.0.0.101"), "{err}");
}

#[test]
fn vlan_interface_with_dot_rejected() {
    let yaml = r#"
node_id: 1
raft_listen: "127.0.0.1:1"
client_submit_listen: "127.0.0.1:2"
cluster_secret: "test-secret"
peers:
  - id: 1
    raft_address: "127.0.0.1:1"
    client_submit_address: "127.0.0.1:2"
vips:
  - address: "10.0.0.101/24"
    interface: eth0.10
    vlan: 100
health:
  command: ["/bin/true"]
  interval_ms: 1000
  timeout_ms: 500
"#;
    let err = parse_normalize(yaml).unwrap_err();
    let msg = err.to_string();
    assert!(msg.contains("must not contain a dot"), "{err}");
    assert!(msg.contains("eth0.10"), "{err}");
}

#[test]
fn vlan_deduped_invalid_entry_does_not_block_startup() {
    // Two VIPs with the same IP: the first (vlan:100, valid) wins the stable sort and
    // survives dedup; the second (vlan:0, invalid) is deduplicated away before validation.
    let yaml = r#"
node_id: 1
raft_listen: "127.0.0.1:1"
client_submit_listen: "127.0.0.1:2"
cluster_secret: "test-secret"
peers:
  - id: 1
    raft_address: "127.0.0.1:1"
    client_submit_address: "127.0.0.1:2"
vips:
  - address: "10.0.0.1"
    interface: eth0
    vlan: 100
  - address: "10.0.0.1"
    interface: eth0
    vlan: 0
health:
  command: ["/bin/true"]
  interval_ms: 1000
  timeout_ms: 500
"#;
    let c = parse_normalize(yaml).unwrap();
    assert_eq!(c.vips.len(), 1);
    assert_eq!(c.vips[0].vlan, Some(100));
}

#[test]
fn vlan_flows_through_sorted_vips_without_regression_on_no_vlan() {
    // Mix: one VLAN VIP, one plain VIP.
    let yaml = r#"
node_id: 1
raft_listen: "127.0.0.1:1"
client_submit_listen: "127.0.0.1:2"
cluster_secret: "test-secret"
peers:
  - id: 1
    raft_address: "127.0.0.1:1"
    client_submit_address: "127.0.0.1:2"
vips:
  - address: "10.0.0.10"
    interface: eth0
    vlan: 200
  - address: "10.0.0.1"
    interface: eth1
health:
  command: ["/bin/true"]
  interval_ms: 1000
  timeout_ms: 500
"#;
    let c = parse_normalize(yaml).unwrap();
    let sorted = c.sorted_vips();
    // After sort: 10.0.0.1 first, 10.0.0.10 second.
    assert_eq!(sorted[0].1, "eth1");
    assert_eq!(sorted[1].1, "eth0.200");
}

#[test]
fn failback_defaults_to_true_and_delay_to_10() {
    let c = parse_normalize(MINIMAL_YAML).unwrap();
    assert!(c.failback, "failback must default to true (preempt)");
    assert_eq!(c.failback_delay_secs, 10);
}

#[test]
fn failback_false_parses_and_loads() {
    let yaml = r#"
node_id: 1
raft_listen: "127.0.0.1:1"
client_submit_listen: "127.0.0.1:2"
cluster_secret: "test-secret"
peers:
  - id: 1
    raft_address: "127.0.0.1:1"
    client_submit_address: "127.0.0.1:2"
vips:
  - address: 10.0.0.1
    interface: lo
health:
  command: ["/bin/true"]
  interval_ms: 1000
  timeout_ms: 500
failback: false
"#;
    let c = parse_normalize(yaml).unwrap();
    assert!(!c.failback);
    assert_eq!(c.failback_delay_secs, 10); // default still applied
}

#[test]
fn failback_delay_secs_zero_parses() {
    let yaml = r#"
node_id: 1
raft_listen: "127.0.0.1:1"
client_submit_listen: "127.0.0.1:2"
cluster_secret: "test-secret"
peers:
  - id: 1
    raft_address: "127.0.0.1:1"
    client_submit_address: "127.0.0.1:2"
vips:
  - address: 10.0.0.1
    interface: lo
health:
  command: ["/bin/true"]
  interval_ms: 1000
  timeout_ms: 500
failback_delay_secs: 0
"#;
    let c = parse_normalize(yaml).unwrap();
    assert_eq!(c.failback_delay_secs, 0);
    assert_eq!(c.effective_failback_delay_ticks(), 0);
}

#[test]
fn effective_failback_delay_ticks_converts_seconds_to_probe_rounds() {
    // interval_ms=1000 → interval_secs=1 → delay_ticks = ceil(10/1) = 10
    let yaml = r#"
node_id: 1
raft_listen: "127.0.0.1:1"
client_submit_listen: "127.0.0.1:2"
cluster_secret: "test-secret"
peers:
  - id: 1
    raft_address: "127.0.0.1:1"
    client_submit_address: "127.0.0.1:2"
vips:
  - address: 10.0.0.1
    interface: lo
health:
  command: ["/bin/true"]
  interval_ms: 1000
  timeout_ms: 500
failback_delay_secs: 10
"#;
    let c = parse_normalize(yaml).unwrap();
    assert_eq!(c.effective_failback_delay_ticks(), 10);

    // interval_ms=3000 → interval_secs=3 → delay_ticks = ceil(10/3) = 4
    let yaml2 = r#"
node_id: 1
raft_listen: "127.0.0.1:1"
client_submit_listen: "127.0.0.1:2"
cluster_secret: "test-secret"
peers:
  - id: 1
    raft_address: "127.0.0.1:1"
    client_submit_address: "127.0.0.1:2"
vips:
  - address: 10.0.0.1
    interface: lo
health:
  command: ["/bin/true"]
  interval_ms: 3000
  timeout_ms: 500
failback_delay_secs: 10
"#;
    let c2 = parse_normalize(yaml2).unwrap();
    assert_eq!(c2.effective_failback_delay_ticks(), 4);

    // interval_ms=500 (<1s) → interval_secs=1 → delay_ticks = ceil(5/1) = 5
    let yaml3 = r#"
node_id: 1
raft_listen: "127.0.0.1:1"
client_submit_listen: "127.0.0.1:2"
cluster_secret: "test-secret"
peers:
  - id: 1
    raft_address: "127.0.0.1:1"
    client_submit_address: "127.0.0.1:2"
vips:
  - address: 10.0.0.1
    interface: lo
health:
  command: ["/bin/true"]
  interval_ms: 500
  timeout_ms: 500
failback_delay_secs: 5
"#;
    let c3 = parse_normalize(yaml3).unwrap();
    assert_eq!(c3.effective_failback_delay_ticks(), 5);
}

fn plain_config() -> Config {
    read_config(MINIMAL_YAML).unwrap()
}

fn refusal(c: &mut Config) -> ConfigError {
    c.normalize().unwrap_err()
}

#[test]
fn defaults_are_as_documented() {
    assert_eq!(default_max_frame_bytes(), 4 * 1024 * 1024);
    assert_eq!(default_submit_timeout_ms(), 2_000);
    assert!(default_failback());
    assert_eq!(default_failback_delay_secs(), 10);
    let tune = RaftTuneConfig::default();
    assert_eq!(
        (tune.election_timeout_min_ms, tune.election_timeout_max_ms, tune.heartbeat_interval_ms),
        (400, 800, 250)
    );
}

#[test]
fn every_refusal_says_why() {
    let mut c = plain_config();
    c.peers.clear();
    assert_eq!(refusal(&mut c).message(), "peers must be non-empty");

    let mut c = plain_config();
    c.vips.clear();
    assert_eq!(refusal(&mut c).message(), "vips must be non-empty");

    let mut c = plain_config();
    c.cluster_secret = Some(String::new());
    assert_eq!(refusal(&mut c).message(), "cluster_secret is required and must be non-empty");

    let mut c = plain_config();
    c.health.command.clear();
    assert_eq!(refusal(&mut c).message(), "health.command must be non-empty");

    let mut c = plain_config();
    c.health.interval_ms = 0;
    assert_eq!(refusal(&mut c).message(), "health.interval_ms must be > 0");

    let mut c = plain_config();
    c.health.timeout_ms = 0;
    assert_eq!(refusal(&mut c).message(), "health.timeout_ms must be > 0");

    let mut c = plain_config();
    c.health.timeout_ms = 10_001;
    assert_eq!(refusal(&mut c).message(), "health.timeout_ms suspiciously large vs interval_ms");
    c.health.timeout_ms = 10_000;
    assert!(c.normalize().is_ok());

    let mut c = plain_config();
    c.peers.push(PeerConfig {
        id: 1,
        raft_address: "127.0.0.1:3".to_string(),
        client_submit_address: "127.0.0.1:4".to_string(),
    });
    assert_eq!(refusal(&mut c).message(), "duplicate peer id");

    let mut c = plain_config();
    c.node_id = 7;
    assert_eq!(refusal(&mut c).message(), "node_id must appear in peers");

    let mut c = plain_config();
    c.raft_listen = "localhost:1".to_string();
    assert!(matches!(refusal(&mut c), ConfigError::BadAddress { field: AddressField::RaftListen, .. }));

    let mut c = plain_config();
    c.client_submit_listen = "127.0.0.1".to_string();
    assert_eq!(
        refusal(&mut c).message(),
        "client_submit_listen must be a valid IP:port socket address (got 127.0.0.1)"
    );

    let mut c = plain_config();
    c.peers[0].raft_address = "nowhere".to_string();
    assert_eq!(
        refusal(&mut c).message(),
        "peers[1].raft_address must be a valid IP:port socket address (got nowhere)"
    );

    let mut c = plain_config();
    c.peers[0].client_submit_address = "0.0.0.0:17102".to_string();
    assert_eq!(
        refusal(&mut c).message(),
        "peers[1].client_submit_address must not use an unspecified IP (0.0.0.0:17102)"
    );

    let mut c = plain_config();
    c.peers[0].client_submit_address = c.peers[0].raft_address.clone();
    assert_eq!(
        refusal(&mut c).message(),
        "peer 1 raft_address and client_submit_address must differ"
    );

    let mut c = plain_config();
    c.raft_listen = "127.0.0.1:5".to_string();
    assert_eq!(
        refusal(&mut c).message(),
        "raft_listen 127.0.0.1:5 must match peers[1].raft_address 127.0.0.1:17101"
    );

    let mut c = plain_config();
    c.client_submit_listen = "127.0.0.1:6".to_string();
    assert_eq!(
        refusal(&mut c).message(),
        "client_submit_listen 127.0.0.1:6 must match peers[1].client_submit_address 127.0.0.1:17102"
    );

    let mut c = plain_config();
    c.cluster_secret = Some("x".repeat(257));
    assert_eq!(refusal(&mut c).message(), "cluster_secret must be at most 256 bytes");

    let mut c = plain_config();
    c.max_frame_bytes = 64 * 1024 - 1;
    assert_eq!(refusal(&mut c).message(), "max_frame_bytes must be >= 64 KiB to fit Raft heartbeats");

    let mut c = plain_config();
    c.submit_timeout_ms = 0;
    assert_eq!(refusal(&mut c).message(), "submit_timeout_ms must be > 0");

    let mut c = plain_config();
    c.vips[0].vlan = Some(4095);
    assert_eq!(
        refusal(&mut c).message(),
        "vips[0] (10.0.0.1/32): vlan 4095 is out of range: IEEE 802.1Q allows 1\u{2013}4094"
    );

    let mut c = plain_config();
    c.vips[0].vlan = Some(10);
    c.vips[0].interface = "eth0.10".to_string();
    assert_eq!(
        refusal(&mut c).message(),
        "vips[0] (10.0.0.1/32): interface \"eth0.10\" must not contain a dot when vlan is set; \
         use the base interface name (e.g. \"eth0\", not \"eth0.10\")"
    );
}

#[test]
fn a_secret_is_measured_in_bytes() {
    let mut c = plain_config();
    c.cluster_secret = Some("\u{e4}".repeat(128));
    assert!(c.normalize().is_ok());
    c.cluster_secret = Some("\u{e4}".repeat(129));
    assert!(matches!(c.normalize(), Err(ConfigError::SecretTooLong)));
}

#[test]
fn stale_window_must_exceed_the_probe_interval() {
    let mut c = plain_config();
    c.health.interval_ms = 2_000;
    c.health.stale_secs = Some(2);
    let err = refusal(&mut c);
    assert!(matches!(err, ConfigError::StaleTooSmall { stale_secs: 2, interval_ms: 2_000 }));
    assert_eq!(err.message(), "health.stale_secs (2) must be > interval_ms/1000 (2000/1000)");
    c.health.stale_secs = Some(3);
    assert!(c.normalize().is_ok());
    c.health.interval_ms = 1_999;
    c.health.stale_secs = Some(2);
    assert!(c.normalize().is_ok());
}

#[test]
fn vip_text_is_read_back() {
    for text in ["10.0.0.101/24", "0.0.0.0/0", "2001:db8::1/64", "::/0", "::ffff:1.2.3.4/128"] {
        assert_eq!(VipAddr::from_str(text).unwrap().to_string(), text);
    }
    assert_eq!(VipAddr::from_str("10.0.0.1/+8").unwrap().prefix, 8);
}

#[test]
fn vip_errors_say_what_was_read() {
    let err = VipAddr::from_str("not\"ip/24").unwrap_err();
    assert!(matches!(err, VipAddrError::Address { .. }));
    assert_eq!(err.message(), "vip address \"not\\\"ip\" is not a valid IP");
    let err = VipAddr::from_str("10.0.0.1/").unwrap_err();
    assert!(matches!(err, VipAddrError::Prefix { .. }));
    assert_eq!(err.message(), "vip prefix \"\" is not a valid prefix length");
    assert!(matches!(VipAddr::from_str("10.0.0.1/256"), Err(VipAddrError::Prefix { .. })));
    assert!(matches!(VipAddr::from_str("10.0.0.1/8/9"), Err(VipAddrError::Prefix { .. })));
    let err = VipAddr::from_str("10.0.0.101/33").unwrap_err();
    assert!(matches!(err, VipAddrError::Range { prefix: 33, .. }));
    assert_eq!(err.message(), "vip prefix /33 out of range for 10.0.0.101 (max /32)");
    assert_eq!(
        VipAddr::from_str("2001:db8::1/129").unwrap_err().message(),
        "vip prefix /129 out of range for 2001:db8::1 (max /128)"
    );
}

#[test]
fn normalizing_twice_changes_nothing() {
    let mut c = plain_config();
    for text in ["10.0.0.9/24", "10.0.0.3", "10.0.0.9/25", "10.0.0.1/30"] {
        c.vips.push(VipConfig {
            address: VipAddr::from_str(text).unwrap(),
            interface: "eth0".to_string(),
            vlan: None,
        });
    }
    c.normalize().unwrap();
    let once = c.sorted_vips();
    let texts: Vec<String> = once.iter().map(|(v, _)| v.to_string()).collect();
    assert_eq!(texts, ["10.0.0.1/32", "10.0.0.3/32", "10.0.0.9/24"]);
    c.normalize().unwrap();
    assert_eq!(c.sorted_vips(), once);
}

#[test]
fn failback_delay_is_rounded_up_to_probe_rounds() {
    let mut c = plain_config();
    c.failback_delay_secs = 10;
    c.health.interval_ms = 3_000;
    assert_eq!(c.effective_failback_delay_ticks(), 4);
    c.health.interval_ms = 1;
    assert_eq!(c.effective_failback_delay_ticks(), 10);
    c.failback_delay_secs = 0;
    assert_eq!(c.effective_failback_delay_ticks(), 0);
}

#[test]
fn stale_window_in_probe_rounds_is_at_least_one() {
    let health = |interval_ms: u64, stale_secs: Option<u64>| HealthConfig {
        command: vec!["/bin/true".to_string()],
        interval_ms,
        timeout_ms: 1,
        stale_secs,
    };
    assert_eq!(health(1_500, None).effective_stale_secs(), 6);
    assert_eq!(health(1_500, Some(7)).effective_stale_missed_probes(), 4);
    assert_eq!(health(60_000, Some(1)).effective_stale_missed_probes(), 1);
    assert_eq!(health(u64::MAX, None).effective_stale_secs(), 18_446_744_073_709_552 * 3);
}

#[test]
fn addresses_are_read_and_written_like_the_standard_forms() {
    for (text, written) in [
        ("10.0.0.1", "10.0.0.1"),
        ("255.255.255.255", "255.255.255.255"),
        ("::", "::"),
        ("::1", "::1"),
        ("2001:DB8:0:0:0:0:0:1", "2001:db8::1"),
        ("2001:0:0:1:0:0:0:1", "2001:0:0:1::1"),
        ("1:0:2:0:3:0:4:0", "1:0:2:0:3:0:4:0"),
        ("::ffff:192.168.0.1", "::ffff:192.168.0.1"),
        ("::ffff:c0a8:1", "::ffff:192.168.0.1"),
        ("64:ff9b::1.2.3.4", "64:ff9b::102:304"),
        ("fe80::", "fe80::"),
    ] {
        assert_eq!(IpAddr::parse(text).unwrap_or_else(|| panic!("{text}")).to_string(), written);
    }
    for text in [
        "", "1.2.3", "1.2.3.4.5", "256.0.0.1", "01.2.3.4", "1.2.3.4 ", ":::", "1::2::3", "12345::",
        "1:2:3:4:5:6:7", "1:2:3:4:5:6:7:8:9", "g::", "::1.2.3", "1.2.3.4::",
    ] {
        assert!(IpAddr::parse(text).is_none(), "{text}");
    }
    assert!(IpAddr::parse("::").unwrap().is_unspecified());
    assert!(IpAddr::parse("0.0.0.0").unwrap().is_unspecified());
    assert!(!IpAddr::parse("0.0.0.1").unwrap().is_unspecified());
    assert!(IpAddr::parse("9.9.9.9").unwrap() < IpAddr::parse("10.0.0.0").unwrap());
    assert!(IpAddr::parse("255.255.255.255").unwrap() < IpAddr::parse("::").unwrap());
}

#[test]
fn socket_addresses_carry_a_port() {
    let v4 = SocketAddr::parse("127.0.0.1:8080").unwrap();
    assert_eq!((v4.ip.to_string(), v4.port), ("127.0.0.1".to_string(), 8080));
    let v6 = SocketAddr::parse("[2001:db8::1]:65535").unwrap();
    assert_eq!((v6.ip.to_string(), v6.port), ("2001:db8::1".to_string(), 65535));
    assert_ne!(SocketAddr::parse("[fe80::1%1]:80"), SocketAddr::parse("[fe80::1%2]:80"));
    for text in ["127.0.0.1", "127.0.0.1:", "127.0.0.1:65536", "::1:80", "[::1]", "[127.0.0.1]:1", "a:1"] {
        assert!(SocketAddr::parse(text).is_none(), "{text}");
    }
}
