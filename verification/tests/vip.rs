use keepafloatd::addr::IpAddr;
use keepafloatd::config::VipAddr;
use keepafloatd::ordmap::{AddrMap, OrdMap};
use keepafloatd::raft::store::state::{KafStorageState, VipAssignment};
use keepafloatd::raft::store::state_machine::KafStateMachine;
use keepafloatd::raft::types::{Entry, EntryPayload, KafRequest, LogId, Membership};
use keepafloatd::vip::{
    forget_release, notify_args, plan, reconcile_finish, reconcile_start, release_notify_state,
    release_published, release_to_publish, should_publish_release, transition, wants_bind, LocalVip,
    VipPlan, VipState,
};

fn ip4(a: u8, b: u8, c: u8, d: u8) -> IpAddr {
    IpAddr::V4(u32::from_be_bytes([a, b, c, d]))
}

fn acks(entries: &[(IpAddr, u64)]) -> AddrMap<u64> {
    let mut map = OrdMap::new();
    for (vip, generation) in entries {
        map.insert(*vip, *generation);
    }
    map
}

fn handoff(previous_holder: Option<u64>, released: bool, generation: u64) -> VipAssignment {
    VipAssignment {
        holder: 2,
        generation,
        previous_holder,
        previous_holder_released: released,
        activation_tick: 0,
    }
}

#[test]
fn should_publish_release_only_when_this_node_owes_a_fresh_ack() {
    let vip = ip4(10, 0, 0, 1);
    let empty = acks(&[]);
    // This node is the previous holder, not yet released, no prior ack: owes one.
    assert!(should_publish_release(
        &handoff(Some(1), false, 4),
        1,
        vip,
        &empty
    ));
    // Some other node is the previous holder: nothing owed here.
    assert!(!should_publish_release(
        &handoff(Some(9), false, 4),
        1,
        vip,
        &empty
    ));
    // No previous holder (first assignment): nothing to release.
    assert!(!should_publish_release(
        &handoff(None, false, 4),
        1,
        vip,
        &empty
    ));
    // Already released in committed state: nothing owed.
    assert!(!should_publish_release(
        &handoff(Some(1), true, 4),
        1,
        vip,
        &empty
    ));
}

#[test]
fn should_publish_release_dedups_by_generation() {
    let vip = ip4(10, 0, 0, 1);
    // Already acked this exact generation: do not resubmit.
    let acked_same = acks(&[(vip, 4)]);
    assert!(!should_publish_release(
        &handoff(Some(1), false, 4),
        1,
        vip,
        &acked_same
    ));
    // Acked an older generation; a new handoff (gen 5) still owes an ack.
    let acked_old = acks(&[(vip, 4)]);
    assert!(should_publish_release(
        &handoff(Some(1), false, 5),
        1,
        vip,
        &acked_old
    ));
}

#[test]
fn dry_run_bind_is_idempotent_and_tracks_bound() {
    let mut vip = LocalVip::new(true);
    let ip = ip4(10, 0, 0, 1);
    let _ = vip.bind("lo", ip, 32);
    assert!(vip.is_bound(ip));
    // Second bind of the same address is a no-op and stays Ok.
    let _ = vip.bind("lo", ip, 32);
    assert_eq!(vip.bound_addrs().len(), 1);
}

#[test]
fn dry_run_unbind_only_removes_known_addresses() {
    let mut vip = LocalVip::new(true);
    let ip = ip4(10, 0, 0, 1);
    // Unbinding an address we never bound is a safe no-op.
    let _ = vip.unbind("lo", ip, 32);
    assert!(vip.bound_addrs().is_empty());
    // Bind then unbind clears it.
    let _ = vip.bind("lo", ip, 32);
    let _ = vip.unbind("lo", ip, 32);
    assert!(vip.bound_addrs().is_empty());
}

#[test]
fn dry_run_unbind_all_clears_every_bound_address() {
    let mut vip = LocalVip::new(true);
    let table = vec![
        (VipAddr::host(ip4(10, 0, 0, 1)), "lo".to_string()),
        (VipAddr::host(ip4(10, 0, 0, 2)), "lo".to_string()),
    ];
    for (v, iface) in &table {
        let _ = vip.bind(iface, v.addr, v.prefix);
    }
    assert_eq!(vip.bound_addrs().len(), 2);
    assert!(vip.unbind_all(&table, 0).is_none());
    assert!(vip.bound_addrs().is_empty());
}

#[test]
fn dry_run_startup_cleanup_is_noop_and_leaves_bound_empty() {
    let mut vip = LocalVip::new(true);
    let table = vec![(VipAddr::host(ip4(10, 0, 0, 1)), "lo".to_string())];
    assert!(vip.startup_cleanup(&table).is_empty());
    assert!(vip.bound_addrs().is_empty());
}

// VLAN sub-interface tests — verify that bind/unbind/startup_cleanup/unbind_all work
// correctly when the effective interface is a VLAN sub-interface string (e.g. "eth0.100").
// The interface name is computed by config::sorted_vips(); vip.rs treats it as an opaque
// string, so dry-run tests here confirm the bookkeeping is correct regardless of the format.

#[test]
fn dry_run_bind_with_vlan_interface_tracks_ip_not_subinterface() {
    let mut vip = LocalVip::new(true);
    let ip = ip4(10, 0, 0, 1);
    let _ = vip.bind("eth0.100", ip, 24);
    assert!(vip.is_bound(ip));
    assert_eq!(vip.bound_addrs().len(), 1);
}

#[test]
fn dry_run_unbind_with_vlan_interface_removes_bound_ip() {
    let mut vip = LocalVip::new(true);
    let ip = ip4(10, 0, 0, 1);
    let _ = vip.bind("eth0.100", ip, 24);
    let _ = vip.unbind("eth0.100", ip, 24);
    assert!(vip.bound_addrs().is_empty());
}

#[test]
fn dry_run_unbind_all_with_vlan_interface_clears_all() {
    let mut vip = LocalVip::new(true);
    let table = vec![
        (VipAddr::host(ip4(10, 0, 0, 1)), "eth0.100".to_string()),
        (VipAddr::host(ip4(10, 0, 0, 2)), "eth0.100".to_string()),
    ];
    for (v, iface) in &table {
        let _ = vip.bind(iface, v.addr, v.prefix);
    }
    assert_eq!(vip.bound_addrs().len(), 2);
    assert!(vip.unbind_all(&table, 0).is_none());
    assert!(vip.bound_addrs().is_empty());
}

#[test]
fn dry_run_startup_cleanup_with_vlan_interface_leaves_bound_empty() {
    let mut vip = LocalVip::new(true);
    let table = vec![(VipAddr::host(ip4(10, 0, 0, 1)), "eth0.100".to_string())];
    assert!(vip.startup_cleanup(&table).is_empty());
    assert!(vip.bound_addrs().is_empty());
}

#[test]
fn vip_state_strings_match_keepalived_convention() {
    assert_eq!(VipState::Master.as_str(), "MASTER");
    assert_eq!(VipState::Backup.as_str(), "BACKUP");
    assert_eq!(VipState::Fault.as_str(), "FAULT");
}

#[test]
fn release_notify_state_is_backup_when_healthy_and_fault_when_unhealthy() {
    // FAULT only on local health failure; cluster events (no leader, stale raft) → BACKUP.
    assert_eq!(release_notify_state(true), VipState::Backup);
    assert_eq!(release_notify_state(false), VipState::Fault);
}

fn table() -> Vec<(VipAddr, String)> {
    vec![
        (VipAddr { addr: ip4(10, 0, 0, 1), prefix: 24 }, "eth0".to_string()),
        (VipAddr::host(IpAddr::parse("2001:db8::1").unwrap()), "eth0.100".to_string()),
    ]
}

#[test]
fn startup_cleanup_removes_every_configured_vip() {
    let mut vip = LocalVip::new(false);
    let _ = vip.bind("eth0", ip4(10, 0, 0, 1), 24);
    let commands = vip.startup_cleanup(&table());
    assert_eq!(
        commands,
        [
            ["-4", "addr", "del", "10.0.0.1/24", "dev", "eth0"],
            ["-6", "addr", "del", "2001:db8::1/128", "dev", "eth0.100"],
        ]
    );
    assert!(vip.bound_addrs().is_empty());
}

#[test]
fn a_first_bind_is_announced_once_and_only_for_ipv4() {
    let mut vip = LocalVip::new(false);
    let ip = ip4(10, 0, 0, 1);
    let step = vip.bind("eth0", ip, 24);
    assert!(step.first_bind && vip.is_bound(ip));
    assert_eq!(step.command.unwrap(), ["-4", "addr", "replace", "10.0.0.1/24", "dev", "eth0"]);
    let announce = vip.bind_finished("eth0", ip, step.first_bind, true);
    assert_eq!(announce.unwrap(), ["-q", "-U", "-c", "2", "-I", "eth0", "10.0.0.1"]);
    let again = vip.bind("eth0", ip, 24);
    assert!(!again.first_bind);
    assert!(vip.bind_finished("eth0", ip, again.first_bind, true).is_none());
    let v6 = IpAddr::parse("2001:db8::1").unwrap();
    let step = vip.bind("eth0", v6, 64);
    assert_eq!(step.command.unwrap(), ["-6", "addr", "replace", "2001:db8::1/64", "dev", "eth0"]);
    assert!(vip.bind_finished("eth0", v6, step.first_bind, true).is_none());
    assert_eq!(vip.bound_addrs(), [ip, v6]);
}

#[test]
fn a_failed_bind_is_taken_back() {
    let mut vip = LocalVip::new(false);
    let ip = ip4(10, 0, 0, 1);
    let step = vip.bind("eth0", ip, 24);
    assert!(vip.bind_finished("eth0", ip, step.first_bind, false).is_none());
    assert!(!vip.is_bound(ip));
}

#[test]
fn an_address_stays_on_the_books_until_it_is_removed() {
    let mut vip = LocalVip::new(false);
    let ip = ip4(10, 0, 0, 1);
    assert!(vip.unbind("eth0", ip, 24).is_none());
    let _ = vip.bind("eth0", ip, 24);
    assert_eq!(vip.unbind("eth0", ip, 24).unwrap(), ["-4", "addr", "del", "10.0.0.1/24", "dev", "eth0"]);
    vip.unbind_finished(ip, false);
    assert!(vip.is_bound(ip));
    vip.unbind_finished(ip, true);
    assert!(!vip.is_bound(ip));
}

#[test]
fn shutdown_removes_what_is_bound_and_nothing_else() {
    let mut vip = LocalVip::new(false);
    let table = table();
    let _ = vip.bind(&table[1].1, table[1].0.addr, table[1].0.prefix);
    let (at, command) = vip.unbind_all(&table, 0).unwrap();
    assert_eq!(at, 1);
    assert_eq!(command, ["-6", "addr", "del", "2001:db8::1/128", "dev", "eth0.100"]);
    vip.unbind_finished(table[at].0.addr, true);
    assert!(vip.unbind_all(&table, at + 1).is_none());
    assert!(vip.unbind_all(&table, 0).is_none());
}

#[test]
fn notify_scripts_are_given_instance_address_and_state() {
    let args = notify_args(ip4(10, 0, 0, 1), VipState::Master, false).unwrap();
    assert_eq!(args, ["INSTANCE", "10.0.0.1", "MASTER"]);
    assert!(notify_args(ip4(10, 0, 0, 1), VipState::Master, true).is_none());
}

#[test]
fn only_transitions_that_took_effect_are_told() {
    assert_eq!(transition(true, false, true, true), Some(VipState::Master));
    assert_eq!(transition(true, false, false, true), None);
    assert_eq!(transition(true, true, true, true), None);
    assert_eq!(transition(false, true, true, true), Some(VipState::Backup));
    assert_eq!(transition(false, true, true, false), Some(VipState::Fault));
    assert_eq!(transition(false, true, false, false), None);
    assert_eq!(transition(false, false, true, true), None);
}

#[test]
fn a_release_is_acked_once_after_the_address_is_gone() {
    let vip = ip4(10, 0, 0, 1);
    let mut acked = acks(&[]);
    let owed = handoff(Some(1), false, 4);
    assert_eq!(release_to_publish(Some(&owed), 1, vip, false, &mut acked), None);
    let request = release_to_publish(Some(&owed), 1, vip, true, &mut acked);
    assert_eq!(request, Some(KafRequest::VipReleased { node_id: 1, vip, generation: 4 }));
    assert!(!release_published(vip, 4, false, &mut acked));
    assert!(release_to_publish(Some(&owed), 1, vip, true, &mut acked).is_some());
    assert!(release_published(vip, 4, true, &mut acked));
    assert_eq!(release_to_publish(Some(&owed), 1, vip, true, &mut acked), None);
    assert!(release_to_publish(Some(&handoff(Some(1), false, 5)), 1, vip, true, &mut acked).is_some());
    // Once the release is committed the marker goes.
    assert_eq!(release_to_publish(Some(&handoff(Some(1), true, 4)), 1, vip, true, &mut acked), None);
    assert!(acked.is_empty());
}

#[test]
fn markers_of_earlier_acks_are_dropped() {
    let vip = ip4(10, 0, 0, 1);
    let mut acked = acks(&[(vip, 4)]);
    assert_eq!(release_to_publish(None, 1, vip, true, &mut acked), None);
    assert!(acked.is_empty());
    let mut acked = acks(&[(vip, 4)]);
    forget_release(vip, &mut acked);
    assert!(acked.is_empty());
}

#[test]
fn a_node_binds_by_the_committed_state() {
    let vip = ip4(10, 0, 0, 1);
    let mut state = KafStorageState::new(vec![(VipAddr::host(vip), "lo".to_string())], 3, true, 0);
    let log_id = |index: u64| LogId { term: 1, node_id: 0, index };
    let membership = Membership { configs: vec![vec![1]], nodes: vec![(1, String::new())] };
    let entries = [
        Entry { log_id: log_id(1), payload: EntryPayload::Membership(membership) },
        Entry { log_id: log_id(2), payload: EntryPayload::Normal(KafRequest::HealthUpdate { node_id: 1, healthy: true }) },
    ];
    assert!(!wants_bind(&state, true, true, true, 1, vip));
    KafStateMachine::apply_entries(&mut state, &entries);
    assert!(wants_bind(&state, true, true, true, 1, vip));
    assert!(!wants_bind(&state, true, true, true, 2, vip));
    assert!(!wants_bind(&state, false, true, true, 1, vip));
    assert!(!wants_bind(&state, true, false, true, 1, vip));
    assert!(!wants_bind(&state, true, true, false, 1, vip));
    assert!(!wants_bind(&state, true, true, true, 1, ip4(10, 0, 0, 2)));
}

fn plan_for(want_bind: bool, assignment: Option<VipAssignment>) -> VipPlan {
    VipPlan { want_bind, assignment }
}

#[test]
fn reconciling_a_takeover_binds_announces_and_tells() {
    let vip = VipAddr { addr: ip4(10, 0, 0, 1), prefix: 24 };
    let mut local = LocalVip::new(false);
    let mut released = acks(&[(vip.addr, 3)]);
    let step = reconcile_start(&mut local, &mut released, plan_for(true, Some(handoff(None, true, 4))), vip, "eth0");
    assert!(!step.was_bound && local.is_bound(vip.addr) && released.is_empty());
    assert_eq!(step.command.as_ref().unwrap(), &["-4", "addr", "replace", "10.0.0.1/24", "dev", "eth0"]);
    let end = reconcile_finish(&mut local, &mut released, &step, vip, "eth0", true, true, 2);
    assert!(end.done);
    assert_eq!(end.announce.unwrap(), ["-q", "-U", "-c", "2", "-I", "eth0", "10.0.0.1"]);
    assert_eq!(end.notify, Some(VipState::Master));
    assert_eq!(end.release, None);
    assert!(local.is_bound(vip.addr));
    // Asserting it again is neither announced nor told.
    let step = reconcile_start(&mut local, &mut released, plan_for(true, None), vip, "eth0");
    let end = reconcile_finish(&mut local, &mut released, &step, vip, "eth0", true, true, 2);
    assert!(step.command.is_some() && end.announce.is_none() && end.notify.is_none());
}

#[test]
fn reconciling_a_release_acks_only_after_removal() {
    let vip = VipAddr { addr: ip4(10, 0, 0, 1), prefix: 24 };
    let lost = plan_for(false, Some(handoff(Some(1), false, 4)));
    let mut local = LocalVip::new(false);
    let mut released = acks(&[]);
    let _ = local.bind("eth0", vip.addr, vip.prefix);
    let step = reconcile_start(&mut local, &mut released, lost, vip, "eth0");
    assert_eq!(step.command.as_ref().unwrap(), &["-4", "addr", "del", "10.0.0.1/24", "dev", "eth0"]);
    let end = reconcile_finish(&mut local, &mut released, &step, vip, "eth0", false, true, 1);
    assert!(!end.done && end.notify.is_none() && end.release.is_none() && local.is_bound(vip.addr));
    let step = reconcile_start(&mut local, &mut released, lost, vip, "eth0");
    let end = reconcile_finish(&mut local, &mut released, &step, vip, "eth0", true, false, 1);
    assert!(end.done && !local.is_bound(vip.addr));
    assert_eq!(end.notify, Some(VipState::Fault));
    assert_eq!(end.release, Some(KafRequest::VipReleased { node_id: 1, vip: vip.addr, generation: 4 }));
    // Nothing is bound any more: nothing is run, and the ack is still owed until it is published.
    let step = reconcile_start(&mut local, &mut released, lost, vip, "eth0");
    assert!(step.command.is_none());
    assert!(reconcile_finish(&mut local, &mut released, &step, vip, "eth0", true, true, 1).release.is_some());
    assert!(release_published(vip.addr, 4, true, &mut released));
    let step = reconcile_start(&mut local, &mut released, lost, vip, "eth0");
    assert!(reconcile_finish(&mut local, &mut released, &step, vip, "eth0", true, true, 1).release.is_none());
}

#[test]
fn reconciling_on_a_dry_run_runs_nothing() {
    let vip = VipAddr::host(ip4(10, 0, 0, 1));
    let mut local = LocalVip::new(true);
    let mut released = acks(&[]);
    let step = reconcile_start(&mut local, &mut released, plan_for(true, None), vip, "eth0");
    assert!(step.command.is_none() && local.is_bound(vip.addr));
    let end = reconcile_finish(&mut local, &mut released, &step, vip, "eth0", true, true, 1);
    assert!(end.done && end.announce.is_none());
    assert_eq!(end.notify, Some(VipState::Master));
    let step = reconcile_start(&mut local, &mut released, plan_for(false, None), vip, "eth0");
    assert!(step.command.is_none() && step.was_bound && !local.is_bound(vip.addr));
}

#[test]
fn a_tick_is_planned_from_one_look_at_the_state() {
    let (mine, other) = (ip4(10, 0, 0, 1), ip4(10, 0, 0, 9));
    let list = vec![(VipAddr::host(mine), "lo".to_string())];
    let mut state = KafStorageState::new(list, 3, true, 0);
    let log_id = |index: u64| LogId { term: 1, node_id: 0, index };
    let membership = Membership { configs: vec![vec![1]], nodes: vec![(1, String::new())] };
    let entries = [
        Entry { log_id: log_id(1), payload: EntryPayload::Membership(membership) },
        Entry { log_id: log_id(2), payload: EntryPayload::Normal(KafRequest::HealthUpdate { node_id: 1, healthy: true }) },
    ];
    KafStateMachine::apply_entries(&mut state, &entries);
    let vips = [(VipAddr::host(other), "lo".to_string()), (VipAddr::host(mine), "lo".to_string())];
    let plans = plan(&state, true, true, true, 1, &vips);
    assert_eq!(plans.len(), 2);
    assert_eq!(plans[0], plan_for(false, None));
    assert!(plans[1].want_bind);
    assert_eq!(plans[1].assignment.unwrap().holder, 1);
}

/// Removes what is bound of the list, in order; `gone` says how each removal goes.
fn walk(vip: &mut LocalVip, list: &[(VipAddr, String)], gone: fn(usize) -> bool) -> Vec<usize> {
    let mut at = Vec::new();
    let mut from = 0;
    while let Some((i, _)) = vip.unbind_all(list, from) {
        vip.unbind_finished(list[i].0.addr, gone(i));
        at.push(i);
        from = i + 1;
    }
    at
}

fn all_bound(list: &[(VipAddr, String)]) -> LocalVip {
    let mut vip = LocalVip::new(false);
    for (v, iface) in list {
        let _ = vip.bind(iface, v.addr, v.prefix);
    }
    vip
}

#[test]
fn shutdown_removes_every_vip() {
    let list: Vec<(VipAddr, String)> =
        [1, 2, 3].into_iter().map(|n| (VipAddr::host(ip4(10, 0, 0, n)), "eth0".to_string())).collect();
    let mut vip = all_bound(&list);
    assert_eq!(walk(&mut vip, &list, |_| true), [0, 1, 2]);
    assert!(vip.bound_addrs().is_empty());
}

#[test]
fn a_failed_removal_holds_up_no_other() {
    let list: Vec<(VipAddr, String)> =
        [1, 2, 3].into_iter().map(|n| (VipAddr::host(ip4(10, 0, 0, n)), "eth0".to_string())).collect();
    let mut vip = all_bound(&list);
    assert_eq!(walk(&mut vip, &list, |i| i != 1), [0, 1, 2]);
    assert_eq!(vip.bound_addrs(), [ip4(10, 0, 0, 2)]);
}
