//! Which addresses this process has put on the host, what is run to add and remove them, and who
//! is told.
//!
//! On startup every configured VIP is removed from the kernel, in case a previous instance left it
//! there. On graceful shutdown every address still bound is removed. In between, losing local
//! health, consensus freshness, leader visibility or ownership all force an unbind.

use vstd::prelude::*;

use crate::addr::{ip_text, IpAddr};
use crate::bind_policy::{binds, should_bind_vip, NodeFacts};
use crate::config::{vip_text, VipAddr};
use crate::ordmap::{AddrMap, AddrSet, OrdMap};
use crate::raft::store::state::{KafStorageState, StorageView, VipAssignment};
use crate::raft::types::KafRequest;

verus! {

/// Reconciliation tick period (milliseconds).
pub const RECONCILE_TICK_MS: u64 = 250;

/// Upper bound on a notify script (seconds).
pub const NOTIFY_SCRIPT_TIMEOUT_SECS: u64 = 10;

/// The texts of a list of arguments.
pub open spec fn texts(args: Seq<String>) -> Seq<Seq<char>> {
    args.map_values(|s: String| s@)
}

/// The address-family selector of `ip`.
pub open spec fn family_text(ip: IpAddr) -> Seq<char> {
    match ip {
        IpAddr::V4(_) => "-4"@,
        IpAddr::V6(_) => "-6"@,
    }
}

/// The arguments of `ip` that add or remove an address.
pub open spec fn ip_args(verb: Seq<char>, vip: VipAddr, iface: Seq<char>) -> Seq<Seq<char>> {
    seq![family_text(vip.addr), "addr"@, verb, vip_text(vip), "dev"@, iface]
}

/// The arguments of `arping` that announce an address.
pub open spec fn arping_args(iface: Seq<char>, ip: IpAddr) -> Seq<Seq<char>> {
    seq!["-q"@, "-U"@, "-c"@, "2"@, "-I"@, iface, ip_text(ip)]
}

fn ip_family(ip: IpAddr) -> (text: &'static str)
    ensures
        text@ == family_text(ip),
{
    match ip {
        IpAddr::V4(_) => "-4",
        IpAddr::V6(_) => "-6",
    }
}

fn ip_command(verb: &str, vip: VipAddr, iface: &str) -> (args: Vec<String>)
    ensures
        texts(args@) == ip_args(verb@, vip, iface@),
{
    let mut args: Vec<String> = Vec::new();
    args.push(ip_family(vip.addr).to_owned());
    args.push("addr".to_owned());
    args.push(verb.to_owned());
    args.push(vip.to_string());
    args.push("dev".to_owned());
    args.push(iface.to_owned());
    assert(texts(args@) =~= ip_args(verb@, vip, iface@));
    args
}

/// The removal of every VIP of a list.
pub open spec fn all_removals(vips: Seq<(VipAddr, String)>) -> Seq<Seq<Seq<char>>> {
    vips.map_values(|v: (VipAddr, String)| ip_args("del"@, v.0, v.1@))
}

/// The addresses of a list of VIPs from a position on.
pub open spec fn addrs_from(vips: Seq<(VipAddr, String)>, from: int) -> Set<IpAddr> {
    vips.skip(from).map_values(|v: (VipAddr, String)| v.0.addr).to_set()
}

/// No address of the list is on the books from a position on.
pub open spec fn none_bound(books: Set<IpAddr>, vips: Seq<(VipAddr, String)>, from: int) -> bool {
    forall|j: int| from <= j < vips.len() ==> !books.contains((#[trigger] vips[j]).0.addr)
}

/// The first position, from a given one on, whose address is on the books.
pub open spec fn is_first_bound(books: Set<IpAddr>, vips: Seq<(VipAddr, String)>, from: int, i: int) -> bool {
    &&& from <= i < vips.len()
    &&& books.contains(vips[i].0.addr)
    &&& forall|j: int| from <= j < i ==> !books.contains((#[trigger] vips[j]).0.addr)
}

/// The addresses on the books after one was to be removed.
pub open spec fn after_removal(books: Set<IpAddr>, ip: IpAddr, success: bool) -> Set<IpAddr> {
    if success { books.remove(ip) } else { books }
}

/// What binding an address takes.
pub struct BindStep {
    /// The address was not bound before.
    pub first_bind: bool,
    /// Arguments of `ip`, if it is to be run.
    pub command: Option<Vec<String>>,
}

/// The addresses this process has put on the host. Its view is the set of them.
pub struct LocalVip {
    bound: AddrSet,
    dry_run: bool,
}

impl View for LocalVip {
    type V = Set<IpAddr>;

    closed spec fn view(&self) -> Set<IpAddr> {
        self.bound@.dom()
    }
}

impl LocalVip {
    /// Nothing is run, only recorded.
    pub closed spec fn dry(self) -> bool {
        self.dry_run
    }

    pub fn new(dry_run: bool) -> (v: Self)
        ensures
            v@ == Set::<IpAddr>::empty(),
            v.dry() == dry_run,
    {
        let v = LocalVip { bound: OrdMap::new(), dry_run };
        assert(v@ =~= Set::empty());
        v
    }

    /// Reclaim every configured VIP that a previous process may have left on its interface.
    ///
    /// Returns the arguments of `ip` for each, none on a dry run. Nothing counts as bound then.
    pub fn startup_cleanup(&mut self, vips: &[(VipAddr, String)]) -> (commands: Vec<Vec<String>>)
        ensures
            final(self)@ == Set::<IpAddr>::empty(),
            final(self).dry() == old(self).dry(),
            commands@.map_values(|c: Vec<String>| texts(c@)) == if old(self).dry() {
                Seq::empty()
            } else {
                all_removals(vips@)
            },
    {
        self.bound = OrdMap::new();
        assert(self@ =~= Set::empty());
        let mut commands: Vec<Vec<String>> = Vec::new();
        if self.dry_run {
            assert(commands@.map_values(|c: Vec<String>| texts(c@)) =~= Seq::empty());
            return commands;
        }
        let mut i: usize = 0;
        while i < vips.len()
            invariant
                i <= vips@.len(),
                commands@.map_values(|c: Vec<String>| texts(c@)) == all_removals(vips@.take(i as int)),
            decreases vips@.len() - i,
        {
            let ghost before = commands@.map_values(|c: Vec<String>| texts(c@));
            let command = ip_command("del", vips[i].0, vips[i].1.as_str());
            let ghost text = texts(command@);
            commands.push(command);
            i += 1;
            proof {
                assert(commands@.map_values(|c: Vec<String>| texts(c@)) =~= before.push(text));
                assert(vips@.take(i as int) =~= vips@.take(i - 1).push(vips@[i - 1]));
                assert(all_removals(vips@.take(i as int)) =~= all_removals(vips@.take(i - 1)).push(text));
            }
        }
        assert(vips@.take(i as int) =~= vips@);
        commands
    }

    /// Put an address on `iface`, or put it there again.
    ///
    /// The address counts as bound from here on, before anything is run, so that a shutdown in
    /// between still removes it; [`LocalVip::bind_finished`] takes that back if the run fails.
    pub fn bind(&mut self, iface: &str, ip: IpAddr, prefix: u8) -> (step: BindStep)
        ensures
            final(self)@ == old(self)@.insert(ip),
            final(self).dry() == old(self).dry(),
            step.first_bind == !old(self)@.contains(ip),
            match step.command {
                Some(args) => !old(self).dry() && texts(args@) == ip_args("replace"@, VipAddr { addr: ip, prefix }, iface@),
                None => old(self).dry(),
            },
    {
        let first_bind = !self.bound.contains_key(&ip);
        self.bound.insert(ip, ());
        assert(self@ =~= old(self)@.insert(ip));
        let command = if self.dry_run {
            None
        } else {
            Some(ip_command("replace", VipAddr { addr: ip, prefix }, iface))
        };
        BindStep { first_bind, command }
    }

    /// Take note of how adding the address went.
    ///
    /// A failure takes the address off the books. Success on a first bind returns the arguments of
    /// `arping` that announce an IPv4 address.
    pub fn bind_finished(&mut self, iface: &str, ip: IpAddr, first_bind: bool, success: bool) -> (announce: Option<Vec<String>>)
        ensures
            final(self)@ == if success { old(self)@ } else { old(self)@.remove(ip) },
            final(self).dry() == old(self).dry(),
            match announce {
                Some(args) => success && first_bind && ip is V4 && texts(args@) == arping_args(iface@, ip),
                None => !(success && first_bind && ip is V4),
            },
    {
        if !success {
            self.bound.remove(&ip);
            assert(self@ =~= old(self)@.remove(ip));
            return None;
        }
        if !first_bind || !ip.is_ipv4() {
            return None;
        }
        let mut args: Vec<String> = Vec::new();
        args.push("-q".to_owned());
        args.push("-U".to_owned());
        args.push("-c".to_owned());
        args.push("2".to_owned());
        args.push("-I".to_owned());
        args.push(iface.to_owned());
        args.push(ip.to_string());
        assert(texts(args@) =~= arping_args(iface@, ip));
        Some(args)
    }

    /// Remove an address that this process has bound.
    ///
    /// Returns the arguments of `ip` if it is to be run; the address stays on the books until
    /// [`LocalVip::unbind_finished`]. On a dry run it is off them at once. An address that is not
    /// bound is left alone.
    pub fn unbind(&mut self, iface: &str, ip: IpAddr, prefix: u8) -> (command: Option<Vec<String>>)
        ensures
            final(self)@ == if old(self).dry() { old(self)@.remove(ip) } else { old(self)@ },
            final(self).dry() == old(self).dry(),
            match command {
                Some(args) => !old(self).dry() && old(self)@.contains(ip)
                    && texts(args@) == ip_args("del"@, VipAddr { addr: ip, prefix }, iface@),
                None => old(self).dry() || !old(self)@.contains(ip),
            },
    {
        if !self.bound.contains_key(&ip) {
            assert(self@.remove(ip) =~= self@);
            return None;
        }
        if self.dry_run {
            self.bound.remove(&ip);
            assert(self@ =~= old(self)@.remove(ip));
            return None;
        }
        Some(ip_command("del", VipAddr { addr: ip, prefix }, iface))
    }

    /// Take note of how removing the address went: after a failure it still counts as bound.
    pub fn unbind_finished(&mut self, ip: IpAddr, success: bool)
        ensures
            final(self)@ == after_removal(old(self)@, ip, success),
            final(self).dry() == old(self).dry(),
    {
        if success {
            self.bound.remove(&ip);
            assert(self@ =~= old(self)@.remove(ip));
        }
    }

    /// The next removal among the VIPs from position `from` on: its position and the arguments of
    /// `ip`. On a dry run all of them are off the books at once, and there is none.
    pub fn unbind_all(&mut self, vips: &[(VipAddr, String)], from: usize) -> (next: Option<(usize, Vec<String>)>)
        requires
            from <= vips@.len(),
        ensures
            final(self)@ == if old(self).dry() { old(self)@.difference(addrs_from(vips@, from as int)) } else { old(self)@ },
            final(self).dry() == old(self).dry(),
            match next {
                Some((i, args)) => {
                    &&& !old(self).dry()
                    &&& is_first_bound(old(self)@, vips@, from as int, i as int)
                    &&& texts(args@) == ip_args("del"@, vips@[i as int].0, vips@[i as int].1@)
                },
                None => old(self).dry() || none_bound(old(self)@, vips@, from as int),
            },
    {
        let ghost before = self@;
        let mut i: usize = from;
        while i < vips.len()
            invariant
                from <= i <= vips@.len(),
                self.dry() == old(self).dry(),
                before == old(self)@,
                self@ == if self.dry() {
                    before.difference(vips@.subrange(from as int, i as int).map_values(|v: (VipAddr, String)| v.0.addr).to_set())
                } else {
                    before
                },
                !self.dry() ==> forall|j: int| from <= j < i ==> !before.contains((#[trigger] vips@[j]).0.addr),
            decreases vips@.len() - i,
        {
            let (vip, iface) = (vips[i].0, &vips[i].1);
            if let Some(args) = self.unbind(iface.as_str(), vip.addr, vip.prefix) {
                return Some((i, args));
            }
            i += 1;
            proof {
                let front = vips@.subrange(from as int, i - 1).map_values(|v: (VipAddr, String)| v.0.addr);
                let all = vips@.subrange(from as int, i as int).map_values(|v: (VipAddr, String)| v.0.addr);
                assert(all =~= front.push(vip.addr));
                assert forall|a: IpAddr| all.contains(a) == (front.contains(a) || a == vip.addr) by {
                    if front.contains(a) {
                        assert(all[front.index_of(a)] == a);
                    }
                    assert(all[front.len() as int] == vip.addr);
                }
                if self.dry() {
                    assert(self@ =~= before.difference(all.to_set()));
                }
            }
        }
        proof {
            assert(vips@.subrange(from as int, i as int) =~= vips@.skip(from as int));
        }
        None
    }

    /// The address counts as bound.
    pub fn is_bound(&self, ip: IpAddr) -> (b: bool)
        ensures
            b == self@.contains(ip),
    {
        self.bound.contains_key(&ip)
    }

    /// The bound addresses in ascending order.
    pub fn bound_addrs(&self) -> (addrs: Vec<IpAddr>)
        ensures
            crate::order::ascending(addrs@),
            addrs@.to_set() == self@,
    {
        self.bound.keys()
    }
}

/// VIP ownership state passed to the notify script.
#[derive(Debug, Clone, Copy, PartialEq, Eq, Structural)]
pub enum VipState {
    Master,
    Backup,
    Fault,
}

/// The word a notify script is given for a state.
pub open spec fn state_text(state: VipState) -> Seq<char> {
    match state {
        VipState::Master => "MASTER"@,
        VipState::Backup => "BACKUP"@,
        VipState::Fault => "FAULT"@,
    }
}

impl VipState {
    pub fn as_str(self) -> (text: &'static str)
        ensures
            text@ == state_text(self),
    {
        match self {
            VipState::Master => "MASTER",
            VipState::Backup => "BACKUP",
            VipState::Fault => "FAULT",
        }
    }
}

/// The state told for a VIP release: `FAULT` when this node's own health check failed, `BACKUP` for
/// any cluster-level reason.
pub fn release_notify_state(local_ok: bool) -> (state: VipState)
    ensures
        state == if local_ok { VipState::Backup } else { VipState::Fault },
{
    if local_ok {
        VipState::Backup
    } else {
        VipState::Fault
    }
}

/// The arguments of a notify script for a VIP ownership transition, none on a dry run.
pub fn notify_args(vip_addr: IpAddr, state: VipState, dry_run: bool) -> (args: Option<Vec<String>>)
    ensures
        match args {
            Some(args) => !dry_run && texts(args@) == seq!["INSTANCE"@, ip_text(vip_addr), state_text(state)],
            None => dry_run,
        },
{
    if dry_run {
        return None;
    }
    let mut args: Vec<String> = Vec::new();
    args.push("INSTANCE".to_owned());
    args.push(vip_addr.to_string());
    args.push(state.as_str().to_owned());
    assert(texts(args@) =~= seq!["INSTANCE"@, ip_text(vip_addr), state_text(state)]);
    Some(args)
}

/// The transition to tell of, if one took effect.
pub open spec fn told(want_bind: bool, was_bound: bool, success: bool, local_ok: bool) -> Option<VipState> {
    if !success || want_bind == was_bound {
        None
    } else if want_bind {
        Some(VipState::Master)
    } else if local_ok {
        Some(VipState::Backup)
    } else {
        Some(VipState::Fault)
    }
}

/// The transition to tell of after an address was added or removed: only one that took effect.
pub fn transition(want_bind: bool, was_bound: bool, success: bool, local_ok: bool) -> (state: Option<VipState>)
    ensures
        state == told(want_bind, was_bound, success, local_ok),
{
    if !success || want_bind == was_bound {
        None
    } else if want_bind {
        Some(VipState::Master)
    } else {
        Some(release_notify_state(local_ok))
    }
}

/// The committed assignment of a VIP.
pub open spec fn assigned(s: StorageView, vip: IpAddr) -> Option<VipAssignment> {
    let assignments = s.replicated.vip_assignments;
    if assignments.contains_key(vip) { Some(assignments[vip]) } else { None }
}

/// This node should hold the VIP now, going by the committed state.
pub open spec fn wanted(
    s: StorageView,
    has_leader: bool,
    local_healthy: bool,
    consensus_fresh: bool,
    node_id: u64,
    vip: IpAddr,
) -> bool {
    binds(
        has_leader,
        local_healthy,
        consensus_fresh,
        node_id,
        assigned(s, vip),
        NodeFacts {
            node_health: s.replicated.node_health,
            node_probe_ticks: s.replicated.node_probe_ticks,
            latest_probe_tick: s.replicated.latest_probe_tick,
            stale_missed_probes: s.settings.stale_missed_probes,
            failback_delay_ticks: s.settings.failback_delay_ticks,
            node_recovery_tick: s.replicated.node_recovery_tick,
            node_failback_blocked: s.replicated.node_failback_blocked,
        },
    )
}

/// Whether this node should hold the VIP now, going by the committed state.
pub fn wants_bind(
    state: &KafStorageState,
    has_leader: bool,
    local_healthy: bool,
    consensus_fresh: bool,
    node_id: u64,
    vip: IpAddr,
) -> (b: bool)
    ensures
        b == wanted(state@, has_leader, local_healthy, consensus_fresh, node_id, vip),
{
    should_bind_vip(
        has_leader,
        local_healthy,
        consensus_fresh,
        node_id,
        state.vip_assignments.get(&vip),
        &state.node_health,
        &state.node_probe_ticks,
        state.latest_probe_tick,
        state.stale_missed_probes,
        state.failback_delay_ticks,
        &state.node_recovery_tick,
        &state.node_failback_blocked,
    )
}

/// This node is the one that has to release, and the release is not yet committed.
pub open spec fn must_release(a: VipAssignment, node_id: u64) -> bool {
    a.previous_holder == Some(node_id) && !a.previous_holder_released
}

/// This node still owes a release ack for the VIP: it has to release, and it has not yet acked this
/// generation.
pub open spec fn owes_ack(a: VipAssignment, node_id: u64, vip: IpAddr, acked: Map<IpAddr, u64>) -> bool {
    must_release(a, node_id) && !(acked.contains_key(vip) && acked[vip] == a.generation)
}

/// Whether this node still owes a release ack for `vip`.
pub fn should_publish_release(
    assignment: &VipAssignment,
    node_id: u64,
    vip: IpAddr,
    released_generations: &AddrMap<u64>,
) -> (b: bool)
    ensures
        b == owes_ack(*assignment, node_id, vip, released_generations@),
{
    let acked = match released_generations.get(&vip) {
        Some(generation) => *generation == assignment.generation,
        None => false,
    };
    let owed = match assignment.previous_holder {
        Some(previous) => previous == node_id,
        None => false,
    };
    owed && !assignment.previous_holder_released && !acked
}

/// The ack to publish, if one is owed and the address is gone from the host.
pub open spec fn release_due(
    assignment: Option<VipAssignment>,
    node_id: u64,
    vip: IpAddr,
    removed: bool,
    acked: Map<IpAddr, u64>,
) -> Option<KafRequest> {
    match assignment {
        Some(a) => if removed && owes_ack(a, node_id, vip, acked) {
            Some(KafRequest::VipReleased { node_id, vip, generation: a.generation })
        } else {
            None
        },
        None => None,
    }
}

/// The acks to remember while this node does not hold the VIP.
pub open spec fn remembered(assignment: Option<VipAssignment>, node_id: u64, vip: IpAddr, acked: Map<IpAddr, u64>) -> Map<IpAddr, u64> {
    if assignment is Some && must_release(assignment->0, node_id) { acked } else { acked.remove(vip) }
}

/// The ack to publish for a VIP that this node does not hold, if it owes one and has removed the
/// address from the host.
///
/// A marker of an earlier ack is dropped once nothing has to be released any more.
pub fn release_to_publish(
    assignment: Option<&VipAssignment>,
    node_id: u64,
    vip: IpAddr,
    removed: bool,
    released_generations: &mut AddrMap<u64>,
) -> (request: Option<KafRequest>)
    ensures
        request == release_due(
            match assignment { Some(a) => Some(*a), None => None },
            node_id,
            vip,
            removed,
            old(released_generations)@,
        ),
        final(released_generations)@ == remembered(
            match assignment { Some(a) => Some(*a), None => None },
            node_id,
            vip,
            old(released_generations)@,
        ),
{
    match assignment {
        Some(a) => {
            let owed = match a.previous_holder {
                Some(previous) => previous == node_id,
                None => false,
            };
            if !owed || a.previous_holder_released {
                released_generations.remove(&vip);
                return None;
            }
            if removed && should_publish_release(a, node_id, vip, released_generations) {
                Some(KafRequest::VipReleased { node_id, vip, generation: a.generation })
            } else {
                None
            }
        },
        None => {
            released_generations.remove(&vip);
            None
        },
    }
}

/// Take note of how publishing an ack went. Returns whether consensus was reached, and so is fresh.
pub fn release_published(vip: IpAddr, generation: u64, success: bool, released_generations: &mut AddrMap<u64>) -> (fresh: bool)
    ensures
        fresh == success,
        final(released_generations)@ == if success {
            old(released_generations)@.insert(vip, generation)
        } else {
            old(released_generations)@
        },
{
    if success {
        released_generations.insert(vip, generation);
    }
    success
}

/// A VIP that this node is to hold again starts over: earlier acks no longer count.
pub fn forget_release(vip: IpAddr, released_generations: &mut AddrMap<u64>)
    ensures
        final(released_generations)@ == old(released_generations)@.remove(vip),
{
    released_generations.remove(&vip);
}

/// What one tick of reconciliation has decided about a VIP.
#[derive(Debug, Clone, Copy, PartialEq, Eq, Structural)]
pub struct VipPlan {
    /// This node should hold the VIP.
    pub want_bind: bool,
    /// The committed assignment.
    pub assignment: Option<VipAssignment>,
}

/// Decide about all VIPs of a tick, from one look at the committed state.
pub fn plan(
    state: &KafStorageState,
    has_leader: bool,
    local_healthy: bool,
    consensus_fresh: bool,
    node_id: u64,
    vips: &[(VipAddr, String)],
) -> (plans: Vec<VipPlan>)
    ensures
        plans@.len() == vips@.len(),
        forall|i: int| 0 <= i < plans@.len() ==> #[trigger] plans@[i] == (VipPlan {
            want_bind: wanted(state@, has_leader, local_healthy, consensus_fresh, node_id, vips@[i].0.addr),
            assignment: assigned(state@, vips@[i].0.addr),
        }),
{
    let mut plans: Vec<VipPlan> = Vec::new();
    let mut i: usize = 0;
    while i < vips.len()
        invariant
            i <= vips@.len(),
            plans@.len() == i,
            forall|j: int| 0 <= j < i ==> #[trigger] plans@[j] == (VipPlan {
                want_bind: wanted(state@, has_leader, local_healthy, consensus_fresh, node_id, vips@[j].0.addr),
                assignment: assigned(state@, vips@[j].0.addr),
            }),
        decreases vips@.len() - i,
    {
        let vip = vips[i].0.addr;
        let want_bind = wants_bind(state, has_leader, local_healthy, consensus_fresh, node_id, vip);
        let assignment = match state.vip_assignments.get(&vip) {
            Some(a) => Some(*a),
            None => None,
        };
        plans.push(VipPlan { want_bind, assignment });
        i += 1;
    }
    plans
}

/// The addresses on the books once reconciling a VIP has begun: one to be added counts from here
/// on, one to be removed until it is gone.
pub open spec fn begun(books: Set<IpAddr>, dry: bool, want_bind: bool, ip: IpAddr) -> Set<IpAddr> {
    if want_bind {
        books.insert(ip)
    } else if dry {
        books.remove(ip)
    } else {
        books
    }
}

/// Something has to be run for it.
pub open spec fn takes_a_run(books: Set<IpAddr>, dry: bool, want_bind: bool, ip: IpAddr) -> bool {
    !dry && (want_bind || books.contains(ip))
}

/// The addresses on the books once reconciling a VIP has ended, after a run if there was one.
pub open spec fn ended(books: Set<IpAddr>, ran: bool, want_bind: bool, success: bool, ip: IpAddr) -> Set<IpAddr> {
    if ran && success != want_bind { books.remove(ip) } else { books }
}

/// What reconciling a VIP takes.
pub struct ReconcileStep {
    pub plan: VipPlan,
    /// The address was on the books before.
    pub was_bound: bool,
    /// Arguments of `ip`, if it is to be run.
    pub command: Option<Vec<String>>,
}

/// Begin to reconcile a VIP with its plan: add the address, or add it again, or remove it.
pub fn reconcile_start(
    local: &mut LocalVip,
    released_generations: &mut AddrMap<u64>,
    plan: VipPlan,
    vip: VipAddr,
    iface: &str,
) -> (step: ReconcileStep)
    ensures
        step.plan == plan,
        step.was_bound == old(local)@.contains(vip.addr),
        final(local)@ == begun(old(local)@, old(local).dry(), plan.want_bind, vip.addr),
        final(local).dry() == old(local).dry(),
        final(released_generations)@ == if plan.want_bind {
            old(released_generations)@.remove(vip.addr)
        } else {
            old(released_generations)@
        },
        match step.command {
            Some(args) => {
                &&& takes_a_run(old(local)@, old(local).dry(), plan.want_bind, vip.addr)
                &&& texts(args@) == ip_args(if plan.want_bind { "replace"@ } else { "del"@ }, vip, iface@)
            },
            None => !takes_a_run(old(local)@, old(local).dry(), plan.want_bind, vip.addr),
        },
{
    let was_bound = local.is_bound(vip.addr);
    let command = if plan.want_bind {
        forget_release(vip.addr, released_generations);
        local.bind(iface, vip.addr, vip.prefix).command
    } else {
        local.unbind(iface, vip.addr, vip.prefix)
    };
    ReconcileStep { plan, was_bound, command }
}

/// What is left to do after a VIP has been reconciled.
pub struct ReconcileEnd {
    /// The address was added or removed, or there was nothing to do.
    pub done: bool,
    /// Arguments of `arping`, if the address is to be announced.
    pub announce: Option<Vec<String>>,
    /// The transition to tell the notify script of.
    pub notify: Option<VipState>,
    /// The ack to publish.
    pub release: Option<KafRequest>,
}

/// End reconciling a VIP. `success` is how the run of the step's command went, if it had one.
pub fn reconcile_finish(
    local: &mut LocalVip,
    released_generations: &mut AddrMap<u64>,
    step: &ReconcileStep,
    vip: VipAddr,
    iface: &str,
    success: bool,
    local_ok: bool,
    node_id: u64,
) -> (end: ReconcileEnd)
    ensures
        end.done == (step.command is None || success),
        final(local)@ == ended(old(local)@, step.command is Some, step.plan.want_bind, success, vip.addr),
        final(local).dry() == old(local).dry(),
        end.notify == told(step.plan.want_bind, step.was_bound, end.done, local_ok),
        end.release == if step.plan.want_bind {
            None
        } else {
            release_due(step.plan.assignment, node_id, vip.addr, end.done, old(released_generations)@)
        },
        final(released_generations)@ == if step.plan.want_bind {
            old(released_generations)@
        } else {
            remembered(step.plan.assignment, node_id, vip.addr, old(released_generations)@)
        },
        ({
            let first = step.command is Some && step.plan.want_bind && success && !step.was_bound;
            match end.announce {
                Some(args) => first && vip.addr is V4 && texts(args@) == arping_args(iface@, vip.addr),
                None => !(first && vip.addr is V4),
            }
        }),
{
    let ran = step.command.is_some();
    let done = !ran || success;
    let want_bind = step.plan.want_bind;
    let announce = if ran && want_bind {
        local.bind_finished(iface, vip.addr, !step.was_bound, success)
    } else {
        if ran {
            local.unbind_finished(vip.addr, success);
        }
        None
    };
    let notify = transition(want_bind, step.was_bound, done, local_ok);
    let release = if want_bind {
        None
    } else {
        let assignment = match &step.plan.assignment {
            Some(a) => Some(a),
            None => None,
        };
        release_to_publish(assignment, node_id, vip.addr, done, released_generations)
    };
    ReconcileEnd { done, announce, notify, release }
}

/// A VIP that was reconciled without failure is on the books exactly if this node should hold it.
pub proof fn law_reconciling_settles_a_vip(books: Set<IpAddr>, dry: bool, want_bind: bool, success: bool, ip: IpAddr)
    requires
        !takes_a_run(books, dry, want_bind, ip) || success,
    ensures
        ended(begun(books, dry, want_bind, ip), takes_a_run(books, dry, want_bind, ip), want_bind, success, ip).contains(ip)
            == want_bind,
{
}

/// Reconciling a VIP leaves all others alone.
pub proof fn law_reconciling_leaves_other_vips_alone(
    books: Set<IpAddr>,
    dry: bool,
    want_bind: bool,
    success: bool,
    ip: IpAddr,
    other: IpAddr,
)
    requires
        other != ip,
    ensures
        ended(begun(books, dry, want_bind, ip), takes_a_run(books, dry, want_bind, ip), want_bind, success, ip).contains(other)
            == books.contains(other),
{
}

/// Only addresses of the list come onto the books, as long as only VIPs of the list are reconciled.
pub proof fn law_only_listed_vips_are_on_the_books(
    books: Set<IpAddr>,
    vips: Seq<(VipAddr, String)>,
    dry: bool,
    want_bind: bool,
    ran: bool,
    success: bool,
    i: int,
)
    requires
        books.subset_of(addrs_from(vips, 0)),
        0 <= i < vips.len(),
    ensures
        ended(begun(books, dry, want_bind, vips[i].0.addr), ran, want_bind, success, vips[i].0.addr).subset_of(addrs_from(vips, 0)),
{
    lemma_addrs_from(vips, 0, vips[i].0.addr);
}

/// The addresses on the books after a walk that removes what it finds: at each position that
/// [`LocalVip::unbind_all`] names the removal is run, `gone` says how that went, and the walk goes on
/// behind it.
pub open spec fn walked(
    books: Set<IpAddr>,
    dry: bool,
    vips: Seq<(VipAddr, String)>,
    from: int,
    gone: spec_fn(int) -> bool,
) -> Set<IpAddr>
    decreases vips.len() - from,
{
    if dry {
        books.difference(addrs_from(vips, from))
    } else if exists|i: int| is_first_bound(books, vips, from, i) {
        let i = choose|i: int| is_first_bound(books, vips, from, i);
        walked(after_removal(books, vips[i].0.addr, gone(i)), dry, vips, i + 1, gone)
    } else {
        books
    }
}

/// A removal of the address, at a position of the list from `from` on, takes effect.
pub open spec fn taken_off(dry: bool, vips: Seq<(VipAddr, String)>, from: int, gone: spec_fn(int) -> bool, ip: IpAddr) -> bool {
    exists|i: int| from <= i < vips.len() && (#[trigger] vips[i]).0.addr == ip && (dry || gone(i))
}

proof fn lemma_addrs_from(vips: Seq<(VipAddr, String)>, from: int, ip: IpAddr)
    requires
        0 <= from <= vips.len(),
    ensures
        addrs_from(vips, from).contains(ip) <==> exists|i: int| from <= i < vips.len() && (#[trigger] vips[i]).0.addr == ip,
{
    let addrs = vips.skip(from).map_values(|v: (VipAddr, String)| v.0.addr);
    if addrs.contains(ip) {
        let k = addrs.index_of(ip);
        assert(vips[from + k].0.addr == ip);
    }
    if exists|i: int| from <= i < vips.len() && (#[trigger] vips[i]).0.addr == ip {
        let i = choose|i: int| from <= i < vips.len() && (#[trigger] vips[i]).0.addr == ip;
        assert(addrs[i - from] == ip);
    }
}

/// If an address of the list is on the books, one is the first.
proof fn lemma_first_bound(books: Set<IpAddr>, vips: Seq<(VipAddr, String)>, from: int)
    requires
        !none_bound(books, vips, from),
    ensures
        exists|i: int| is_first_bound(books, vips, from, i),
    decreases vips.len() - from,
{
    let some = choose|j: int| from <= j < vips.len() && books.contains((#[trigger] vips[j]).0.addr);
    if books.contains(vips[from].0.addr) {
        assert(is_first_bound(books, vips, from, from));
    } else {
        assert(from < some);
        let later: int = from + 1;
        lemma_first_bound(books, vips, later);
        let i = choose|i: int| is_first_bound(books, vips, later, i);
        assert(is_first_bound(books, vips, from, i));
    }
}

proof fn lemma_walked(books: Set<IpAddr>, dry: bool, vips: Seq<(VipAddr, String)>, from: int, gone: spec_fn(int) -> bool, ip: IpAddr)
    requires
        0 <= from <= vips.len(),
    ensures
        walked(books, dry, vips, from, gone).contains(ip) == (books.contains(ip) && !taken_off(dry, vips, from, gone, ip)),
    decreases vips.len() - from,
{
    if dry {
        lemma_addrs_from(vips, from, ip);
    } else if exists|i: int| is_first_bound(books, vips, from, i) {
        let i = choose|i: int| is_first_bound(books, vips, from, i);
        let rest = after_removal(books, vips[i].0.addr, gone(i));
        lemma_walked(rest, dry, vips, i + 1, gone, ip);
        if books.contains(ip) && taken_off(dry, vips, from, gone, ip) {
            let at = choose|at: int| from <= at < vips.len() && (#[trigger] vips[at]).0.addr == ip && (dry || gone(at));
            assert(at >= i);
        }
    } else {
        if !none_bound(books, vips, from) {
            lemma_first_bound(books, vips, from);
        }
    }
}

/// A graceful shutdown removes every VIP that this node holds: if every removal succeeds, or on a dry
/// run, no address of the list is left on the books, and if only such addresses were on them nothing
/// is.
pub proof fn law_shutdown_removes_every_vip(books: Set<IpAddr>, dry: bool, vips: Seq<(VipAddr, String)>, gone: spec_fn(int) -> bool)
    requires
        dry || forall|i: int| 0 <= i < vips.len() ==> #[trigger] gone(i),
    ensures
        walked(books, dry, vips, 0, gone) == books.difference(addrs_from(vips, 0)),
        none_bound(walked(books, dry, vips, 0, gone), vips, 0),
        books.subset_of(addrs_from(vips, 0)) ==> walked(books, dry, vips, 0, gone) == Set::<IpAddr>::empty(),
{
    let left = walked(books, dry, vips, 0, gone);
    assert forall|ip: IpAddr| left.contains(ip) == (books.contains(ip) && !addrs_from(vips, 0).contains(ip)) by {
        lemma_walked(books, dry, vips, 0, gone, ip);
        lemma_addrs_from(vips, 0, ip);
        if addrs_from(vips, 0).contains(ip) {
            let i = choose|i: int| 0 <= i < vips.len() && (#[trigger] vips[i]).0.addr == ip;
            assert(dry || gone(i));
        }
    }
    assert(left =~= books.difference(addrs_from(vips, 0)));
    assert forall|j: int| 0 <= j < vips.len() implies !left.contains((#[trigger] vips[j]).0.addr) by {
        lemma_addrs_from(vips, 0, vips[j].0.addr);
    }
    if books.subset_of(addrs_from(vips, 0)) {
        assert(left =~= Set::empty());
    }
}

/// However the removals of a shutdown go, one that fails holds up no other: an address stays on the
/// books exactly if it was on them and no removal of it took effect.
pub proof fn law_a_failed_removal_holds_up_no_other(
    books: Set<IpAddr>,
    dry: bool,
    vips: Seq<(VipAddr, String)>,
    gone: spec_fn(int) -> bool,
    ip: IpAddr,
)
    ensures
        walked(books, dry, vips, 0, gone).contains(ip) == (books.contains(ip) && !taken_off(dry, vips, 0, gone, ip)),
{
    lemma_walked(books, dry, vips, 0, gone, ip);
}

/// A release is acked only once the address is off the books, so that the next holder never binds
/// an address that this host still has.
pub proof fn law_releases_are_acked_after_removal(
    books: Set<IpAddr>,
    dry: bool,
    success: bool,
    assignment: Option<VipAssignment>,
    node_id: u64,
    ip: IpAddr,
    acked: Map<IpAddr, u64>,
)
    requires
        release_due(assignment, node_id, ip, !takes_a_run(books, dry, false, ip) || success, acked) is Some,
    ensures
        !ended(begun(books, dry, false, ip), takes_a_run(books, dry, false, ip), false, success, ip).contains(ip),
{
}

/// The notify script is told only of transitions that took effect: of `MASTER` when the address
/// came onto the books, of `BACKUP` or `FAULT` when it left them.
pub proof fn law_only_real_transitions_are_told(books: Set<IpAddr>, dry: bool, want_bind: bool, success: bool, local_ok: bool, ip: IpAddr)
    ensures
        ({
            let ran = takes_a_run(books, dry, want_bind, ip);
            let after = ended(begun(books, dry, want_bind, ip), ran, want_bind, success, ip);
            match told(want_bind, books.contains(ip), !ran || success, local_ok) {
                Some(VipState::Master) => !books.contains(ip) && after.contains(ip),
                Some(VipState::Backup) => books.contains(ip) && !after.contains(ip) && local_ok,
                Some(VipState::Fault) => books.contains(ip) && !after.contains(ip) && !local_ok,
                None => true,
            }
        }),
{
}

/// A release is acked once per generation: after a successful ack nothing is owed until a later
/// handover asks for it.
pub proof fn law_release_is_acked_once_per_generation(a: VipAssignment, later: VipAssignment, node_id: u64, vip: IpAddr, acked: Map<IpAddr, u64>)
    requires
        owes_ack(a, node_id, vip, acked),
        must_release(later, node_id),
    ensures
        !owes_ack(a, node_id, vip, acked.insert(vip, a.generation)),
        owes_ack(later, node_id, vip, acked.insert(vip, a.generation)) <==> later.generation != a.generation,
{
}

/// This node wants a VIP exactly if it sees a leader, is healthy and in touch, and the committed
/// assignment names it, is active by the committed frontier, and has nobody in the way: no previous
/// holder, one that has released, or one that is blocked, not healthy by its last report, silent for
/// longer than the window, or within its failback delay.
pub proof fn law_wanted_vips_are_committed_active_and_free(
    state: &KafStorageState,
    has_leader: bool,
    local_healthy: bool,
    consensus_fresh: bool,
    node_id: u64,
    vip: IpAddr,
    b: bool,
)
    requires
        call_ensures(wants_bind, (state, has_leader, local_healthy, consensus_fresh, node_id, vip), b),
    ensures
        b <==> {
            let a = state.vip_assignments@[vip];
            let (health, ticks, recovery) = (state.node_health@, state.node_probe_ticks@, state.node_recovery_tick@);
            let (latest, delay) = (state.latest_probe_tick, state.failback_delay_ticks);
            &&& has_leader && local_healthy && consensus_fresh
            &&& state.vip_assignments@.contains_key(vip)
            &&& a.holder == node_id
            &&& latest >= a.activation_tick
            &&& a.previous_holder matches Some(p) ==> {
                ||| a.previous_holder_released
                ||| state.node_failback_blocked@.contains(p)
                ||| !health.contains_key(p) || !health[p]
                ||| !ticks.contains_key(p) || latest > ticks[p] + state.stale_missed_probes
                ||| delay > 0 && recovery.contains_key(p) && latest < recovery[p] + delay
            }
        },
{
}

/// A tick plans every VIP of the list, in its place, from one and the same state.
pub proof fn law_every_vip_is_planned_from_one_state(
    state: &KafStorageState,
    has_leader: bool,
    local_healthy: bool,
    consensus_fresh: bool,
    node_id: u64,
    vips: &[(VipAddr, String)],
    plans: Vec<VipPlan>,
    i: int,
    b: bool,
)
    requires
        call_ensures(plan, (state, has_leader, local_healthy, consensus_fresh, node_id, vips), plans),
        0 <= i < vips@.len(),
        call_ensures(wants_bind, (state, has_leader, local_healthy, consensus_fresh, node_id, vips@[i].0.addr), b),
    ensures
        plans@.len() == vips@.len(),
        plans@[i].want_bind == b,
        plans@[i].assignment is Some <==> state.vip_assignments@.contains_key(vips@[i].0.addr),
        plans@[i].assignment matches Some(a) ==> a == state.vip_assignments@[vips@[i].0.addr],
{
    assert(plans@[i].want_bind == wanted(state@, has_leader, local_healthy, consensus_fresh, node_id, vips@[i].0.addr));
}

/// A transition is told exactly if it took effect and changed something: `MASTER` for an address that
/// came, `FAULT` for one that left while the local probe fails, `BACKUP` for one that left otherwise.
pub proof fn law_every_real_transition_is_told(want_bind: bool, was_bound: bool, success: bool, local_ok: bool, state: Option<VipState>)
    requires
        call_ensures(transition, (want_bind, was_bound, success, local_ok), state),
    ensures
        state is Some <==> success && want_bind != was_bound,
        state == Some(VipState::Master) <==> success && want_bind && !was_bound,
        state == Some(VipState::Backup) <==> success && !want_bind && was_bound && local_ok,
        state == Some(VipState::Fault) <==> success && !want_bind && was_bound && !local_ok,
{
}

/// A release ack is owed exactly by the node that the assignment names as the previous holder, until it
/// is committed or this node has published it for that generation.
pub proof fn law_acks_are_owed_by_the_previous_holder_alone(
    a: &VipAssignment,
    node_id: u64,
    vip: IpAddr,
    acked: &AddrMap<u64>,
    b: bool,
)
    requires
        call_ensures(should_publish_release, (a, node_id, vip, acked), b),
    ensures
        b <==> {
            &&& a.previous_holder == Some(node_id)
            &&& !a.previous_holder_released
            &&& !acked@.contains_key(vip) || acked@[vip] != a.generation
        },
{
}

/// The ack that is published is for the assignment's generation, and it is published exactly if it is
/// owed and the address is off the host. What was acked is remembered as long as a release is waited
/// for from this node, and forgotten then; other VIPs are left alone.
pub proof fn law_an_owed_ack_is_published_once_the_address_is_gone(
    a: VipAssignment,
    node_id: u64,
    vip: IpAddr,
    removed: bool,
    acked: Map<IpAddr, u64>,
    other: IpAddr,
)
    ensures
        ({
            let waited_for = a.previous_holder == Some(node_id) && !a.previous_holder_released;
            let due = release_due(Some(a), node_id, vip, removed, acked);
            let kept = remembered(Some(a), node_id, vip, acked);
            &&& due is Some <==> waited_for && removed && (!acked.contains_key(vip) || acked[vip] != a.generation)
            &&& due matches Some(request) ==> request == (KafRequest::VipReleased { node_id, vip, generation: a.generation })
            &&& kept.contains_key(vip) <==> acked.contains_key(vip) && waited_for
            &&& kept.contains_key(vip) ==> kept[vip] == acked[vip]
            &&& other != vip ==> kept.contains_key(other) == acked.contains_key(other) && (acked.contains_key(other) ==> kept[other] == acked[other])
        }),
        release_due(None, node_id, vip, removed, acked) is None,
        !remembered(None, node_id, vip, acked).contains_key(vip),
{
}

/// Something is run for a VIP exactly if this is no dry run and the VIP is wanted or on the books. If the
/// run fails, an address that was to be added is not on the books, and one that was to be removed still
/// is.
pub proof fn law_a_failed_run_leaves_the_books_as_the_host_is(books: Set<IpAddr>, dry: bool, want_bind: bool, ip: IpAddr)
    ensures
        takes_a_run(books, dry, want_bind, ip) <==> !dry && (want_bind || books.contains(ip)),
        takes_a_run(books, dry, want_bind, ip) ==> ended(begun(books, dry, want_bind, ip), true, want_bind, false, ip).contains(ip)
            == !want_bind,
        want_bind ==> begun(books, dry, want_bind, ip).contains(ip),
        !want_bind && !dry ==> begun(books, dry, want_bind, ip).contains(ip) == books.contains(ip),
{
}

/// Binding puts the address on the books before anything is run, and `ip` is to replace it on its
/// interface, unless this is a dry run. Success keeps it there and announces an IPv4 address that is new;
/// failure takes it off again.
pub proof fn law_a_bound_address_is_on_the_books_unless_the_run_fails(iface: &str, ip: IpAddr, prefix: u8, other: IpAddr)
    ensures
        forall|v: &mut LocalVip, step: BindStep| #[trigger] call_ensures(LocalVip::bind, (v, iface, ip, prefix), step) ==> {
            &&& (*final(v))@.contains(ip)
            &&& other != ip ==> (*final(v))@.contains(other) == (*v)@.contains(other)
            &&& (*final(v)).dry() == (*v).dry()
            &&& step.first_bind == !(*v)@.contains(ip)
            &&& step.command is Some <==> !(*v).dry()
            &&& step.command matches Some(args) ==> texts(args@) == seq![
                if ip is V4 { "-4"@ } else { "-6"@ },
                "addr"@,
                "replace"@,
                ip_text(ip) + "/"@ + crate::text::decimal(prefix as nat),
                "dev"@,
                iface@,
            ]
        },
        forall|v: &mut LocalVip, first: bool, success: bool, announce: Option<Vec<String>>| #[trigger]
            call_ensures(LocalVip::bind_finished, (v, iface, ip, first, success), announce) ==> {
                &&& success ==> (*final(v))@ == (*v)@
                &&& !success ==> !(*final(v))@.contains(ip) && (other != ip ==> (*final(v))@.contains(other) == (*v)@.contains(other))
                &&& announce is Some <==> success && first && ip is V4
                &&& announce matches Some(args) ==> texts(args@) == seq!["-q"@, "-U"@, "-c"@, "2"@, "-I"@, iface@, ip_text(ip)]
            },
{
}

/// Only an address on the books is removed: `ip` is to delete it from its interface, and it stays on the
/// books until that has succeeded. A dry run takes it off at once and runs nothing.
pub proof fn law_a_removed_address_stays_on_the_books_until_it_is_gone(iface: &str, ip: IpAddr, prefix: u8, other: IpAddr)
    ensures
        forall|v: &mut LocalVip, command: Option<Vec<String>>| #[trigger] call_ensures(LocalVip::unbind, (v, iface, ip, prefix), command) ==> {
            &&& (*final(v))@.contains(ip) <==> (*v)@.contains(ip) && !(*v).dry()
            &&& other != ip ==> (*final(v))@.contains(other) == (*v)@.contains(other)
            &&& command is Some <==> (*v)@.contains(ip) && !(*v).dry()
            &&& command matches Some(args) ==> texts(args@) == seq![
                if ip is V4 { "-4"@ } else { "-6"@ },
                "addr"@,
                "del"@,
                ip_text(ip) + "/"@ + crate::text::decimal(prefix as nat),
                "dev"@,
                iface@,
            ]
        },
        forall|v: &mut LocalVip, success: bool| #[trigger] call_ensures(LocalVip::unbind_finished, (v, ip, success), ()) ==> {
            &&& (*final(v))@.contains(ip) <==> (*v)@.contains(ip) && !success
            &&& other != ip ==> (*final(v))@.contains(other) == (*v)@.contains(other)
        },
{
}

/// A start removes every configured VIP from its interface, in the order of the list, unless this is a
/// dry run, and nothing is on the books then.
pub proof fn law_a_start_reclaims_every_configured_vip(vips: &[(VipAddr, String)], i: int)
    requires
        0 <= i < vips@.len(),
    ensures
        forall|v: &mut LocalVip, commands: Vec<Vec<String>>| #[trigger] call_ensures(LocalVip::startup_cleanup, (v, vips), commands) ==> {
            &&& (*final(v))@ == Set::<IpAddr>::empty()
            &&& (*v).dry() ==> commands@.len() == 0
            &&& !(*v).dry() ==> commands@.len() == vips@.len() && texts(commands@[i]@) == seq![
                if vips@[i].0.addr is V4 { "-4"@ } else { "-6"@ },
                "addr"@,
                "del"@,
                ip_text(vips@[i].0.addr) + "/"@ + crate::text::decimal(vips@[i].0.prefix as nat),
                "dev"@,
                vips@[i].1@,
            ]
        },
{
    assert forall|v: &mut LocalVip, commands: Vec<Vec<String>>| #[trigger] call_ensures(LocalVip::startup_cleanup, (v, vips), commands) implies ({
        &&& (*final(v))@ == Set::<IpAddr>::empty()
        &&& (*v).dry() ==> commands@.len() == 0
        &&& !(*v).dry() ==> commands@.len() == vips@.len() && texts(commands@[i]@) == seq![
            if vips@[i].0.addr is V4 { "-4"@ } else { "-6"@ },
            "addr"@,
            "del"@,
            ip_text(vips@[i].0.addr) + "/"@ + crate::text::decimal(vips@[i].0.prefix as nat),
            "dev"@,
            vips@[i].1@,
        ]
    }) by {
        let said = commands@.map_values(|c: Vec<String>| texts(c@));
        if (*v).dry() {
            assert(said.len() == 0);
        } else {
            assert(said.len() == vips@.len());
            assert(said[i] == all_removals(vips@)[i]);
        }
    }
}

/// One round of reconciling a VIP, from its plan to its end. Something is run exactly if this is no dry
/// run and the VIP is wanted or on the books. If that went well the VIP is on the books exactly if it is
/// wanted, and a change is told. Other VIPs are left alone. A release is acked only for a VIP that is not
/// wanted and gone.
pub proof fn law_a_round_brings_a_vip_in_line_with_its_plan(
    plan: VipPlan,
    vip: VipAddr,
    iface: &str,
    success: bool,
    local_ok: bool,
    node_id: u64,
    other: IpAddr,
)
    ensures
        forall|
            a: &mut LocalVip,
            x: &mut AddrMap<u64>,
            step: ReconcileStep,
            b: &mut LocalVip,
            y: &mut AddrMap<u64>,
            end: ReconcileEnd,
        |
            ({
                &&& #[trigger] call_ensures(reconcile_start, (a, x, plan, vip, iface), step)
                &&& #[trigger] call_ensures(reconcile_finish, (b, y, &step, vip, iface, success, local_ok, node_id), end)
                &&& *b == *final(a)
                &&& *y == *final(x)
            }) ==> {
                let (was, dry) = ((*a)@.contains(vip.addr), (*a).dry());
                let acked = (*x)@;
                &&& step.command is Some <==> !dry && (plan.want_bind || was)
                &&& end.done <==> step.command is None || success
                &&& end.done ==> (*final(b))@.contains(vip.addr) == plan.want_bind
                &&& !end.done ==> (*final(b))@.contains(vip.addr) == !plan.want_bind
                &&& other != vip.addr ==> (*final(b))@.contains(other) == (*a)@.contains(other)
                &&& end.notify is Some <==> end.done && plan.want_bind != was
                &&& end.notify == Some(VipState::Master) <==> end.done && plan.want_bind && !was
                &&& end.notify == Some(VipState::Fault) <==> end.done && !plan.want_bind && was && !local_ok
                &&& end.release is Some <==> {
                    &&& !plan.want_bind && end.done
                    &&& plan.assignment is Some
                    &&& plan.assignment->0.previous_holder == Some(node_id)
                    &&& !plan.assignment->0.previous_holder_released
                    &&& !acked.contains_key(vip.addr) || acked[vip.addr] != plan.assignment->0.generation
                }
                &&& end.release matches Some(request) ==> request == (KafRequest::VipReleased {
                    node_id,
                    vip: vip.addr,
                    generation: plan.assignment->0.generation,
                })
                &&& plan.want_bind ==> !(*final(y))@.contains_key(vip.addr)
            },
{
}

/// The walk over the list names the next address that is on the books, and its removal; on a dry run all
/// are off the books at once.
pub proof fn law_the_walk_finds_the_next_bound_address(vips: &[(VipAddr, String)], from: usize, k: int)
    requires
        from <= k < vips@.len(),
    ensures
        forall|v: &mut LocalVip, next: Option<(usize, Vec<String>)>| #[trigger] call_ensures(LocalVip::unbind_all, (v, vips, from), next) ==> {
            let ip = vips@[k].0.addr;
            &&& (*v).dry() ==> next is None && !(*final(v))@.contains(ip)
            &&& !(*v).dry() ==> (*final(v))@ == (*v)@
            &&& !(*v).dry() && (*v)@.contains(ip) ==> (next matches Some((i, _)) && i <= k)
            &&& next matches Some((i, args)) ==> {
                &&& from <= i < vips@.len() && (*v)@.contains(vips@[i as int].0.addr)
                &&& texts(args@)[2] == "del"@ && texts(args@)[5] == vips@[i as int].1@
            }
        },
{
    assert forall|v: &mut LocalVip, next: Option<(usize, Vec<String>)>| #[trigger] call_ensures(LocalVip::unbind_all, (v, vips, from), next) implies ({
        let ip = vips@[k].0.addr;
        &&& (*v).dry() ==> next is None && !(*final(v))@.contains(ip)
        &&& !(*v).dry() ==> (*final(v))@ == (*v)@
        &&& !(*v).dry() && (*v)@.contains(ip) ==> (next matches Some((i, _)) && i <= k)
        &&& next matches Some((i, args)) ==> {
            &&& from <= i < vips@.len() && (*v)@.contains(vips@[i as int].0.addr)
            &&& texts(args@)[2] == "del"@ && texts(args@)[5] == vips@[i as int].1@
        }
    }) by {
        lemma_addrs_from(vips@, from as int, vips@[k].0.addr);
    }
}

/// A published ack is remembered for its VIP and generation exactly if publishing it succeeded, and
/// consensus is fresh exactly then; a VIP that this node is to hold again is forgotten.
pub proof fn law_a_published_ack_is_remembered(vip: IpAddr, generation: u64, success: bool, other: IpAddr, fresh: bool)
    ensures
        forall|g: &mut AddrMap<u64>| #[trigger] call_ensures(release_published, (vip, generation, success, g), fresh) ==> {
            &&& fresh == success
            &&& success ==> (*final(g))@.contains_key(vip) && (*final(g))@[vip] == generation
            &&& !success ==> (*final(g))@ == (*g)@
            &&& other != vip ==> (*final(g))@.contains_key(other) == (*g)@.contains_key(other)
        },
        forall|g: &mut AddrMap<u64>| #[trigger] call_ensures(forget_release, (vip, g), ()) ==> {
            &&& !(*final(g))@.contains_key(vip)
            &&& other != vip ==> (*final(g))@.contains_key(other) == (*g)@.contains_key(other)
        },
{
}

/// The notify script is told the address and the state in a word, unless this is a dry run; a release is
/// told as `FAULT` exactly if the local probe fails.
pub proof fn law_the_notify_script_is_told_address_and_state(
    vip: IpAddr,
    state: VipState,
    dry_run: bool,
    args: Option<Vec<String>>,
    local_ok: bool,
    released: VipState,
)
    requires
        call_ensures(notify_args, (vip, state, dry_run), args),
        call_ensures(release_notify_state, (local_ok,), released),
    ensures
        args is None <==> dry_run,
        args matches Some(a) ==> {
            let word = match state { VipState::Master => "MASTER"@, VipState::Backup => "BACKUP"@, VipState::Fault => "FAULT"@ };
            texts(a@) == seq!["INSTANCE"@, ip_text(vip), word]
        },
        released == VipState::Fault <==> !local_ok,
        released == VipState::Backup <==> local_ok,
{
}

} // verus!
