//! Multicast-DNS discovery transport.
//!
//! Advertises this instance as a service record under
//! `_{app_name}._udp.local.`, decodes resolved records of other instances
//! back into identities, and feeds the shared registry. The surrounding
//! event loop (waiting on hook events, the re-advertisement timer, and the
//! daemon's event channel) performs the I/O and calls into the handlers
//! here; every decision the loop takes is made by this module.

use vstd::prelude::*;

use crate::hooks::{
    has_hook, lemma_vec_deep_view_index, spec_publish, spec_unregister, EventV, HookEvent, HookId,
    HookV,
};
use crate::identity::{bytes_dup, id_text};
use crate::naming::{
    domain_of, fullname_of, fullname_to_identity, name_to_identity, service_domain,
    service_fullname,
};
use crate::p2p::{has_peer, peer_idx, P2P};
use crate::peer::{Peer, PeerStatus, PeerV};

verus! {

/// Milliseconds between re-advertisements of the local service record.
pub const READVERTISEMENT_INTERVAL_MS: u64 = 60000;

/// Milliseconds granted to the multicast stack, after deregistration, to
/// emit its goodbye packets before the daemon is stopped.
pub const SHUTDOWN_GRACE_MS: u64 = 100;

/// Bound of the transport's hook-event queue.
pub const HOOK_QUEUE_CAPACITY: usize = 15;

#[verifier::external_type_specification]
#[verifier::external_body]
pub struct ExServiceInfo(mdns_sd::ServiceInfo);

#[verifier::external_type_specification]
#[verifier::external_body]
pub struct ExServiceEvent(mdns_sd::ServiceEvent);

#[verifier::external_type_specification]
#[verifier::external_body]
pub struct ExResolvedService(mdns_sd::ResolvedService);

/// Whether mdns_sd::ServiceInfo::new accepts these arguments and builds a
/// record. Success depends on the arguments alone (validation of the
/// names, the addresses and the properties), so it has a name.
pub uninterp spec fn record_ok(
    domain: Seq<u8>,
    instance: Seq<u8>,
    host: Seq<u8>,
    ips: Seq<Seq<char>>,
    port: u16,
    props: Seq<(Seq<char>, Seq<char>)>,
) -> bool;

/// Relies on mdns_sd::ServiceInfo::new: it validates the domain, the
/// instance name, the addresses and the properties, and builds one service
/// record, or fails on invalid input — deterministically in its arguments;
/// and on mdns_sd::ServiceInfo::enable_addr_auto via a separate wrapper
/// below.
#[verifier::external_body]
fn service_info_new(
    domain: &Vec<u8>,
    instance: &Vec<u8>,
    host: &Vec<u8>,
    ips: &Vec<String>,
    port: u16,
    properties: &Vec<(String, String)>,
) -> (r: Option<mdns_sd::ServiceInfo>)
    ensures
        r is Some <==> record_ok(
            domain@,
            instance@,
            host@,
            ips.deep_view(),
            port,
            properties.deep_view(),
        ),
{
    let domain = String::from_utf8_lossy(domain).into_owned();
    let instance = String::from_utf8_lossy(instance).into_owned();
    let host = String::from_utf8_lossy(host).into_owned();
    mdns_sd::ServiceInfo::new(
        domain.as_str(),
        instance.as_str(),
        host.as_str(),
        &ips[..],
        port,
        &properties[..],
    ).ok()
}

/// Relies on mdns_sd::ServiceInfo::enable_addr_auto: the daemon fills in
/// the host's own addresses when the record is registered.
#[verifier::external_body]
fn service_info_enable_addr_auto(info: mdns_sd::ServiceInfo) -> mdns_sd::ServiceInfo {
    info.enable_addr_auto()
}

/// Relies on the mdns_sd::ResolvedService.fullname field: the
/// fully-qualified name of the resolved record, as bytes.
#[verifier::external_body]
fn resolved_fullname(info: &mdns_sd::ResolvedService) -> Vec<u8> {
    info.fullname.as_bytes().to_vec()
}

/// Relies on mdns_sd::TxtProperties::iter and mdns_sd::TxtProperty::key /
/// val_str: the decoded TXT properties of the resolved record.
#[verifier::external_body]
fn resolved_properties(info: &mdns_sd::ResolvedService) -> Vec<(String, String)> {
    info.txt_properties.iter().map(|p| (p.key().to_string(), p.val_str().to_string())).collect()
}

/// A daemon event, reduced to what the transport reacts to.
pub enum DaemonEvent {
    /// A record of another instance was resolved.
    Resolved(mdns_sd::ResolvedService),
    /// A record disappeared; carries its fully-qualified name.
    Removed(Vec<u8>),
    /// Search bookkeeping the transport ignores.
    Other,
}

/// Relies on mdns_sd::ServiceEvent's variants: one arm each, moving fields.
#[verifier::external_body]
fn classify_event(event: mdns_sd::ServiceEvent) -> DaemonEvent {
    match event {
        mdns_sd::ServiceEvent::ServiceResolved(info) => DaemonEvent::Resolved(*info),
        mdns_sd::ServiceEvent::ServiceRemoved(_, fullname) => DaemonEvent::Removed(
            fullname.into_bytes(),
        ),
        _ => DaemonEvent::Other,
    }
}

/// The addresses, in listener order, of the listeners bound to port `p`.
pub open spec fn ips_for_port(ls: Seq<(Seq<char>, (Seq<char>, u16))>, p: u16) -> Seq<Seq<char>>
    decreases ls.len(),
{
    if ls.len() == 0 {
        Seq::empty()
    } else {
        let init = ips_for_port(ls.drop_last(), p);
        if ls.last().1.1 == p {
            init.push(ls.last().1.0)
        } else {
            init
        }
    }
}

/// Whether some listener is bound to port `p`.
pub open spec fn port_present(ls: Seq<(Seq<char>, (Seq<char>, u16))>, p: u16) -> bool {
    exists|i: int| 0 <= i < ls.len() && ls[i].1.1 == p
}

proof fn lemma_ips_for_port_step(ls: Seq<(Seq<char>, (Seq<char>, u16))>, i: int, p: u16)
    requires
        0 <= i < ls.len(),
    ensures
        ips_for_port(ls.subrange(0, i + 1), p) == if ls[i].1.1 == p {
            ips_for_port(ls.subrange(0, i), p).push(ls[i].1.0)
        } else {
            ips_for_port(ls.subrange(0, i), p)
        },
{
    let pre = ls.subrange(0, i + 1);
    assert(pre.drop_last() =~= ls.subrange(0, i));
    assert(pre.last() == ls[i]);
}

proof fn lemma_ips_for_port_absent(ls: Seq<(Seq<char>, (Seq<char>, u16))>, p: u16)
    requires
        !port_present(ls, p),
    ensures
        ips_for_port(ls, p) == Seq::<Seq<char>>::empty(),
    decreases ls.len(),
{
    if ls.len() > 0 {
        assert(!port_present(ls.drop_last(), p)) by {
            if port_present(ls.drop_last(), p) {
                let i = choose|i: int|
                    0 <= i < ls.drop_last().len() && ls.drop_last()[i].1.1 == p;
                assert(ls[i].1.1 == p);
            }
        }
        lemma_ips_for_port_absent(ls.drop_last(), p);
        assert(ls.last().1.1 != p) by {
            if ls.last().1.1 == p {
                assert(ls[ls.len() - 1].1.1 == p);
            }
        }
    }
}

/// The distinct listener ports, in order of first appearance: the ports of
/// the advertisement plans, in plan order.
pub open spec fn spec_plan_ports(ls: Seq<(Seq<char>, (Seq<char>, u16))>) -> Seq<u16>
    decreases ls.len(),
{
    if ls.len() == 0 {
        Seq::empty()
    } else {
        let init = spec_plan_ports(ls.drop_last());
        if init.contains(ls.last().1.1) {
            init
        } else {
            init.push(ls.last().1.1)
        }
    }
}

proof fn lemma_plan_ports_step(ls: Seq<(Seq<char>, (Seq<char>, u16))>, i: int)
    requires
        0 <= i < ls.len(),
    ensures
        spec_plan_ports(ls.subrange(0, i + 1)) == if spec_plan_ports(ls.subrange(0, i)).contains(
            ls[i].1.1,
        ) {
            spec_plan_ports(ls.subrange(0, i))
        } else {
            spec_plan_ports(ls.subrange(0, i)).push(ls[i].1.1)
        },
{
    let pre = ls.subrange(0, i + 1);
    assert(pre.drop_last() =~= ls.subrange(0, i));
    assert(pre.last() == ls[i]);
}

/// How many of these ports yield a record that mdns_sd accepts, when each
/// is advertised with the addresses of the listeners bound to it.
pub open spec fn ok_record_count(
    ports: Seq<u16>,
    ls: Seq<(Seq<char>, (Seq<char>, u16))>,
    domain: Seq<u8>,
    instance: Seq<u8>,
    host: Seq<u8>,
    props: Seq<(Seq<char>, Seq<char>)>,
) -> nat
    decreases ports.len(),
{
    if ports.len() == 0 {
        0
    } else {
        ok_record_count(ports.drop_last(), ls, domain, instance, host, props) + if record_ok(
            domain,
            instance,
            host,
            ips_for_port(ls, ports.last()),
            ports.last(),
            props,
        ) {
            1nat
        } else {
            0nat
        }
    }
}

/// One planned advertisement record: a port and every listener address
/// bound to it.
pub struct AdvertPlan {
    pub port: u16,
    pub ips: Vec<String>,
}

/// Group the current listener addresses by port: one plan per distinct
/// port, carrying exactly the addresses of the listeners bound to that
/// port, in listener order. No listeners means no plans.
pub fn plan_advertisements(listeners: &Vec<(String, crate::peer::Address)>) -> (plans: Vec<
    AdvertPlan,
>)
    ensures
        forall|k: int|
            0 <= k < plans@.len() ==> (#[trigger] plans@[k]).ips.deep_view() == ips_for_port(
                listeners.deep_view(),
                plans@[k].port,
            ),
        forall|k1: int, k2: int|
            0 <= k1 < k2 < plans@.len() ==> plans@[k1].port != plans@[k2].port,
        forall|k: int|
            0 <= k < plans@.len() ==> port_present(listeners.deep_view(), (#[trigger] plans@[k]).port),
        forall|p: u16|
            port_present(listeners.deep_view(), p) ==> exists|k: int|
                0 <= k < plans@.len() && plans@[k].port == p,
        plans@.len() == spec_plan_ports(listeners.deep_view()).len(),
        forall|k: int|
            0 <= k < plans@.len() ==> (#[trigger] plans@[k]).port == spec_plan_ports(
                listeners.deep_view(),
            )[k],
{
    let ghost lsv = listeners.deep_view();
    let mut plans: Vec<AdvertPlan> = Vec::new();
    let mut i: usize = 0;
    while i < listeners.len()
        invariant
            lsv == listeners.deep_view(),
            lsv.len() == listeners@.len(),
            i <= listeners@.len(),
            forall|k: int|
                0 <= k < plans@.len() ==> (#[trigger] plans@[k]).ips.deep_view() == ips_for_port(
                    lsv.subrange(0, i as int),
                    plans@[k].port,
                ),
            forall|k1: int, k2: int|
                0 <= k1 < k2 < plans@.len() ==> plans@[k1].port != plans@[k2].port,
            forall|k: int|
                0 <= k < plans@.len() ==> port_present(
                    lsv.subrange(0, i as int),
                    (#[trigger] plans@[k]).port,
                ),
            forall|p: u16|
                port_present(lsv.subrange(0, i as int), p) ==> exists|k: int|
                    0 <= k < plans@.len() && plans@[k].port == p,
            plans@.len() == spec_plan_ports(lsv.subrange(0, i as int)).len(),
            forall|k: int|
                0 <= k < plans@.len() ==> (#[trigger] plans@[k]).port == spec_plan_ports(
                    lsv.subrange(0, i as int),
                )[k],
        decreases listeners@.len() - i,
    {
        proof {
            lemma_vec_deep_view_index(listeners, i as int);
        }
        let port = listeners[i].1.port;
        let ip = listeners[i].1.ip.clone();
        let ghost prefix = lsv.subrange(0, i as int);
        let ghost prefix1 = lsv.subrange(0, i + 1 as int);
        proof {
            assert(lsv[i as int] == listeners@[i as int].deep_view());
            assert(lsv[i as int].1.1 == port);
            assert(lsv[i as int].1.0 == ip.deep_view());
        }
        let n = plans.len();
        let mut j: usize = 0;
        while j < n && plans[j].port != port
            invariant
                n == plans@.len(),
                j <= n,
                forall|l: int| 0 <= l < j ==> plans@[l].port != port,
            decreases n - j,
        {
            j += 1;
        }
        if j < n {
            let ghost prev = plans@;
            let mut plan = plans.remove(j);
            let ghost q0 = plan.ips.deep_view();
            plan.ips.push(ip);
            proof {
                assert forall|l: int| 0 <= l < plan.ips@.len() implies #[trigger] plan
                    .ips.deep_view()[l] == q0.push(lsv[i as int].1.0)[l] by {
                    lemma_vec_deep_view_index(&plan.ips, l);
                    if l < plan.ips@.len() - 1 {
                        lemma_vec_deep_view_index(&prev[j as int].ips, l);
                    }
                }
                assert(plan.ips.deep_view() =~= q0.push(lsv[i as int].1.0));
            }
            plans.insert(j, plan);
            proof {
                assert forall|l: int| 0 <= l < plans@.len() && l != j implies plans@[l] == prev[
                    l] by {
                    assert(plans@ == prev.remove(j as int).insert(j as int, plans@[j as int]));
                }
                assert forall|k: int| 0 <= k < plans@.len() implies (#[trigger] plans@[k])
                    .ips.deep_view() == ips_for_port(prefix1, plans@[k].port) by {
                    lemma_ips_for_port_step(lsv, i as int, plans@[k].port);
                    assert(prefix1.subrange(0, i as int) =~= prefix);
                    assert(lsv.subrange(0, i as int) == prefix);
                }
                assert forall|k: int| 0 <= k < plans@.len() implies port_present(
                    prefix1,
                    (#[trigger] plans@[k]).port,
                ) by {
                    let w = choose|w: int| 0 <= w < prefix.len() && prefix[w].1.1 == plans@[k].port;
                    if plans@[k].port == port {
                        assert(prefix1[i as int].1.1 == plans@[k].port);
                    } else {
                        assert(prefix1[w].1.1 == plans@[k].port);
                    }
                }
                assert forall|p: u16| port_present(prefix1, p) implies exists|k: int|
                    0 <= k < plans@.len() && plans@[k].port == p by {
                    let w = choose|w: int| 0 <= w < prefix1.len() && prefix1[w].1.1 == p;
                    if w < i as int {
                        assert(prefix[w].1.1 == p);
                        assert(port_present(prefix, p));
                        let k = choose|k: int| 0 <= k < prev.len() && prev[k].port == p;
                        assert(plans@[k].port == p);
                    } else {
                        assert(p == port);
                        assert(plans@[j as int].port == p);
                    }
                }
                lemma_plan_ports_step(lsv, i as int);
                assert(spec_plan_ports(prefix)[j as int] == prev[j as int].port);
                assert(spec_plan_ports(prefix).contains(port));
                assert(spec_plan_ports(prefix1) == spec_plan_ports(prefix));
                assert forall|k: int| 0 <= k < plans@.len() implies (#[trigger] plans@[k]).port
                    == spec_plan_ports(prefix1)[k] by {
                    if k != j as int {
                        assert(plans@[k] == prev[k]);
                    }
                }
            }
        } else {
            proof {
                assert(!port_present(prefix, port)) by {
                    if port_present(prefix, port) {
                        let k = choose|k: int|
                            0 <= k < plans@.len() && plans@[k].port == port;
                        assert(plans@[k].port != port);
                    }
                }
                lemma_ips_for_port_absent(prefix, port);
            }
            let ghost prev = plans@;
            let mut ips: Vec<String> = Vec::new();
            ips.push(ip);
            proof {
                assert(ips.deep_view() =~= Seq::<Seq<char>>::empty().push(lsv[i as int].1.0)) by {
                    lemma_vec_deep_view_index(&ips, 0);
                }
            }
            plans.push(AdvertPlan { port, ips });
            proof {
                assert forall|k: int| 0 <= k < plans@.len() implies (#[trigger] plans@[k])
                    .ips.deep_view() == ips_for_port(prefix1, plans@[k].port) by {
                    lemma_ips_for_port_step(lsv, i as int, plans@[k].port);
                    assert(prefix1.subrange(0, i as int) =~= prefix);
                    if k < plans@.len() - 1 {
                        assert(plans@[k] == prev[k]);
                        assert(plans@[k].port != port);
                    } else {
                        assert(plans@[k].ips.deep_view() == ips.deep_view());
                    }
                }
                assert forall|k: int| 0 <= k < plans@.len() implies port_present(
                    prefix1,
                    (#[trigger] plans@[k]).port,
                ) by {
                    if k < plans@.len() - 1 {
                        let w = choose|w: int|
                            0 <= w < prefix.len() && prefix[w].1.1 == plans@[k].port;
                        assert(prefix1[w].1.1 == plans@[k].port);
                    } else {
                        assert(prefix1[i as int].1.1 == port);
                    }
                }
                assert forall|p: u16| port_present(prefix1, p) implies exists|k: int|
                    0 <= k < plans@.len() && plans@[k].port == p by {
                    let w = choose|w: int| 0 <= w < prefix1.len() && prefix1[w].1.1 == p;
                    if w < i as int {
                        assert(prefix[w].1.1 == p);
                        assert(port_present(prefix, p));
                        let k = choose|k: int| 0 <= k < prev.len() && prev[k].port == p;
                        assert(plans@[k].port == p);
                    } else {
                        assert(p == port);
                        assert(plans@[plans@.len() - 1].port == p);
                    }
                }
                lemma_plan_ports_step(lsv, i as int);
                assert(!spec_plan_ports(prefix).contains(port)) by {
                    if spec_plan_ports(prefix).contains(port) {
                        let w = choose|w: int|
                            0 <= w < spec_plan_ports(prefix).len() && spec_plan_ports(prefix)[w]
                                == port;
                        assert(prev[w].port == port);
                    }
                }
                assert(spec_plan_ports(prefix1) == spec_plan_ports(prefix).push(port));
                assert forall|k: int| 0 <= k < plans@.len() implies (#[trigger] plans@[k]).port
                    == spec_plan_ports(prefix1)[k] by {
                    if k < plans@.len() - 1 {
                        assert(plans@[k] == prev[k]);
                    }
                }
            }
        }
        i += 1;
    }
    proof {
        assert(lsv.subrange(0, lsv.len() as int) =~= lsv);
    }
    plans
}

/// One step of the transport's orderly teardown. The order is part of the
/// protocol: the local record is deregistered first, then the multicast
/// stack is granted a short grace period to emit its goodbye packets, and
/// only then is the daemon stopped.
pub enum ShutdownStep {
    /// Deregister the record with this fully-qualified name from the daemon.
    UnregisterService(Vec<u8>),
    /// Wait this many milliseconds for goodbye packets to go out.
    GraceWait(u64),
    /// Ask the daemon to shut down and await its acknowledgment.
    StopDaemon,
}

/// The mathematical content of a `ShutdownStep`.
pub enum ShutdownStepV {
    UnregisterService(Seq<u8>),
    GraceWait(u64),
    StopDaemon,
}

impl DeepView for ShutdownStep {
    type V = ShutdownStepV;

    open spec fn deep_view(&self) -> ShutdownStepV {
        match self {
            ShutdownStep::UnregisterService(name) => ShutdownStepV::UnregisterService(name@),
            ShutdownStep::GraceWait(ms) => ShutdownStepV::GraceWait(*ms),
            ShutdownStep::StopDaemon => ShutdownStepV::StopDaemon,
        }
    }
}

/// The teardown sequence for a service with this fully-qualified name.
pub open spec fn spec_shutdown_steps(name: Seq<u8>) -> Seq<ShutdownStepV> {
    seq![
        ShutdownStepV::UnregisterService(name),
        ShutdownStepV::GraceWait(SHUTDOWN_GRACE_MS),
        ShutdownStepV::StopDaemon,
    ]
}

/// The transport's reaction to one hook event, for the event loop to carry
/// out.
pub enum HookReaction {
    /// Nothing to do.
    Ignore,
    /// Register these freshly built records with the daemon.
    Advertise(Vec<mdns_sd::ServiceInfo>),
    /// Run the teardown steps in order, then exit the loop.
    BeginShutdown(Vec<ShutdownStep>),
}

/// The mDNS transport: its hook subscription and its advertisement state.
pub struct Mdns {
    hook_id: HookId,
    service_domain: Vec<u8>,
    service_name: Vec<u8>,
    next_advert_at_ms: u64,
}

impl Mdns {
    /// The handle of this transport's hook subscription.
    pub closed spec fn spec_hook_id(&self) -> u64 {
        self.hook_id.spec_id()
    }

    /// The service domain browsed and advertised under.
    pub closed spec fn spec_domain(&self) -> Seq<u8> {
        self.service_domain@
    }

    /// This instance's fully-qualified service name.
    pub closed spec fn spec_name(&self) -> Seq<u8> {
        self.service_name@
    }

    /// The deadline of the next timer-driven advertisement cycle.
    pub closed spec fn spec_next_at(&self) -> u64 {
        self.next_advert_at_ms
    }

    pub fn hook_id(&self) -> (h: HookId)
        ensures
            h.spec_id() == self.spec_hook_id(),
    {
        self.hook_id
    }

    pub fn service_domain(&self) -> (d: &Vec<u8>)
        ensures
            d@ == self.spec_domain(),
    {
        &self.service_domain
    }

    pub fn service_name(&self) -> (n: &Vec<u8>)
        ensures
            n@ == self.spec_name(),
    {
        &self.service_name
    }

    pub fn next_advertisement_at(&self) -> (t: u64)
        ensures
            t == self.spec_next_at(),
    {
        self.next_advert_at_ms
    }

    /// Register a hook subscription and set up the advertisement state:
    /// the service domain derived from the registry's application name,
    /// this instance's fully-qualified service name, and the first
    /// re-advertisement deadline. The caller starts the multicast daemon,
    /// browses for the returned domain, and drives the event loop.
    pub fn spawn(p2p: &mut P2P, now_ms: u64) -> (m: Mdns)
        requires
            old(p2p).wf(),
            old(p2p).spec_next_hook_id() < u64::MAX,
            now_ms + READVERTISEMENT_INTERVAL_MS <= u64::MAX,
        ensures
            final(p2p).wf(),
            m.spec_domain() == domain_of(old(p2p).app()),
            m.spec_name() == fullname_of(old(p2p).id(), domain_of(old(p2p).app())),
            m.spec_next_at() == now_ms + READVERTISEMENT_INTERVAL_MS,
            m.spec_hook_id() == old(p2p).spec_next_hook_id(),
            final(p2p).spec_hooks() == old(p2p).spec_hooks().push(
                (m.spec_hook_id(), HOOK_QUEUE_CAPACITY, Seq::<EventV>::empty()),
            ),
            has_hook(final(p2p).spec_hooks(), m.spec_hook_id()),
            final(p2p).id() == old(p2p).id(),
            final(p2p).app() == old(p2p).app(),
            final(p2p).spec_listeners() == old(p2p).spec_listeners(),
            final(p2p).spec_metadata() == old(p2p).spec_metadata(),
            final(p2p).spec_discovered() == old(p2p).spec_discovered(),
            final(p2p).spec_next_hook_id() == old(p2p).spec_next_hook_id() + 1,
    {
        let domain = service_domain(p2p.app_name());
        let name = service_fullname(p2p.remote_identity(), &domain);
        let hook_id = p2p.register_hook(HOOK_QUEUE_CAPACITY);
        Mdns {
            hook_id,
            service_domain: domain,
            service_name: name,
            next_advert_at_ms: now_ms + READVERTISEMENT_INTERVAL_MS,
        }
    }

    /// Deregister the hook subscription: no later registry event reaches
    /// this transport. Consumes the transport.
    pub fn shutdown(self, p2p: &mut P2P)
        requires
            old(p2p).wf(),
        ensures
            final(p2p).wf(),
            final(p2p).spec_hooks() == spec_unregister(old(p2p).spec_hooks(), self.spec_hook_id()),
            !has_hook(final(p2p).spec_hooks(), self.spec_hook_id()),
            final(p2p).id() == old(p2p).id(),
            final(p2p).app() == old(p2p).app(),
            final(p2p).spec_listeners() == old(p2p).spec_listeners(),
            final(p2p).spec_metadata() == old(p2p).spec_metadata(),
            final(p2p).spec_discovered() == old(p2p).spec_discovered(),
            final(p2p).spec_next_hook_id() == old(p2p).spec_next_hook_id(),
    {
        p2p.unregister_hook(self.hook_id);
    }

    /// One advertisement cycle: group the current listeners by port, build
    /// one record per distinct port, and reschedule the next deadline to
    /// now plus the full interval — unconditionally, so transient failures
    /// self-heal on the next cycle. A record that mdns_sd rejects is
    /// skipped and does not abort the rest: exactly the acceptable ports,
    /// in plan order, yield records. The caller registers the returned
    /// records with the daemon.
    pub fn advertise(&mut self, p2p: &P2P, now_ms: u64) -> (records: Vec<mdns_sd::ServiceInfo>)
        requires
            p2p.wf(),
            now_ms + READVERTISEMENT_INTERVAL_MS <= u64::MAX,
        ensures
            final(self).spec_next_at() == now_ms + READVERTISEMENT_INTERVAL_MS,
            now_ms < final(self).spec_next_at(),
            final(self).spec_hook_id() == old(self).spec_hook_id(),
            final(self).spec_domain() == old(self).spec_domain(),
            final(self).spec_name() == old(self).spec_name(),
            records@.len() == ok_record_count(
                spec_plan_ports(p2p.spec_listeners()),
                p2p.spec_listeners(),
                old(self).spec_domain(),
                id_text(p2p.id()),
                old(self).spec_name(),
                p2p.spec_metadata(),
            ),
            p2p.spec_listeners().len() == 0 ==> records@.len() == 0,
    {
        let ghost lsv = p2p.spec_listeners();
        let ghost ports = spec_plan_ports(lsv);
        let plans = plan_advertisements(p2p.listeners());
        proof {
            if lsv.len() == 0 && plans@.len() > 0 {
                assert(port_present(lsv, plans@[0].port));
            }
        }
        let instance = p2p.remote_identity().encode();
        let mut records: Vec<mdns_sd::ServiceInfo> = Vec::new();
        let mut i: usize = 0;
        while i < plans.len()
            invariant
                p2p.wf(),
                lsv == p2p.spec_listeners(),
                ports == spec_plan_ports(lsv),
                plans@.len() == ports.len(),
                forall|k: int|
                    0 <= k < plans@.len() ==> (#[trigger] plans@[k]).port == ports[k]
                        && plans@[k].ips.deep_view() == ips_for_port(lsv, ports[k]),
                i <= plans@.len(),
                self.service_domain@ == old(self).spec_domain(),
                self.service_name@ == old(self).spec_name(),
                instance@ == id_text(p2p.id()),
                records@.len() == ok_record_count(
                    ports.subrange(0, i as int),
                    lsv,
                    old(self).spec_domain(),
                    id_text(p2p.id()),
                    old(self).spec_name(),
                    p2p.spec_metadata(),
                ),
            decreases plans@.len() - i,
        {
            proof {
                assert(ports.subrange(0, i + 1 as int).drop_last() =~= ports.subrange(0, i as int));
                assert(ports.subrange(0, i + 1 as int).last() == ports[i as int]);
            }
            let plan = &plans[i];
            match service_info_new(
                &self.service_domain,
                &instance,
                &self.service_name,
                &plan.ips,
                plan.port,
                p2p.metadata(),
            ) {
                Some(info) => {
                    records.push(service_info_enable_addr_auto(info));
                },
                None => {},
            }
            i += 1;
        }
        proof {
            assert(ports.subrange(0, ports.len() as int) =~= ports);
        }
        self.next_advert_at_ms = now_ms + READVERTISEMENT_INTERVAL_MS;
        records
    }

    /// Build the teardown sequence for this transport's service record.
    pub fn shutdown_steps(&self) -> (steps: Vec<ShutdownStep>)
        ensures
            steps.deep_view() == spec_shutdown_steps(self.spec_name()),
    {
        let mut steps: Vec<ShutdownStep> = Vec::new();
        steps.push(ShutdownStep::UnregisterService(bytes_dup(&self.service_name)));
        steps.push(ShutdownStep::GraceWait(SHUTDOWN_GRACE_MS));
        steps.push(ShutdownStep::StopDaemon);
        proof {
            lemma_vec_deep_view_index(&steps, 0);
            lemma_vec_deep_view_index(&steps, 1);
            lemma_vec_deep_view_index(&steps, 2);
            assert(steps.deep_view() =~= spec_shutdown_steps(self.spec_name()));
        }
        steps
    }

    /// React to one hook event: a metadata or listeners change triggers
    /// exactly one advertisement cycle (rescheduling the timer deadline to
    /// the full interval from now); a discovered-set change is
    /// informational; a registry shutdown yields the teardown sequence.
    pub fn handle_hook_event(&mut self, p2p: &P2P, event: &HookEvent, now_ms: u64) -> (r:
        HookReaction)
        requires
            p2p.wf(),
            now_ms + READVERTISEMENT_INTERVAL_MS <= u64::MAX,
        ensures
            final(self).spec_hook_id() == old(self).spec_hook_id(),
            final(self).spec_domain() == old(self).spec_domain(),
            final(self).spec_name() == old(self).spec_name(),
            (event matches HookEvent::MetadataChange(_) || event
                matches HookEvent::ListenersChange(_)) ==> (r matches HookReaction::Advertise(_)
                && final(self).spec_next_at() == now_ms + READVERTISEMENT_INTERVAL_MS),
            (event matches HookEvent::MetadataChange(_) || event
                matches HookEvent::ListenersChange(_)) ==> (r matches HookReaction::Advertise(
                records,
            ) ==> records@.len() == ok_record_count(
                spec_plan_ports(p2p.spec_listeners()),
                p2p.spec_listeners(),
                old(self).spec_domain(),
                id_text(p2p.id()),
                old(self).spec_name(),
                p2p.spec_metadata(),
            )),
            (event matches HookEvent::DiscoveredChange(_)) ==> (r matches HookReaction::Ignore
                && final(self).spec_next_at() == old(self).spec_next_at()),
            (event matches HookEvent::Shutdown) ==> (final(self).spec_next_at() == old(
                self,
            ).spec_next_at() && (r matches HookReaction::BeginShutdown(steps) ==> steps.deep_view()
                == spec_shutdown_steps(old(self).spec_name())) && (r
                matches HookReaction::BeginShutdown(_))),
    {
        match event {
            HookEvent::DiscoveredChange(_) => HookReaction::Ignore,
            HookEvent::MetadataChange(_) => HookReaction::Advertise(self.advertise(p2p, now_ms)),
            HookEvent::ListenersChange(_) => HookReaction::Advertise(self.advertise(p2p, now_ms)),
            HookEvent::Shutdown => HookReaction::BeginShutdown(self.shutdown_steps()),
        }
    }

    /// React to one daemon event: a resolved record feeds the registry
    /// through `handle_resolved`; a removed record through
    /// `handle_removed`; search bookkeeping is ignored. Whatever the event
    /// carries, the registry invariant holds afterwards, the local
    /// identity is never among the discovered peers, and the registry
    /// either stays as it was or takes exactly one resolution step for
    /// some remote identity.
    pub fn on_event(&self, p2p: &mut P2P, event: mdns_sd::ServiceEvent)
        requires
            old(p2p).wf(),
        ensures
            final(p2p).wf(),
            !has_peer(final(p2p).spec_discovered(), final(p2p).id()),
            final(p2p).id() == old(p2p).id(),
            final(p2p).app() == old(p2p).app(),
            final(p2p).spec_listeners() == old(p2p).spec_listeners(),
            final(p2p).spec_metadata() == old(p2p).spec_metadata(),
            final(p2p).spec_next_hook_id() == old(p2p).spec_next_hook_id(),
            (final(p2p).spec_discovered() == old(p2p).spec_discovered() && final(p2p).spec_hooks()
                == old(p2p).spec_hooks()) || exists|k: Seq<u8>, props: Seq<(Seq<char>, Seq<char>)>|
                #[trigger] resolution_step(
                    old(p2p).spec_discovered(),
                    old(p2p).spec_hooks(),
                    final(p2p).spec_discovered(),
                    final(p2p).spec_hooks(),
                    old(p2p).id(),
                    k,
                    props,
                ),
    {
        match classify_event(event) {
            DaemonEvent::Resolved(info) => {
                let fullname = resolved_fullname(&info);
                let properties = resolved_properties(&info);
                let ghost pv = properties.deep_view();
                handle_resolved(p2p, &self.service_domain, &fullname, properties);
                proof {
                    let parsed = name_to_identity(fullname@, self.spec_domain());
                    if parsed is Some && parsed.unwrap() != old(p2p).id() {
                        assert(resolution_step(
                            old(p2p).spec_discovered(),
                            old(p2p).spec_hooks(),
                            p2p.spec_discovered(),
                            p2p.spec_hooks(),
                            old(p2p).id(),
                            parsed.unwrap(),
                            pv,
                        ));
                    }
                }
            },
            DaemonEvent::Removed(fullname) => {
                handle_removed(p2p, &self.service_domain, &fullname);
                proof {
                    let parsed = name_to_identity(fullname@, self.spec_domain());
                    if parsed is Some && parsed.unwrap() != old(p2p).id() && has_peer(
                        old(p2p).spec_discovered(),
                        parsed.unwrap(),
                    ) {
                        assert(resolution_step(
                            old(p2p).spec_discovered(),
                            old(p2p).spec_hooks(),
                            p2p.spec_discovered(),
                            p2p.spec_hooks(),
                            old(p2p).id(),
                            parsed.unwrap(),
                            Seq::<(Seq<char>, Seq<char>)>::empty(),
                        ));
                    }
                }
            },
            DaemonEvent::Other => {},
        }
    }
}

/// One resolution step of the registry, for a remote identity `k` and the
/// properties `props` of its record: a first discovery inserts `k` as a
/// `Discovered` peer carrying `props` and publishes `DiscoveredChange`; a
/// re-discovery refreshes `k`'s service metadata in place; a removal
/// deletes `k` and publishes `DiscoveredChange`. Nothing else changes.
pub open spec fn resolution_step(
    s: Seq<(Seq<u8>, PeerV)>,
    hs: Seq<HookV>,
    s2: Seq<(Seq<u8>, PeerV)>,
    hs2: Seq<HookV>,
    local: Seq<u8>,
    k: Seq<u8>,
    props: Seq<(Seq<char>, Seq<char>)>,
) -> bool {
    k != local && {
        ||| (!has_peer(s, k) && s2 == s.push(
            (k, (PeerStatus::Discovered, props, Seq::<(Seq<char>, u16)>::empty())),
        ) && hs2 == spec_publish(hs, EventV::Discovered(k)))
        ||| (has_peer(s, k) && s2 == s.update(
            peer_idx(s, k),
            (s[peer_idx(s, k)].0, (s[peer_idx(s, k)].1.0, props, s[peer_idx(s, k)].1.2)),
        ) && hs2 == hs)
        ||| (has_peer(s, k) && s2 == s.remove(peer_idx(s, k)) && hs2 == spec_publish(
            hs,
            EventV::Discovered(k),
        ))
    }
}

/// Resolution: derive the remote identity by stripping the known domain
/// from the advertised fully-qualified name. A malformed name, and the
/// local identity, mutate nothing. A first discovery inserts a `Discovered`
/// peer carrying every advertised property; a re-discovery refreshes the
/// peer's service metadata in place (a deliberate policy: records carry the
/// peer's current properties, so a stale copy is worth replacing), keeping
/// its status and addresses.
pub fn handle_resolved(
    p2p: &mut P2P,
    domain: &Vec<u8>,
    fullname: &Vec<u8>,
    properties: Vec<(String, String)>,
)
    requires
        old(p2p).wf(),
    ensures
        final(p2p).wf(),
        final(p2p).id() == old(p2p).id(),
        final(p2p).app() == old(p2p).app(),
        final(p2p).spec_listeners() == old(p2p).spec_listeners(),
        final(p2p).spec_metadata() == old(p2p).spec_metadata(),
        final(p2p).spec_next_hook_id() == old(p2p).spec_next_hook_id(),
        ({
            let parsed = name_to_identity(fullname@, domain@);
            let s = old(p2p).spec_discovered();
            if parsed is Some && parsed.unwrap() != old(p2p).id() {
                if has_peer(s, parsed.unwrap()) {
                    let k = peer_idx(s, parsed.unwrap());
                    final(p2p).spec_discovered() == s.update(
                        k,
                        (s[k].0, (s[k].1.0, properties.deep_view(), s[k].1.2)),
                    ) && final(p2p).spec_hooks() == old(p2p).spec_hooks()
                } else {
                    final(p2p).spec_discovered() == s.push(
                        (
                            parsed.unwrap(),
                            (
                                PeerStatus::Discovered,
                                properties.deep_view(),
                                Seq::<(Seq<char>, u16)>::empty(),
                            ),
                        ),
                    ) && final(p2p).spec_hooks() == spec_publish(
                        old(p2p).spec_hooks(),
                        EventV::Discovered(parsed.unwrap()),
                    )
                }
            } else {
                final(p2p).spec_discovered() == s && final(p2p).spec_hooks() == old(
                    p2p,
                ).spec_hooks()
            }
        }),
{
    let id = match fullname_to_identity(fullname, domain, p2p.remote_identity()) {
        Some(id) => id,
        None => {
            return ;
        },
    };
    if p2p.discovered_contains(&id) {
        p2p.refresh_discovered(&id, properties);
    } else {
        let mut peer = Peer::new();
        peer.set_state(PeerStatus::Discovered);
        peer.set_service(properties);
        p2p.insert_discovered(id, peer);
    }
}

/// Removal: derive the identity as in resolution; a known peer is deleted
/// from the discovered map (the chosen policy for a record that
/// disappeared: the peer is gone from the network's point of view), a
/// malformed name, the local identity, or an unknown peer mutate nothing.
pub fn handle_removed(p2p: &mut P2P, domain: &Vec<u8>, fullname: &Vec<u8>)
    requires
        old(p2p).wf(),
    ensures
        final(p2p).wf(),
        final(p2p).id() == old(p2p).id(),
        final(p2p).app() == old(p2p).app(),
        final(p2p).spec_listeners() == old(p2p).spec_listeners(),
        final(p2p).spec_metadata() == old(p2p).spec_metadata(),
        final(p2p).spec_next_hook_id() == old(p2p).spec_next_hook_id(),
        ({
            let parsed = name_to_identity(fullname@, domain@);
            let s = old(p2p).spec_discovered();
            if parsed is Some && parsed.unwrap() != old(p2p).id() && has_peer(s, parsed.unwrap()) {
                final(p2p).spec_discovered() == s.remove(peer_idx(s, parsed.unwrap()))
                    && final(p2p).spec_hooks() == spec_publish(
                    old(p2p).spec_hooks(),
                    EventV::Discovered(parsed.unwrap()),
                )
            } else {
                final(p2p).spec_discovered() == s && final(p2p).spec_hooks() == old(
                    p2p,
                ).spec_hooks()
            }
        }),
{
    let id = match fullname_to_identity(fullname, domain, p2p.remote_identity()) {
        Some(id) => id,
        None => {
            return ;
        },
    };
    p2p.remove_discovered(&id);
}

} // verus!
