use p2p_discovery::hooks::HookEvent;
use p2p_discovery::identity::RemoteIdentity;
use p2p_discovery::mdns::{
    plan_advertisements, HookReaction, Mdns, ShutdownStep, HOOK_QUEUE_CAPACITY,
    READVERTISEMENT_INTERVAL_MS, SHUTDOWN_GRACE_MS,
};
use p2p_discovery::mdns::{handle_removed, handle_resolved};
use p2p_discovery::naming::{fullname_to_identity, service_domain, service_fullname};
use p2p_discovery::p2p::P2P;
use p2p_discovery::peer::{Address, PeerStatus};

fn ident(seed: u8) -> RemoteIdentity {
    RemoteIdentity::from_bytes(vec![seed; 32]).unwrap()
}

fn registry(seed: u8) -> P2P {
    P2P::new(ident(seed), b"sync".to_vec())
}

fn addr(ip: &str, port: u16) -> Address {
    Address { ip: ip.to_string(), port }
}

fn pairs(kv: &[(&str, &str)]) -> Vec<(String, String)> {
    kv.iter().map(|(k, v)| (k.to_string(), v.to_string())).collect()
}

#[test]
fn identity_text_round_trip() {
    let bytes: Vec<u8> = (0u8..32).collect();
    let id = RemoteIdentity::from_bytes(bytes).unwrap();
    let text = id.encode();
    assert_eq!(text.len(), 64);
    let back = RemoteIdentity::parse(&text).unwrap();
    assert!(back == id);
}

#[test]
fn identity_text_is_lowercase_hex() {
    let id = ident(0xab);
    let text = id.encode();
    let expected = "ab".repeat(32);
    assert_eq!(text, expected.as_bytes().to_vec());
}

#[test]
fn identity_from_bytes_rejects_wrong_length() {
    assert!(RemoteIdentity::from_bytes(vec![0u8; 31]).is_none());
    assert!(RemoteIdentity::from_bytes(vec![0u8; 33]).is_none());
    assert!(RemoteIdentity::from_bytes(Vec::new()).is_none());
}

#[test]
fn identity_parse_rejects_malformed_text() {
    assert!(RemoteIdentity::parse(&b"00".to_vec()).is_none());
    let upper = "AB".repeat(32);
    assert!(RemoteIdentity::parse(&upper.as_bytes().to_vec()).is_none());
    let mut bad = "ab".repeat(32).into_bytes();
    bad[10] = b'g';
    assert!(RemoteIdentity::parse(&bad).is_none());
}

#[test]
fn service_domain_has_expected_form() {
    let d = service_domain(&b"sync".to_vec());
    assert_eq!(d, b"_sync._udp.local.".to_vec());
}

#[test]
fn fullname_round_trip_through_domain() {
    let local = ident(1);
    let a = ident(2);
    let domain = service_domain(&b"sync".to_vec());
    let fullname = service_fullname(&a, &domain);
    let decoded = fullname_to_identity(&fullname, &domain, &local).unwrap();
    assert!(decoded == a);
}

#[test]
fn fullname_of_local_identity_is_rejected() {
    let local = ident(1);
    let domain = service_domain(&b"sync".to_vec());
    let fullname = service_fullname(&local, &domain);
    assert!(fullname_to_identity(&fullname, &domain, &local).is_none());
}

#[test]
fn malformed_fullnames_are_rejected() {
    let local = ident(1);
    let a = ident(2);
    let domain = service_domain(&b"sync".to_vec());
    let other_domain = service_domain(&b"other".to_vec());

    // wrong domain suffix
    let fullname = service_fullname(&a, &other_domain);
    assert!(fullname_to_identity(&fullname, &domain, &local).is_none());

    // un-parseable identity segment
    let mut bad = service_fullname(&a, &domain);
    bad[3] = b'!';
    assert!(fullname_to_identity(&bad, &domain, &local).is_none());

    // missing separator dot
    let mut nodot = a.encode();
    nodot.extend_from_slice(&domain);
    assert!(fullname_to_identity(&nodot, &domain, &local).is_none());

    // far too short
    assert!(fullname_to_identity(&b"x.local.".to_vec(), &domain, &local).is_none());
}

#[test]
fn resolution_of_malformed_name_mutates_nothing() {
    let mut p2p = registry(1);
    let domain = service_domain(&b"sync".to_vec());
    handle_resolved(&mut p2p, &domain, &b"garbage._sync._udp.local.".to_vec(), pairs(&[("v", "1")]));
    assert!(p2p.discovered().is_empty());
}

#[test]
fn self_discovery_is_suppressed() {
    let mut p2p = registry(1);
    let domain = service_domain(&b"sync".to_vec());
    let own_name = service_fullname(&ident(1), &domain);
    handle_resolved(&mut p2p, &domain, &own_name, pairs(&[("v", "1")]));
    assert!(p2p.discovered().is_empty());
}

#[test]
fn scenario_first_discovery() {
    let mut p2p = registry(1);
    let a = ident(2);
    let domain = service_domain(&b"sync".to_vec());
    let fullname = service_fullname(&a, &domain);
    handle_resolved(&mut p2p, &domain, &fullname, pairs(&[("v", "1")]));
    let disc = p2p.discovered();
    assert_eq!(disc.len(), 1);
    assert!(disc[0].0 == a);
    assert!(matches!(disc[0].1.status(), PeerStatus::Discovered));
    assert_eq!(disc[0].1.service(), &pairs(&[("v", "1")]));
}

#[test]
fn rediscovery_refreshes_metadata() {
    let mut p2p = registry(1);
    let a = ident(2);
    let domain = service_domain(&b"sync".to_vec());
    let fullname = service_fullname(&a, &domain);
    handle_resolved(&mut p2p, &domain, &fullname, pairs(&[("v", "1")]));
    handle_resolved(&mut p2p, &domain, &fullname, pairs(&[("v", "2"), ("x", "y")]));
    let disc = p2p.discovered();
    assert_eq!(disc.len(), 1);
    assert!(matches!(disc[0].1.status(), PeerStatus::Discovered));
    assert_eq!(disc[0].1.service(), &pairs(&[("v", "2"), ("x", "y")]));
}

#[test]
fn removal_deletes_known_peer() {
    let mut p2p = registry(1);
    let a = ident(2);
    let domain = service_domain(&b"sync".to_vec());
    let fullname = service_fullname(&a, &domain);
    handle_resolved(&mut p2p, &domain, &fullname, pairs(&[]));
    assert_eq!(p2p.discovered().len(), 1);
    handle_removed(&mut p2p, &domain, &fullname);
    assert!(p2p.discovered().is_empty());
}

#[test]
fn removal_of_unknown_peer_is_ignored() {
    let mut p2p = registry(1);
    let domain = service_domain(&b"sync".to_vec());
    let fullname = service_fullname(&ident(9), &domain);
    handle_removed(&mut p2p, &domain, &fullname);
    assert!(p2p.discovered().is_empty());
}

#[test]
fn scenario_no_listeners_no_records() {
    let plans = plan_advertisements(&Vec::new());
    assert!(plans.is_empty());

    let mut p2p = registry(1);
    let mut mdns = Mdns::spawn(&mut p2p, 0);
    let records = mdns.advertise(&p2p, 0);
    assert!(records.is_empty());
}

#[test]
fn scenario_same_port_one_record() {
    let listeners = vec![
        ("tcp".to_string(), addr("1.2.3.4", 7000)),
        ("quic".to_string(), addr("1.2.3.4", 7000)),
    ];
    let plans = plan_advertisements(&listeners);
    assert_eq!(plans.len(), 1);
    assert_eq!(plans[0].port, 7000);
    assert_eq!(plans[0].ips, vec!["1.2.3.4".to_string(), "1.2.3.4".to_string()]);
}

#[test]
fn different_ports_two_records() {
    let listeners = vec![
        ("tcp".to_string(), addr("1.2.3.4", 7000)),
        ("quic".to_string(), addr("5.6.7.8", 7001)),
    ];
    let plans = plan_advertisements(&listeners);
    assert_eq!(plans.len(), 2);
    let p7000 = plans.iter().find(|p| p.port == 7000).unwrap();
    let p7001 = plans.iter().find(|p| p.port == 7001).unwrap();
    assert_eq!(p7000.ips, vec!["1.2.3.4".to_string()]);
    assert_eq!(p7001.ips, vec!["5.6.7.8".to_string()]);
}

#[test]
fn advertise_builds_real_records() {
    let mut p2p = registry(1);
    p2p.set_listeners(vec![
        ("tcp".to_string(), addr("1.2.3.4", 7000)),
        ("quic".to_string(), addr("1.2.3.4", 7000)),
    ]);
    p2p.set_metadata(pairs(&[("version", "1")]));
    let mut mdns = Mdns::spawn(&mut p2p, 0);
    let records = mdns.advertise(&p2p, 0);
    assert_eq!(records.len(), 1);
    assert_eq!(records[0].get_port(), 7000);
    let expected_name = String::from_utf8(mdns.service_name().clone()).unwrap();
    assert_eq!(records[0].get_fullname(), expected_name);
    assert_eq!(
        records[0].get_properties().get_property_val_str("version"),
        Some("1"),
    );
}

#[test]
fn failed_record_is_skipped_others_are_produced() {
    let mut p2p = registry(1);
    p2p.set_listeners(vec![
        ("bad".to_string(), addr("not an address", 7000)),
        ("ok".to_string(), addr("1.2.3.4", 7001)),
    ]);
    let mut mdns = Mdns::spawn(&mut p2p, 0);
    let records = mdns.advertise(&p2p, 500);
    assert_eq!(records.len(), 1);
    assert_eq!(records[0].get_port(), 7001);
    // the cycle completed and the deadline was rescheduled regardless
    assert_eq!(mdns.next_advertisement_at(), 500 + READVERTISEMENT_INTERVAL_MS);
}

#[test]
fn advertise_reschedules_deadline() {
    let mut p2p = registry(1);
    let mut mdns = Mdns::spawn(&mut p2p, 0);
    assert_eq!(mdns.next_advertisement_at(), READVERTISEMENT_INTERVAL_MS);
    let _ = mdns.advertise(&p2p, 1000);
    assert_eq!(mdns.next_advertisement_at(), 1000 + READVERTISEMENT_INTERVAL_MS);
}

#[test]
fn hook_events_drive_advertisement() {
    let mut p2p = registry(1);
    let mut mdns = Mdns::spawn(&mut p2p, 0);

    let r = mdns.handle_hook_event(&p2p, &HookEvent::MetadataChange(Vec::new()), 5000);
    assert!(matches!(r, HookReaction::Advertise(_)));
    assert_eq!(mdns.next_advertisement_at(), 5000 + READVERTISEMENT_INTERVAL_MS);

    let r = mdns.handle_hook_event(&p2p, &HookEvent::ListenersChange(Vec::new()), 7000);
    assert!(matches!(r, HookReaction::Advertise(_)));
    assert_eq!(mdns.next_advertisement_at(), 7000 + READVERTISEMENT_INTERVAL_MS);

    let r = mdns.handle_hook_event(&p2p, &HookEvent::DiscoveredChange(ident(3)), 9000);
    assert!(matches!(r, HookReaction::Ignore));
    assert_eq!(mdns.next_advertisement_at(), 7000 + READVERTISEMENT_INTERVAL_MS);
}

#[test]
fn shutdown_event_yields_teardown_steps() {
    let mut p2p = registry(1);
    let mut mdns = Mdns::spawn(&mut p2p, 0);
    let name = mdns.service_name().clone();
    let r = mdns.handle_hook_event(&p2p, &HookEvent::Shutdown, 1000);
    match r {
        HookReaction::BeginShutdown(steps) => {
            assert_eq!(steps.len(), 3);
            assert!(matches!(&steps[0], ShutdownStep::UnregisterService(n) if *n == name));
            assert!(matches!(&steps[1], ShutdownStep::GraceWait(ms) if *ms == SHUTDOWN_GRACE_MS));
            assert!(matches!(&steps[2], ShutdownStep::StopDaemon));
        }
        _ => panic!("expected a teardown sequence"),
    }
}

#[test]
fn broadcast_reaches_every_subscriber() {
    let mut p2p = registry(1);
    let h1 = p2p.register_hook(4);
    let h2 = p2p.register_hook(4);
    p2p.set_metadata(pairs(&[("k", "v")]));
    assert!(matches!(p2p.take_event(h1), Some(HookEvent::MetadataChange(_))));
    assert!(matches!(p2p.take_event(h2), Some(HookEvent::MetadataChange(_))));
    assert!(p2p.take_event(h1).is_none());
    assert!(p2p.take_event(h2).is_none());
}

#[test]
fn full_subscriber_does_not_block_the_other() {
    let mut p2p = registry(1);
    let slow = p2p.register_hook(0);
    let fast = p2p.register_hook(4);
    p2p.set_metadata(pairs(&[("k", "v")]));
    assert!(p2p.take_event(slow).is_none());
    assert!(matches!(p2p.take_event(fast), Some(HookEvent::MetadataChange(_))));
}

#[test]
fn events_are_taken_in_order() {
    let mut p2p = registry(1);
    let h = p2p.register_hook(4);
    p2p.set_metadata(pairs(&[("k", "v")]));
    p2p.set_listeners(vec![("tcp".to_string(), addr("1.2.3.4", 7000))]);
    assert!(matches!(p2p.take_event(h), Some(HookEvent::MetadataChange(_))));
    assert!(matches!(p2p.take_event(h), Some(HookEvent::ListenersChange(_))));
    assert!(p2p.take_event(h).is_none());
}

#[test]
fn unregistered_hook_receives_nothing() {
    let mut p2p = registry(1);
    let h = p2p.register_hook(4);
    p2p.set_metadata(pairs(&[("k", "1")]));
    assert!(p2p.take_event(h).is_some());
    p2p.unregister_hook(h);
    // idempotent for an already-removed handle
    p2p.unregister_hook(h);
    p2p.set_metadata(pairs(&[("k", "2")]));
    assert!(p2p.take_event(h).is_none());
}

#[test]
fn transport_shutdown_deregisters_its_hook() {
    let mut p2p = registry(1);
    let mdns = Mdns::spawn(&mut p2p, 0);
    let h = mdns.hook_id();
    p2p.set_metadata(pairs(&[("k", "1")]));
    assert!(p2p.take_event(h).is_some());
    mdns.shutdown(&mut p2p);
    p2p.set_metadata(pairs(&[("k", "2")]));
    assert!(p2p.take_event(h).is_none());
}

#[test]
fn spawn_subscribes_with_bounded_queue() {
    let mut p2p = registry(1);
    let mdns = Mdns::spawn(&mut p2p, 0);
    let h = mdns.hook_id();
    for i in 0..(HOOK_QUEUE_CAPACITY + 5) {
        p2p.set_metadata(pairs(&[("n", &i.to_string())]));
    }
    let mut received = 0;
    while p2p.take_event(h).is_some() {
        received += 1;
    }
    assert_eq!(received, HOOK_QUEUE_CAPACITY);
}

#[test]
fn registry_accessors_reflect_state() {
    let mut p2p = registry(7);
    assert!(*p2p.remote_identity() == ident(7));
    assert_eq!(p2p.app_name(), &b"sync".to_vec());
    assert!(p2p.listeners().is_empty());
    assert!(p2p.metadata().is_empty());
    p2p.set_metadata(pairs(&[("a", "b")]));
    assert_eq!(p2p.metadata(), &pairs(&[("a", "b")]));
    p2p.set_listeners(vec![("tcp".to_string(), addr("9.9.9.9", 4)) ]);
    assert_eq!(p2p.listeners().len(), 1);
    assert_eq!(p2p.listeners()[0].0, "tcp");
    assert_eq!(p2p.listeners()[0].1.ip, "9.9.9.9");
    assert_eq!(p2p.listeners()[0].1.port, 4);
}

#[test]
fn insert_discovered_refuses_local_identity() {
    let mut p2p = registry(1);
    p2p.insert_discovered(ident(1), p2p_discovery::peer::Peer::new());
    assert!(p2p.discovered().is_empty());
}

#[test]
fn resolution_through_real_daemon_event() {
    let mut p2p = registry(1);
    let a = ident(2);
    let mdns = Mdns::spawn(&mut p2p, 0);
    let hex: String = String::from_utf8(a.encode()).unwrap();
    let domain = "_sync._udp.local.";
    let host = format!("{hex}.{domain}");
    let info = mdns_sd::ServiceInfo::new(
        domain,
        &hex,
        &host,
        "1.2.3.4",
        7000,
        &[("v", "1")][..],
    )
    .unwrap();
    let resolved = info.as_resolved_service();
    mdns.on_event(&mut p2p, mdns_sd::ServiceEvent::ServiceResolved(Box::new(resolved)));
    let disc = p2p.discovered();
    assert_eq!(disc.len(), 1);
    assert!(disc[0].0 == a);
    assert_eq!(disc[0].1.service(), &pairs(&[("v", "1")]));

    let fullname = format!("{hex}.{domain}");
    mdns.on_event(
        &mut p2p,
        mdns_sd::ServiceEvent::ServiceRemoved(domain.to_string(), fullname),
    );
    assert!(p2p.discovered().is_empty());
}
