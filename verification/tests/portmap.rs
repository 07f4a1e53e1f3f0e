use kahui::net::portmap::{claim_mapped_port, Attempt, Diagnosis, MapProtocol};

fn nothing_works(port: u16) -> Diagnosis {
    Diagnosis {
        gateway: Some("192.168.1.1".into()),
        local: Some("192.168.1.143".into()),
        port,
        global_ipv6: vec![],
        pcp: Attempt::Refused("no response".into()),
        natpmp: Attempt::Refused("no response".into()),
        upnp: Attempt::Refused("501 Action Failed".into()),
    }
}

#[test]
fn advice_names_the_port_and_the_machine_to_forward_to() {
    let d = nothing_works(4001);
    assert!(!d.reachable());
    let advice = d.advice();
    // Useless advice is worse than none: it has to say which port and where.
    assert!(advice.contains("4001"), "{advice}");
    assert!(advice.contains("192.168.1.143"), "{advice}");
}

#[test]
fn a_public_ipv6_address_counts_as_reachable() {
    // No NAT to traverse, so there is nothing to forward and nothing to say.
    let mut d = nothing_works(4001);
    d.global_ipv6 = vec!["2404:4408:1234::1".into()];
    assert!(d.reachable());
    assert!(d.advice().contains("IPv6"));
}

#[test]
fn a_working_router_is_reported_as_working() {
    let mut d = nothing_works(4001);
    d.upnp = Attempt::Worked("accepted a timed lease".into());
    assert!(d.reachable());
    assert!(d.advice().contains("opened a port"));
}

#[test]
fn the_advice_sentence_is_exact() {
    assert_eq!(
        nothing_works(4001).advice(),
        "Your router will not open a port. Forward TCP and UDP 4001 to 192.168.1.143, or connect to a peer who can relay for you."
    );
    let mut lost = nothing_works(0);
    lost.local = None;
    assert_eq!(lost.advice(), "No network found.");
}

#[test]
fn labels_and_details_read_back() {
    assert_eq!(MapProtocol::Pcp.label(), "PCP");
    assert_eq!(MapProtocol::NatPmp.label(), "NAT-PMP");
    assert_eq!(MapProtocol::Upnp.label(), "UPnP-IGD");
    assert_eq!(Attempt::Skipped("no gateway".into()).detail(), "no gateway");
    assert!(!Attempt::Skipped("x".into()).worked());
    assert!(Attempt::Worked("y".into()).worked());
}

use kahui::net::behaviour::{default_listen_addrs, port_of, NetConfig, DEFAULT_PORT};
use kahui::net::ip::addr_is_global as addr_is_global_text;
use kahui::net::ip::{parse_ip, IpValue};
use kahui::net::portmap::{
    addrs_for, global_addresses, mapped_attempt, renew_in_ms, upnp_attempt, upnp_outcome, KeepOpen, PortMapError,
    PortMapUpdate, MIN_RENEW_MS, RETRY_AFTER_MS,
};

fn ip(text: &str) -> IpValue {
    parse_ip(text).unwrap()
}

#[test]
fn builds_dialable_addresses_for_both_transports() {
    let addrs = addrs_for(&ip("93.184.216.34"), Some(4001), Some(4001));
    assert_eq!(addrs, vec!["/ip4/93.184.216.34/tcp/4001", "/ip4/93.184.216.34/udp/4001/quic-v1"]);
}

#[test]
fn a_transport_the_router_refused_is_simply_absent() {
    // A router may map TCP and refuse UDP. That is a usable outcome, not a
    // failure, so no address is invented for the half that failed.
    let addrs = addrs_for(&ip("93.184.216.34"), Some(4001), None);
    assert_eq!(addrs.len(), 1);
    assert!(addrs[0].ends_with("/tcp/4001"));
}

#[test]
fn the_mapped_address_is_what_an_invite_would_carry() {
    let addrs = addrs_for(&ip("93.184.216.34"), Some(4001), None);
    assert!(addr_is_global_text(&addrs[0]));
    // And the converse: a private "external" address is worse than none.
    let bogus = addrs_for(&ip("192.168.1.5"), Some(4001), None);
    assert!(!addr_is_global_text(&bogus[0]));
}

#[test]
fn ipv6_addresses_are_written_in_their_short_form() {
    let addrs = addrs_for(&ip("2404:4408:0:0:0:0:0:1"), None, Some(4001));
    assert_eq!(addrs, vec!["/ip6/2404:4408::1/udp/4001/quic-v1"]);
}

#[test]
fn port_zero_cannot_be_mapped_and_says_so() {
    assert_eq!(PortMapError::PortZero.message(), "port 0 cannot be mapped");
    assert_eq!(PortMapError::Refused("501".into()).message(), "the router refused: 501");
    assert_eq!(PortMapError::NoGateway("none".into()).message(), "no default gateway found: none");
}

#[test]
fn renewal_comes_a_minute_before_the_soonest_expiry() {
    assert_eq!(renew_in_ms(&vec![3_600_000, 600_000]), 540_000);
    // Nothing held: retry from scratch, less the margin.
    assert_eq!(renew_in_ms(&vec![]), RETRY_AFTER_MS - 60_000);
    // Never spin on a router with very short leases.
    assert_eq!(renew_in_ms(&vec![10_000]), MIN_RENEW_MS);
}

#[test]
fn upnp_that_opened_nothing_is_a_refusal() {
    match upnp_outcome(false, false, Some(ip("93.184.216.34")), 4001) {
        Err(PortMapError::Refused(why)) => assert_eq!(why, "the router would not add a mapping on either transport"),
        other => panic!("expected a refusal, got {other:?}"),
    }
}

#[test]
fn upnp_without_an_address_still_reports_the_port() {
    assert_eq!(
        upnp_outcome(true, false, None, 4001),
        Ok(PortMapUpdate::MappedWithoutAddress { port: 4001, protocol: MapProtocol::Upnp })
    );
    assert_eq!(
        upnp_outcome(false, true, Some(ip("93.184.216.34")), 4001),
        Ok(PortMapUpdate::Opened {
            external: vec!["/ip4/93.184.216.34/udp/4001/quic-v1".to_string()],
            protocol: MapProtocol::Upnp,
        })
    );
}

#[test]
fn a_renewal_that_changes_nothing_is_not_news() {
    let mut k = KeepOpen::new();
    let opened = || PortMapUpdate::Opened { external: vec!["/ip4/93.184.216.34/tcp/4001".to_string()], protocol: MapProtocol::Pcp };
    assert!(k.on_mapped(opened()).is_some());
    assert!(k.on_mapped(opened()).is_none());
    // Once there is a port, a failed renewal is not worth alarming anyone.
    assert!(k.on_failure("timed out".into()).is_none());
    let moved = PortMapUpdate::Opened { external: vec!["/ip4/93.184.216.35/tcp/4001".to_string()], protocol: MapProtocol::Pcp };
    assert!(k.on_mapped(moved).is_some());
}

#[test]
fn the_first_failure_is_reported_and_a_blind_mapping_once() {
    let mut k = KeepOpen::new();
    assert_eq!(k.on_failure("no router".into()), Some(PortMapUpdate::Refused("no router".into())));
    let blind = || PortMapUpdate::MappedWithoutAddress { port: 4001, protocol: MapProtocol::NatPmp };
    assert_eq!(k.on_mapped(blind()), Some(blind()));
    assert_eq!(k.on_mapped(blind()), None);
    assert_eq!(k.on_failure("no router".into()), None);
}

#[test]
fn only_global_ipv6_addresses_count() {
    let found = global_addresses(&vec!["fe80::1".to_string(), "2404:4408:1234::1".to_string(), "::1".to_string()]);
    assert_eq!(found, vec!["2404:4408:1234::1"]);
}

#[test]
fn attempts_say_what_happened() {
    assert_eq!(mapped_attempt(4001).detail(), "mapped external port 4001");
    assert!(mapped_attempt(4001).worked());
    assert_eq!(upnp_attempt(Some(120), None, None).detail(), "accepted a timed lease");
    assert_eq!(upnp_attempt(Some(0), None, None).detail(), "accepted a permanent lease");
    let odd = upnp_attempt(None, Some("501 Action Failed".into()), Some("192.168.1.20".into()));
    assert!(!odd.worked());
    assert_eq!(odd.detail(), "501 Action Failed (answered by 192.168.1.20, which is not your router)");
    assert_eq!(upnp_attempt(None, None, None).detail(), "refused");
}

#[test]
fn a_diagnosis_without_a_router_skips_everything_for_the_same_reason() {
    let d = Diagnosis::without_router(4001, vec![], "no default gateway found: none".into());
    assert!(!d.reachable());
    assert_eq!(d.pcp, Attempt::Skipped("no default gateway found: none".into()));
    assert_eq!(d.advice(), "No network found.");
    let d = Diagnosis::with_router("192.168.1.1".into(), "192.168.1.143".into(), 0, vec![]);
    assert_eq!(d.upnp, Attempt::Skipped("port 0 cannot be mapped".into()));
}

#[test]
fn the_default_port_is_fixed_not_random() {
    assert_ne!(DEFAULT_PORT, 0);
    assert!(NetConfig::default().listen.iter().all(|a| a.contains(&DEFAULT_PORT.to_string())));
    assert_eq!(NetConfig::default().listen, default_listen_addrs(DEFAULT_PORT));
}

#[test]
fn relaying_is_on_by_default() {
    let config = NetConfig::default();
    assert!(config.enable_relay);
    // ...but a private address is not assumed to be reachable, because on
    // the internet it is not.
    assert!(!config.lan_reachable);
    assert!(config.enable_mdns);
    assert!(config.enable_port_mapping);
    assert_eq!(config.heartbeat_ms, 1000);
}

#[test]
fn a_listen_address_reports_the_port_it_asks_for() {
    assert_eq!(port_of("/ip4/0.0.0.0/tcp/4001"), 4001);
    assert_eq!(port_of("/ip6/::/udp/4001/quic-v1"), 4001);
    assert_eq!(port_of("/ip4/0.0.0.0/tcp/0"), 0);
    assert_eq!(port_of("/ip4/0.0.0.0/udp/65535/quic-v1"), 65535);
    assert_eq!(port_of("/ip4/0.0.0.0"), 0);
    assert_eq!(port_of("/dns/example.org/tcp/443/tls"), 443);
}

#[test]
fn default_config_covers_both_transports_and_both_ip_versions() {
    let rendered: Vec<String> = NetConfig::default().listen;
    assert!(rendered.iter().any(|a| a.contains("/ip4/") && a.contains("/tcp/")));
    assert!(rendered.iter().any(|a| a.contains("/ip4/") && a.contains("/quic-v1")));
    assert!(rendered.iter().any(|a| a.contains("/ip6/") && a.contains("/tcp/")));
    assert!(rendered.iter().any(|a| a.contains("/ip6/") && a.contains("/quic-v1")));
    for a in &rendered {
        assert!(kahui::net::discovery::parse_multiaddr(a).is_some(), "{a}");
    }
}

#[test]
fn a_mapped_port_is_claimed_at_the_address_a_peer_sees() {
    assert_eq!(claim_mapped_port(None, "/ip4/93.184.216.34/tcp/51234"), None);
    assert_eq!(
        claim_mapped_port(Some(4001), "/ip4/93.184.216.34/tcp/51234"),
        Some(vec![
            "/ip4/93.184.216.34/tcp/4001".to_string(),
            "/ip4/93.184.216.34/udp/4001/quic-v1".to_string(),
        ])
    );
    // A neighbour sees a private address, which says nothing about outside.
    assert_eq!(claim_mapped_port(Some(4001), "/ip4/192.168.1.5/tcp/51234"), None);
    assert_eq!(claim_mapped_port(Some(4001), "/dns/example.org/tcp/443"), None);
}

#[test]
fn documentation_and_multicast_addresses_are_not_reachable_from_outside() {
    assert!(!addr_is_global_text("/ip6/2001:db8::1/tcp/4001"));
    assert!(!addr_is_global_text("/ip6/ff02::1/tcp/4001"));
    assert!(!addr_is_global_text("/ip4/224.0.0.1/tcp/4001"));
    assert!(!addr_is_global_text("/ip4/239.255.255.250/udp/1900"));
    assert!(addr_is_global_text("/ip6/2404:4408:1234::1/tcp/4001"));
    assert!(addr_is_global_text("/ip4/93.184.216.34/tcp/4001"));
}

#[test]
fn port_zero_is_refused_before_asking_the_router() {
    match KeepOpen::refuse_port(0) {
        Some(PortMapUpdate::Refused(why)) => assert_eq!(why, "port 0 cannot be mapped"),
        _ => panic!("port 0 should be refused"),
    }
    assert!(KeepOpen::refuse_port(4001).is_none());
}
