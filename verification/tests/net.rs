//! Peer identities, hole-punch timing, and the hash table's keys and seeds.

use kahui::net::addrs::{dialable, is_circuit, is_loopback, public_addrs, strip_peer};
use kahui::net::discovery::{
    community_key, compiled_seeds, parse_seeds, relay_key, with_seed, SEED_FILE_TEMPLATE,
};
use kahui::net::peer::{peer_id_of, peer_id_text};
use kahui::net::punch::{is_punchable, is_punchable_with, is_window, offset_ms, PERIOD_MS};
use kahui::proto::identity::{verify, Identity};
use kahui::proto::ids::{CommunityId, UserId};

fn peers() -> (Vec<u8>, Vec<u8>) {
    (libp2p::PeerId::random().to_bytes(), libp2p::PeerId::random().to_bytes())
}

#[test]
fn both_sides_work_out_the_same_moment() {
    let (jane, juan) = peers();
    for now in (0..4000).step_by(37) {
        assert_eq!(is_window(&jane, &juan, now), is_window(&juan, &jane, now), "disagreed at {now}ms");
    }
}

#[test]
fn a_pair_gets_a_window_in_every_period() {
    let (jane, juan) = peers();
    let period = PERIOD_MS;
    for start in [0, period, 10 * period] {
        assert!(
            (start..start + period).any(|ms| is_window(&jane, &juan, ms)),
            "a pair that never punches would never reconnect"
        );
    }
}

#[test]
fn different_pairs_punch_at_different_moments() {
    let offsets: std::collections::HashSet<u64> = (0..16)
        .map(|_| {
            let (a, b) = peers();
            offset_ms(&a, &b)
        })
        .collect();
    assert!(offsets.len() > 8, "offsets clustered: {offsets:?}");
}

#[test]
fn the_window_is_wide_enough_for_clocks_that_disagree() {
    let (jane, juan) = peers();
    let centre = (0..PERIOD_MS).find(|ms| is_window(&jane, &juan, *ms)).expect("there is a window");
    assert!(is_window(&jane, &juan, centre + 100), "100ms of clock difference should still overlap");
}

#[test]
fn every_period_holds_the_same_share_of_window() {
    let (jane, juan) = peers();
    for period in [0, 1, 5] {
        let start = period * PERIOD_MS;
        let open = (start..start + PERIOD_MS).filter(|ms| is_window(&jane, &juan, *ms)).count();
        assert_eq!(open, 501, "period {period}");
    }
}

#[test]
fn the_offset_is_where_the_window_is() {
    let (jane, juan) = peers();
    let off = offset_ms(&jane, &juan);
    assert!(off < PERIOD_MS);
    assert!(is_window(&jane, &juan, 7 * PERIOD_MS + off));
    assert_eq!(off, offset_ms(&juan, &jane));
}

#[test]
fn on_an_isolated_network_private_addresses_do_name_somebody() {
    let lan = "/ip4/192.168.1.5/udp/4001/quic-v1";
    assert!(!is_punchable_with(lan, false));
    assert!(is_punchable_with(lan, true));
    // Never a wildcard, though.
    assert!(!is_punchable_with("/ip4/0.0.0.0/udp/4001/quic-v1", true));
}

#[test]
fn only_addresses_that_name_a_router_are_worth_punching() {
    assert!(is_punchable("/ip4/93.184.216.34/udp/4001/quic-v1"));
    assert!(!is_punchable("/ip4/192.168.1.5/udp/4001/quic-v1"));
    assert!(!is_punchable(
        "/ip4/93.184.216.34/tcp/4001/p2p/12D3KooWDms1wiZZX7c7sJAX9zKkE5GnaCnLxwWeCEQwKoQrspUt/p2p-circuit"
    ));
}

#[test]
fn the_transport_identity_and_the_event_identity_agree() {
    let identity = Identity::generate();
    let mut secret = identity.secret_bytes();
    let keypair = libp2p::identity::Keypair::ed25519_from_bytes(&mut secret).unwrap();
    let from_keypair = libp2p::PeerId::from_public_key(&keypair.public()).to_bytes();
    let from_user_id = peer_id_of(&identity.user_id()).expect("valid key");
    assert_eq!(from_keypair, from_user_id, "a member's PeerId must be derivable from their UserId alone");
}

#[test]
fn different_identities_get_different_peer_ids() {
    let a = peer_id_of(&Identity::generate().user_id()).unwrap();
    let b = peer_id_of(&Identity::generate().user_id()).unwrap();
    assert_ne!(a, b);
}

#[test]
fn every_real_identity_maps_to_a_peer_id() {
    for _ in 0..64 {
        assert!(peer_id_of(&Identity::generate().user_id()).is_some());
    }
}

#[test]
fn bytes_that_are_not_a_curve_point_have_no_peer_id() {
    assert!(peer_id_of(&UserId::from_bytes([0xab; 32])).is_none());
}

#[test]
fn a_decodable_but_invented_user_id_is_still_nobody() {
    let invented = UserId::from_bytes([0xff; 32]);
    assert!(peer_id_of(&invented).is_some());
    assert!(!verify(&invented, b"anything", &[0u8; 64]));
}

#[test]
fn a_peer_id_reads_back_as_its_base58_text() {
    let peer = libp2p::PeerId::random();
    assert_eq!(peer_id_text(&peer.to_bytes()), Some(peer.to_string()));
    assert_eq!(peer_id_text(&[1, 2, 3]), None);
}

#[test]
fn a_community_key_is_derived_from_its_id() {
    let a = community_key(&CommunityId::from_bytes([1; 32]));
    let b = community_key(&CommunityId::from_bytes([2; 32]));
    assert_ne!(a, b, "different communities must not share a key");
    assert_eq!(a, community_key(&CommunityId::from_bytes([1; 32])));
    assert!(a.starts_with(b"kahui.community.v1"));
}

#[test]
fn a_community_key_cannot_collide_with_the_relay_key() {
    let community = community_key(&CommunityId::from_bytes([0; 32]));
    assert_ne!(community, relay_key());
    assert_eq!(relay_key(), b"kahui.relays.v1".to_vec());
}

#[test]
fn seeds_survive_comments_blank_lines_and_typos() {
    let seeds = parse_seeds(
        "\
# a comment
/ip4/203.0.113.4/tcp/4001

  /ip6/2404:4408::1/udp/4001/quic-v1  # trailing comment
not-an-address
",
    );
    assert_eq!(
        seeds,
        vec!["/ip4/203.0.113.4/tcp/4001", "/ip6/2404:4408::1/udp/4001/quic-v1"],
        "a bad line should cost one seed, not the file"
    );
}

#[test]
fn the_template_names_nobody() {
    assert!(SEED_FILE_TEMPLATE.contains("one per line"));
    assert!(parse_seeds(SEED_FILE_TEMPLATE).is_empty(), "the examples in the template must stay commented out");
}

#[test]
fn adding_a_seed_is_idempotent() {
    let addr = "/ip4/203.0.113.4/tcp/4001";
    let first = with_seed(SEED_FILE_TEMPLATE, addr).expect("first add is new");
    assert!(with_seed(&first, addr).is_none(), "second add is not");
    assert_eq!(parse_seeds(&first), vec![addr]);
    assert_eq!(with_seed("x", addr), Some(format!("x\n{addr}\n")));
}

#[test]
fn the_compiled_list_is_empty_on_purpose() {
    assert!(compiled_seeds().is_empty());
}

#[test]
fn a_direct_address_is_offered_before_a_relayed_one_and_loopback_last() {
    let relayed = "/ip4/93.184.216.34/tcp/4001/p2p/12D3KooWDms1wiZZX7c7sJAX9zKkE5GnaCnLxwWeCEQwKoQrspUt/p2p-circuit";
    let addrs = vec![
        "/ip4/127.0.0.1/tcp/4001".to_string(),
        relayed.to_string(),
        "/ip4/192.168.1.5/tcp/4001".to_string(),
        "/ip4/192.168.1.5/tcp/4001".to_string(),
        "/ip6/::1/udp/4001/quic-v1".to_string(),
    ];
    assert_eq!(
        public_addrs(&addrs),
        vec![
            "/ip4/192.168.1.5/tcp/4001".to_string(),
            relayed.to_string(),
            "/ip4/127.0.0.1/tcp/4001".to_string(),
            "/ip6/::1/udp/4001/quic-v1".to_string(),
        ]
    );
    assert!(is_loopback("/ip6/::1/tcp/1"));
    assert!(!is_loopback("/ip4/10.0.0.1/tcp/1"));
    assert!(is_circuit(relayed));
    assert!(!is_circuit("/ip4/10.0.0.1/tcp/1"));
}

#[test]
fn relay_candidates_are_dialled_without_circuits_or_peer_ids() {
    let peer = "12D3KooWQYhTNQdmr3ArTeUHRYzFg94BKyTkoWBDWez9kSCVe2Xo";
    let addrs = vec![
        format!("/ip4/127.0.0.1/tcp/4001/p2p/{peer}"),
        format!("/ip4/203.0.113.7/tcp/4001/p2p/{peer}"),
        format!("/ip4/198.51.100.1/tcp/4001/p2p/{peer}/p2p-circuit"),
        "/ip4/203.0.113.7/tcp/4001".to_string(),
        "/ip6/2001:db8::1/udp/4001/quic-v1".to_string(),
        "/ip4/192.0.2.9/tcp/9".to_string(),
        "/ip4/192.0.2.10/tcp/10".to_string(),
    ];
    assert_eq!(
        dialable(&addrs),
        vec![
            "/ip4/203.0.113.7/tcp/4001".to_string(),
            "/ip6/2001:db8::1/udp/4001/quic-v1".to_string(),
            "/ip4/192.0.2.9/tcp/9".to_string(),
            "/ip4/192.0.2.10/tcp/10".to_string(),
        ]
    );
    assert_eq!(strip_peer(&format!("/ip4/1.2.3.4/udp/5/quic-v1/p2p/{peer}")), "/ip4/1.2.3.4/udp/5/quic-v1");
    assert_eq!(strip_peer("/ip4/1.2.3.4/tcp/5"), "/ip4/1.2.3.4/tcp/5");
    assert!(dialable(&Vec::new()).is_empty());
    assert_eq!(
        dialable(&vec![format!("/ip4/127.0.0.1/tcp/1/p2p/{peer}"), "/ip4/10.0.0.1/tcp/1".to_string()]),
        vec!["/ip4/10.0.0.1/tcp/1".to_string(), "/ip4/127.0.0.1/tcp/1".to_string()]
    );
}

#[test]
fn a_fast_clock_on_the_early_side_still_lands_in_the_window() {
    let (jane, juan) = peers();
    let off = offset_ms(&jane, &juan);
    for early in [0u64, 50, 150, 250] {
        let now = 10 * PERIOD_MS + off - early;
        assert!(is_window(&jane, &juan, now));
        assert!(is_window(&jane, &juan, now + 100), "{early}ms before the moment");
        assert_eq!(is_window(&jane, &juan, now), is_window(&jane, &juan, now + PERIOD_MS));
    }
    assert!(!is_window(&jane, &juan, 10 * PERIOD_MS + off + 251));
}

#[test]
fn a_peer_id_is_the_key_behind_a_fixed_prefix() {
    let user = Identity::generate().user_id();
    let bytes = peer_id_of(&user).unwrap();
    assert_eq!(&bytes[..6], &[0x00, 0x24, 0x08, 0x01, 0x12, 0x20]);
    assert_eq!(&bytes[6..], user.as_bytes().as_slice());
}
