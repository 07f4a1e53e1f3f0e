use kahui::net::invite::{Invite, InviteError, InvitePeer, INVITE_PREFIX, INVITE_VERSION, LINK_PREFIX};
use kahui::net::ip::addr_is_global;
use kahui::proto::ids::CommunityId;

fn sample() -> Invite {
    Invite::new(
        CommunityId::from_bytes([7; 32]),
        "Kahui".to_string(),
        vec![InvitePeer {
            peer_id: "12D3KooWabc".into(),
            addrs: vec!["/ip4/192.168.1.5/tcp/4001".into(), "/ip4/192.168.1.5/udp/4001/quic-v1".into()],
        }],
    )
}

#[test]
fn only_globally_routable_ipv6_counts() {
    // A machine can easily hold four IPv6 addresses and be reachable at
    // none of them.
    assert!(addr_is_global("/ip6/2404:4408:1234::1/tcp/4001"));
    // fc00::/7, private.
    assert!(!addr_is_global("/ip6/fddd:7047:7de2:428c:d301:add8:8933:f072/tcp/4001"));
    // fe80::/10, link-local.
    assert!(!addr_is_global("/ip6/fe80::8f62:f8f0:9a56:e8ca/tcp/4001"));
    assert!(!addr_is_global("/ip6/::1/tcp/4001"));
}

#[test]
fn roundtrips_through_text() {
    let invite = sample();
    let text = invite.encode();
    assert!(text.starts_with(INVITE_PREFIX));
    assert_eq!(Invite::decode(&text).unwrap(), invite);
}

#[test]
fn an_invite_with_only_lan_addresses_says_so() {
    let lan = Invite::new(
        CommunityId::from_bytes([1; 32]),
        "Games".to_string(),
        vec![InvitePeer {
            peer_id: "12D3KooWabc".into(),
            addrs: vec!["/ip4/192.168.1.143/tcp/4001".into(), "/ip4/127.0.0.1/tcp/4001".into()],
        }],
    );
    assert!(!lan.reachable_beyond_lan());

    let public = Invite::new(
        CommunityId::from_bytes([1; 32]),
        "Games".to_string(),
        vec![InvitePeer { peer_id: "12D3KooWabc".into(), addrs: vec!["/ip4/64.23.186.93/tcp/4001".into()] }],
    );
    assert!(public.reachable_beyond_lan());
}

#[test]
fn carrier_grade_nat_is_not_reachable_either() {
    // 100.64.0.0/10 looks public and is not.
    assert!(!addr_is_global("/ip4/100.90.1.5/tcp/4001"));
    assert!(!addr_is_global("/ip4/10.124.0.3/tcp/4001"));
    assert!(addr_is_global("/ip4/8.8.8.8/tcp/4001"));
}

#[test]
fn a_link_and_a_code_are_the_same_invite() {
    let invite = sample();
    let link = invite.to_link();
    assert!(link.starts_with("kahui://join/"));
    assert_eq!(Invite::decode(&link).unwrap(), invite);
    assert_eq!(Invite::decode(&invite.encode()).unwrap(), invite);
}

#[test]
fn surrounding_whitespace_is_forgiven() {
    let text = format!("  {}\n", sample().encode());
    assert_eq!(Invite::decode(&text).unwrap(), sample());
}

#[test]
fn rejects_text_that_is_not_an_invite() {
    assert!(matches!(Invite::decode("https://example.com/invite"), Err(InviteError::MissingPrefix)));
    assert!(Invite::decode("kahui1not-valid-base58-0OIl").is_err());
}

#[test]
fn rejects_an_invite_with_nowhere_to_connect() {
    let empty = Invite::new(CommunityId::from_bytes([7; 32]), "Kahui".to_string(), Vec::new());
    assert!(matches!(Invite::decode(&empty.encode()), Err(InviteError::NoPeers)));
}

#[test]
fn dial_addresses_carry_the_peer_id() {
    let addrs = sample().dial_addresses();
    assert_eq!(addrs.len(), 2);
    assert!(addrs.iter().all(|a| a.ends_with("/p2p/12D3KooWabc")));
}

#[test]
fn the_community_id_commits_to_the_genesis_event() {
    let invite = sample();
    assert_eq!(invite.expected_genesis().as_bytes(), invite.community.as_bytes());
}

#[test]
fn a_peer_with_no_addresses_is_nowhere_to_connect() {
    let bare = Invite::new(
        CommunityId::from_bytes([7; 32]),
        "Kahui".to_string(),
        vec![InvitePeer { peer_id: "12D3KooWabc".into(), addrs: Vec::new() }],
    );
    assert!(matches!(Invite::decode(&bare.encode()), Err(InviteError::NoPeers)));
}

#[test]
fn a_future_version_is_refused_by_number() {
    let mut future = sample();
    future.version = INVITE_VERSION + 1;
    assert!(matches!(Invite::decode(&future.encode()), Err(InviteError::UnsupportedVersion { found: 2 })));
}

#[test]
fn trailing_bytes_make_an_invite_malformed() {
    let mut bytes = sample().to_bytes();
    bytes.push(0);
    assert!(matches!(Invite::from_bytes(&bytes), Err(InviteError::Malformed(_))));
}

#[test]
fn bad_base58_is_reported_as_such() {
    assert!(matches!(Invite::decode("kahui10OIl"), Err(InviteError::BadBase58(_))));
}

#[test]
fn an_invite_is_compact_base58_after_its_prefix() {
    let text = sample().encode();
    assert!(text[INVITE_PREFIX.len()..].chars().all(|c| c.is_ascii_alphanumeric() && !"0OIl".contains(c)));
    assert_eq!(sample().to_link(), format!("{LINK_PREFIX}{text}"));
}

#[test]
fn broadcast_and_documentation_addresses_are_not_global() {
    assert!(!addr_is_global("/ip4/255.255.255.255/udp/9"));
    assert!(!addr_is_global("/ip4/192.0.2.1/tcp/1"));
    assert!(!addr_is_global("/ip4/0.0.0.0/tcp/1"));
    assert!(!addr_is_global("/dns4/example.com/tcp/1"));
}
