use kahui::net::wire::{community_from_topic, topic_name, GossipMessage, Presence, SyncResponse, TOPIC_PREFIX};
use kahui::proto::event::{ChainTip, Event, Payload};
use kahui::proto::identity::Identity;
use kahui::proto::ids::CommunityId;

#[test]
fn gossip_messages_roundtrip() {
    let identity = Identity::generate();
    let event = Event::create(
        &identity,
        CommunityId::zero(),
        &ChainTip::genesis(),
        0,
        Payload::CreateCommunity { name: "Kahui".into(), description: String::new() },
    );
    let message = GossipMessage::Event(Box::new(event.clone()));
    let decoded = GossipMessage::decode(&message.encode()).unwrap();
    match decoded {
        GossipMessage::Event(decoded) => assert_eq!(*decoded, event),
        other => panic!("decoded as {other:?}"),
    }
}

#[test]
fn presence_roundtrips() {
    let presence = Presence {
        user: Identity::generate().user_id(),
        addrs: vec!["/ip4/127.0.0.1/tcp/4001".into()],
        punch: vec!["/ip4/93.184.216.34/udp/4001/quic-v1".into()],
        event_count: 12,
        announced_at_ms: 1_700_000_000_000,
    };
    let decoded = GossipMessage::decode(
        &GossipMessage::Presence(Presence {
            user: presence.user,
            addrs: presence.addrs.clone(),
            punch: presence.punch.clone(),
            event_count: presence.event_count,
            announced_at_ms: presence.announced_at_ms,
        })
        .encode(),
    )
    .unwrap();
    match decoded {
        GossipMessage::Presence(p) => {
            assert_eq!(p.user, presence.user);
            assert_eq!(p.addrs, presence.addrs);
            // Where the sender's router puts them, which is what a peer aims
            // at when neither of them can be dialled.
            assert_eq!(p.punch, presence.punch);
            assert_eq!(p.event_count, 12);
        },
        other => panic!("decoded as {other:?}"),
    }
}

#[test]
fn repeated_announcements_are_distinguishable() {
    let user = Identity::generate().user_id();
    let announce = |at| {
        GossipMessage::Presence(Presence {
            user,
            addrs: vec!["/ip4/127.0.0.1/tcp/4001".into()],
            punch: Vec::new(),
            event_count: 12,
            announced_at_ms: at,
        })
        .encode()
    };
    assert_ne!(
        announce(1_700_000_000_000),
        announce(1_700_000_003_000),
        "two announcements must not hash alike, or gossip drops the second"
    );
}

#[test]
fn a_topic_names_the_community_it_carries() {
    let community = CommunityId::from_bytes([9; 32]);
    assert_eq!(community_from_topic(&topic_name(&community)), Some(community));
}

#[test]
fn topics_belonging_to_other_protocols_are_ignored() {
    assert_eq!(community_from_topic("/ipfs/announce"), None);
    assert_eq!(community_from_topic(TOPIC_PREFIX), None);
    assert_eq!(community_from_topic(&format!("{TOPIC_PREFIX}nothex")), None);
}

#[test]
fn topics_are_scoped_to_one_community() {
    let a = topic_name(&CommunityId::from_bytes([1; 32]));
    let b = topic_name(&CommunityId::from_bytes([2; 32]));
    assert_ne!(a, b);
    assert!(a.starts_with(TOPIC_PREFIX));
}

#[test]
fn a_topic_is_the_prefix_and_the_hex_id() {
    assert_eq!(
        topic_name(&CommunityId::from_bytes([0xab; 32])),
        format!("{TOPIC_PREFIX}{}", "ab".repeat(32))
    );
}

#[test]
fn an_unknown_gossip_variant_and_trailing_bytes_are_refused() {
    assert!(GossipMessage::decode(&[2]).is_err());
    let identity = Identity::generate();
    let event = Event::create(
        &identity,
        CommunityId::zero(),
        &ChainTip::genesis(),
        0,
        Payload::CreateCommunity { name: "Kahui".into(), description: String::new() },
    );
    let mut bytes = GossipMessage::Event(Box::new(event)).encode();
    bytes.push(0);
    assert!(GossipMessage::decode(&bytes).is_err());
}

#[test]
fn an_unknown_community_answer_carries_no_events() {
    assert_eq!(SyncResponse::UnknownCommunity.event_count(), 0);
    assert_eq!(SyncResponse::Delta { events: Vec::new(), complete: true }.event_count(), 0);
}
