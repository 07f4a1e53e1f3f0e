//! A node's own decisions, driven the way the platform drives them: commands
//! in, notifications and events to gossip out, and sync answered by handing
//! one node's answer to another.

use kahui::net::wire::{topic_name, GossipMessage, Presence, SyncRequest, SyncResponse};
use kahui::node::engine::{
    load_or_create_identity, resolve_display_name, Engine, Gossiped, Ingested, NodeError, META_DISPLAY_NAME,
};
use kahui::node::orphans::{OrphanBuffer, MAX_ORPHANS};
use kahui::net::discovery::KAD_PROTOCOL;
use kahui::node::network::{NetAction, NetEvent, RELAY_HOP_PROTOCOL};
use kahui::node::{NodeEvent, Reachability};
use kahui::proto::event::{Payload, SignedEvent};
use kahui::proto::identity::Identity;
use kahui::proto::ids::{ChannelId, CommunityId};
use kahui::store::{MemStore, Store};

fn node(name: &str) -> Engine {
    Engine::new(Identity::generate(), name.to_string(), MemStore::new())
}

/// Hands everything `from` holds for `community` to `to`, as sync does.
fn sync(from: &Engine, to: &mut Engine, community: CommunityId) -> usize {
    let mut applied = 0;
    loop {
        let have = to.store().frontier(&community).unwrap();
        let answer = from.serve_sync(SyncRequest::GetDelta { community, have, limit: 2 });
        match answer {
            SyncResponse::Delta { events, complete } => {
                for e in events {
                    if matches!(to.ingest(e, true), Ingested::New) {
                        applied += 1;
                    }
                }
                if complete {
                    return applied;
                }
            },
            SyncResponse::UnknownCommunity => return applied,
        }
    }
}

#[test]
fn founding_a_community_writes_three_events_and_says_so() {
    let mut alice = node("alice");
    let community = alice.create_community("Kahui".into(), "Hosted by its members".into()).unwrap();
    let channels = alice.store().channels(&community).unwrap();
    assert_eq!(channels.len(), 1);
    assert_eq!(channels[0].name, "general");
    assert_eq!(channels[0].id, ChannelId::derive(&community, "general"));
    let members = alice.store().members(&community).unwrap();
    assert_eq!(members.len(), 1);
    assert_eq!(members[0].display_name, "alice");
    assert_eq!(alice.take_outgoing().len(), 3);
    let told = alice.take_events();
    assert_eq!(told.len(), 3);
    assert!(matches!(&told[0], NodeEvent::CommunityCreated { name, .. } if name == "Kahui"));
    assert!(matches!(&told[1], NodeEvent::Membership { display_name, .. } if display_name == "alice"));
    assert!(matches!(&told[2], NodeEvent::ChannelCreated { name, .. } if name == "general"));
    assert!(alice.takes_part_in(&community));
}

#[test]
fn a_message_is_shown_with_its_author_name() {
    let mut alice = node("alice");
    let community = alice.create_community("Kahui".into(), String::new()).unwrap();
    let general = ChannelId::derive(&community, "general");
    alice.take_events();
    let id = alice.post(community, general, "kia ora".into()).unwrap();
    let history = alice.history(community, general, 50).unwrap();
    assert_eq!(history.len(), 1);
    assert_eq!(history[0].id, id);
    assert_eq!(history[0].body, "kia ora");
    assert_eq!(history[0].author_name, "alice");
    assert_eq!(history[0].author, alice.user());
    match &alice.take_events()[0] {
        NodeEvent::Message(m) => assert_eq!(m.body, "kia ora"),
        other => panic!("expected a message, got {other:?}"),
    }
}

#[test]
fn a_joiner_waits_for_the_history_then_announces_itself() {
    let mut alice = node("alice");
    let community = alice.create_community("Kahui".into(), String::new()).unwrap();
    let general = ChannelId::derive(&community, "general");
    alice.post(community, general, "first".into()).unwrap();

    let mut bob = node("bob");
    assert!(bob.begin_join(community).is_none(), "nothing to verify the community against yet");
    assert!(bob.take_settled().is_empty(), "still waiting");
    // The join settles by itself once the community's history arrives.
    assert!(sync(&alice, &mut bob, community) >= 4);
    let settled = bob.take_settled();
    assert_eq!(settled.len(), 1);
    assert_eq!(settled[0].0, community);
    assert!(matches!(settled[0].1, Ok(c) if c == community));
    assert!(bob.try_complete_join(community).is_none(), "a join completes once");
    assert!(bob.take_settled().is_empty());
    let announced = bob.take_outgoing();
    assert_eq!(announced.len(), 1);
    assert!(matches!(announced[0].payload(), Payload::Join { display_name } if display_name == "bob"));

    // Alice learns of Bob by the same route.
    for e in announced {
        assert!(matches!(alice.ingest(e, true), Ingested::New));
    }
    assert_eq!(alice.store().members(&community).unwrap().len(), 2);
    assert_eq!(alice.display_name_of(&community, &bob.user()), "bob");
}

#[test]
fn joining_a_community_already_held_completes_at_once() {
    let mut alice = node("alice");
    let community = alice.create_community("Kahui".into(), String::new()).unwrap();
    alice.take_outgoing();
    assert!(matches!(alice.begin_join(community), Some(Ok(c)) if c == community));
    assert!(alice.take_outgoing().is_empty(), "already a member: nothing to announce");
}

#[test]
fn an_early_event_waits_for_its_predecessor() {
    let mut alice = node("alice");
    let community = alice.create_community("Kahui".into(), String::new()).unwrap();
    let general = ChannelId::derive(&community, "general");
    let mut bob = node("bob");
    sync(&alice, &mut bob, community);
    alice.take_outgoing();
    alice.post(community, general, "one".into()).unwrap();
    alice.post(community, general, "two".into()).unwrap();
    let sent = alice.take_outgoing();

    // Gossip delivers the second before the first.
    match bob.ingest(sent[1].clone(), true) {
        Ingested::Parked { community: c, ask_sync } => {
            assert_eq!(c, community);
            assert!(ask_sync);
        },
        other => panic!("expected it to be held back, got {other:?}"),
    }
    assert_eq!(bob.history(community, general, 10).unwrap().len(), 0);
    assert!(matches!(bob.ingest(sent[0].clone(), true), Ingested::New));
    let history = bob.history(community, general, 10).unwrap();
    let bodies: Vec<&str> = history.iter().map(|m| m.body.as_str()).collect();
    assert_eq!(bodies, vec!["one", "two"], "the held event falls into place");
    assert!(matches!(bob.ingest(sent[1].clone(), false), Ingested::Duplicate));
}

#[test]
fn an_event_for_an_unknown_community_is_held_and_not_asked_about_without_a_sender() {
    let mut alice = node("alice");
    let community = alice.create_community("Kahui".into(), String::new()).unwrap();
    let sent = alice.take_outgoing();
    let mut bob = node("bob");
    assert!(matches!(bob.ingest(sent[1].clone(), false), Ingested::Parked { ask_sync: false, .. }));
    assert!(matches!(bob.ingest(sent[0].clone(), false), Ingested::New));
    assert_eq!(bob.store().members(&community).unwrap().len(), 1, "the held join landed too");
}

#[test]
fn a_forged_event_is_rejected() {
    let mut alice = node("alice");
    alice.create_community("Kahui".into(), String::new()).unwrap();
    let mut genesis: SignedEvent = alice.take_outgoing().remove(0);
    genesis.signature[0] ^= 1;
    let mut bob = node("bob");
    assert!(matches!(bob.ingest(genesis, true), Ingested::Rejected(_)));
}

#[test]
fn sync_is_refused_for_a_community_not_held() {
    let alice = node("alice");
    let have = MemStore::new().frontier(&CommunityId::from_bytes([7; 32])).unwrap();
    let answer = alice.serve_sync(SyncRequest::GetDelta { community: CommunityId::from_bytes([7; 32]), have, limit: 10 });
    assert!(matches!(answer, SyncResponse::UnknownCommunity));
}

#[test]
fn a_sync_asking_for_nothing_still_gets_one_event() {
    let mut alice = node("alice");
    let community = alice.create_community("Kahui".into(), String::new()).unwrap();
    let have = MemStore::new().frontier(&community).unwrap();
    match alice.serve_sync(SyncRequest::GetDelta { community, have, limit: 0 }) {
        SyncResponse::Delta { events, complete } => {
            assert_eq!(events.len(), 1);
            assert!(!complete);
        },
        other => panic!("expected a delta, got {other:?}"),
    }
}

#[test]
fn a_new_name_is_announced_in_every_community() {
    let mut alice = node("alice");
    let a = alice.create_community("One".into(), String::new()).unwrap();
    let b = alice.create_community("Two".into(), String::new()).unwrap();
    alice.take_outgoing();
    alice.set_display_name("Alice A.".into()).unwrap();
    assert_eq!(alice.display_name(), "Alice A.");
    assert_eq!(alice.take_outgoing().len(), 2);
    assert_eq!(alice.display_name_of(&a, &alice.user()), "Alice A.");
    assert_eq!(alice.display_name_of(&b, &alice.user()), "Alice A.");
    assert_eq!(alice.store().meta_get(META_DISPLAY_NAME).unwrap(), Some(b"Alice A.".to_vec()));
}

#[test]
fn a_stranger_is_shown_by_a_short_id() {
    let alice = node("alice");
    let stranger = Identity::generate().user_id();
    assert_eq!(alice.display_name_of(&CommunityId::from_bytes([1; 32]), &stranger), stranger.short());
}

#[test]
fn an_invite_names_this_node_first() {
    let mut alice = node("alice");
    let community = alice.create_community("Kahui".into(), String::new()).unwrap();
    let me = libp2p::PeerId::random().to_string();
    let invite = alice.make_invite(community, me.clone(), vec!["/ip4/93.184.216.34/tcp/4001".into()]).unwrap();
    assert_eq!(invite.name, "Kahui");
    assert_eq!(invite.community, community);
    assert_eq!(invite.peers.len(), 1);
    assert_eq!(invite.peers[0].peer_id, me);
    assert!(matches!(
        alice.make_invite(CommunityId::from_bytes([9; 32]), me, vec![]),
        Err(NodeError::UnknownCommunity(_))
    ));
}

#[test]
fn online_members_are_the_connected_ones() {
    let mut alice = node("alice");
    let community = alice.create_community("Kahui".into(), String::new()).unwrap();
    let mut bob = node("bob");
    bob.begin_join(community);
    sync(&alice, &mut bob, community);
    bob.try_complete_join(community);
    for e in bob.take_outgoing() {
        alice.ingest(e, true);
    }
    let bob_peer = kahui::net::peer::peer_id_of(&bob.user()).unwrap();
    let online = alice.online_members(&community, &vec![bob_peer]).unwrap();
    assert_eq!(online, vec![bob.user()]);
    assert!(alice.online_members(&community, &vec![]).unwrap().is_empty());
}

#[test]
fn status_counts_what_a_community_holds() {
    let mut alice = node("alice");
    let community = alice.create_community("Kahui".into(), String::new()).unwrap();
    let general = ChannelId::derive(&community, "general");
    alice.post(community, general, "hello".into()).unwrap();
    let statuses = alice.community_statuses().unwrap();
    assert_eq!(statuses.len(), 1);
    assert_eq!(statuses[0].id, community);
    assert_eq!(statuses[0].name, "Kahui");
    assert_eq!(statuses[0].events, 4);
    assert_eq!(statuses[0].members, 1);
    assert_eq!(statuses[0].channels, 1);
}

#[test]
fn an_identity_is_only_replaced_before_anything_is_signed() {
    let other = Identity::generate();
    let mut fresh = node("fresh");
    fresh.replace_identity(&other.to_backup_phrase()).unwrap();
    assert_eq!(fresh.store().meta_get("identity.secret").unwrap(), Some(other.secret_bytes().to_vec()));
    assert!(matches!(fresh.replace_identity("nonsense"), Err(NodeError::Identity(_))));

    let mut member = node("member");
    member.create_community("Kahui".into(), String::new()).unwrap();
    assert!(matches!(member.replace_identity(&other.to_backup_phrase()), Err(NodeError::Engine(_))));
}

#[test]
fn the_identity_is_kept_beside_the_log() {
    let mut store = MemStore::new();
    let first = load_or_create_identity(&mut store).unwrap();
    let again = load_or_create_identity(&mut store).unwrap();
    assert_eq!(first.secret_bytes(), again.secret_bytes());
}

#[test]
fn a_node_is_named_by_its_operator_then_by_memory_then_by_its_id() {
    let identity = Identity::generate();
    let mut store = MemStore::new();
    let made = resolve_display_name(&mut store, &identity, None).unwrap();
    assert_eq!(made, format!("kahui-{}", identity.user_id().short()));
    assert_eq!(resolve_display_name(&mut store, &identity, None).unwrap(), made);
    assert_eq!(resolve_display_name(&mut store, &identity, Some("ana".into())).unwrap(), "ana");
    assert_eq!(resolve_display_name(&mut store, &identity, None).unwrap(), "ana");
}

#[test]
fn authoring_always_extends_the_chain() {
    let mut alice = node("alice");
    let community = alice.create_community("Kahui".into(), String::new()).unwrap();
    let general = ChannelId::derive(&community, "general");
    for i in 0..20 {
        alice.post(community, general, format!("message {i}")).unwrap();
    }
    let sent = alice.take_outgoing();
    for (seq, e) in sent.iter().enumerate() {
        assert_eq!(e.seq(), seq as u64);
    }
    for w in sent.windows(2) {
        assert_eq!(w[1].event.prev_self, Some(w[0].id()));
        assert!(w[1].event.lamport > w[0].event.lamport);
    }
}

#[test]
fn the_orphan_buffer_holds_an_event_once_and_keeps_a_bound() {
    let mut alice = node("alice");
    alice.create_community("Kahui".into(), String::new()).unwrap();
    let sent = alice.take_outgoing();
    let mut buffer = OrphanBuffer::new();
    buffer.park(sent[1].clone());
    buffer.park(sent[1].clone());
    assert_eq!(buffer.len(), 1);
    let waiting = OrphanBuffer::dependency(&sent[1]);
    assert_eq!(waiting, sent[0].id());
    assert_eq!(buffer.take(&sent[2].id()).len(), 0);
    let taken = buffer.take(&waiting);
    assert_eq!(taken.len(), 1);
    assert_eq!(buffer.len(), 0);
    assert!(MAX_ORPHANS >= 1024);
}

#[test]
fn a_gossiped_event_is_ingested_and_a_stray_topic_ignored() {
    let mut alice = node("alice");
    let community = alice.create_community("Kahui".into(), String::new()).unwrap();
    let sent = alice.take_outgoing();
    let mut bob = node("bob");
    let topic = topic_name(&community);
    let genesis = GossipMessage::Event(Box::new(sent[0].clone())).encode();
    assert!(matches!(bob.on_gossip(&topic, &genesis), Gossiped::Event(Ingested::New)));
    assert!(matches!(bob.on_gossip("not-a-topic", &genesis), Gossiped::Ignored));
    assert!(matches!(bob.on_gossip(&topic, &[0xff, 0xff]), Gossiped::Ignored));
}

#[test]
fn a_presence_is_remembered_and_dialled() {
    let mut alice = node("alice");
    let community = alice.create_community("Kahui".into(), String::new()).unwrap();
    let bob = Identity::generate();
    let presence = Presence {
        user: bob.user_id(),
        addrs: vec!["/ip4/93.184.216.34/tcp/4001".into(), "garbage".into()],
        punch: vec![],
        event_count: 3,
        announced_at_ms: 1,
    };
    let topic = topic_name(&community);
    let bytes = GossipMessage::Presence(presence).encode();
    match alice.on_gossip(&topic, &bytes) {
        Gossiped::Dial { peer, addrs } => {
            assert_eq!(Some(peer.clone()), kahui::net::peer::peer_id_of(&bob.user_id()));
            assert_eq!(addrs, vec!["/ip4/93.184.216.34/tcp/4001"]);
            let remembered = alice.store().peers(&community).unwrap();
            assert_eq!(remembered.len(), 1);
            assert_eq!(remembered[0].peer_id, peer);
        },
        other => panic!("expected somebody to dial, got {other:?}"),
    }
    // Our own announcement comes back to us too; there is nobody to dial.
    let own = Presence { user: alice.user(), addrs: vec![], punch: vec![], event_count: 0, announced_at_ms: 2 };
    assert!(matches!(alice.on_gossip(&topic, &GossipMessage::Presence(own).encode()), Gossiped::Noted));
}

#[test]
fn a_sync_answer_is_applied_and_chased_only_when_it_helped() {
    let mut alice = node("alice");
    let community = alice.create_community("Kahui".into(), String::new()).unwrap();
    let sent = alice.take_outgoing();
    let mut bob = node("bob");
    assert!(bob.sync_request(community).is_none(), "not a member yet");
    bob.begin_join(community);
    match bob.sync_request(community) {
        Some(SyncRequest::GetDelta { community: c, limit, .. }) => {
            assert_eq!(c, community);
            assert_eq!(limit, 128);
        },
        None => panic!("a member asks"),
    }
    assert_eq!(bob.on_sync_response("peer".into(), community, sent[..2].to_vec(), false), (2, true));
    assert!(matches!(bob.take_events().last(), Some(NodeEvent::Synced { applied: 2, .. })));
    assert_eq!(bob.on_sync_response("peer".into(), community, sent[..2].to_vec(), false), (0, false));
    assert_eq!(bob.on_sync_response("peer".into(), community, sent[2..].to_vec(), true), (1, false));
}

#[test]
fn presence_is_announced_only_with_somewhere_to_be_reached() {
    let mut alice = node("alice");
    let community = alice.create_community("Kahui".into(), String::new()).unwrap();
    assert!(alice.presence_for(&community, vec![], vec![]).is_none());
    match alice.presence_for(&community, vec!["/ip4/93.184.216.34/tcp/4001".into()], vec![]) {
        Some(GossipMessage::Presence(p)) => {
            assert_eq!(p.user, alice.user());
            assert_eq!(p.event_count, 3);
        },
        _ => panic!("expected a presence"),
    }
}

#[test]
fn status_reports_the_node_and_its_communities() {
    let mut alice = node("alice");
    alice.create_community("Kahui".into(), String::new()).unwrap();
    let status = alice.status("peer".into(), vec!["/ip4/1.2.3.4/tcp/1".into()], vec![]).unwrap();
    assert_eq!(status.display_name, "alice");
    assert_eq!(status.user, alice.user());
    assert_eq!(status.communities.len(), 1);
    assert_eq!(status.peer_id, "peer");
}

fn peer_bytes() -> Vec<u8> {
    libp2p::PeerId::random().to_bytes()
}

#[test]
fn a_first_connection_asks_for_every_community_and_is_remembered() {
    let mut alice = node("alice");
    let one = alice.create_community("One".into(), String::new()).unwrap();
    let two = alice.create_community("Two".into(), String::new()).unwrap();
    alice.take_events();
    let bob = peer_bytes();
    let actions = alice.on_net_event(NetEvent::Connected {
        peer: bob.clone(),
        remote: "/ip4/93.184.216.34/tcp/4001".into(),
        first: true,
    });
    assert_eq!(actions.len(), 2);
    for (action, community) in actions.iter().zip([one, two]) {
        match action {
            NetAction::RequestSync { peer, request: SyncRequest::GetDelta { community: c, limit, .. } } => {
                assert_eq!(peer, &bob);
                assert_eq!(*c, community);
                assert_eq!(*limit, 128);
            },
            _ => panic!("expected a sync request"),
        }
    }
    assert_eq!(alice.store().peers(&one).unwrap().len(), 1);
    assert!(matches!(alice.take_events().last(), Some(NodeEvent::PeerConnected { .. })));
    // A second connection to the same peer asks for nothing more.
    let again = alice.on_net_event(NetEvent::Connected { peer: bob, remote: "/ip4/93.184.216.34/udp/4001/quic-v1".into(), first: false });
    assert!(again.is_empty());
}

#[test]
fn a_relay_that_carried_for_us_is_kept_and_redialled() {
    let mut alice = node("alice");
    alice.create_community("One".into(), String::new()).unwrap();
    let relay = peer_bytes();
    let found = alice.on_net_event(NetEvent::Identified {
        peer: relay.clone(),
        listen_addrs: vec!["/ip4/93.184.216.34/tcp/4001".into()],
        protocols: vec![RELAY_HOP_PROTOCOL.into()],
        observed: "/ip4/198.51.100.7/tcp/5555".into(),
    });
    assert!(found.is_empty(), "not behind a router, so nobody is asked to carry");
    assert!(alice.on_net_event(NetEvent::RelayAccepted { relay: relay.clone() }).is_empty(), "no address to announce yet");
    let relays = alice.store().relays().unwrap();
    assert_eq!(relays.len(), 1);
    assert_eq!(relays[0].peer_id, relay);
    assert_eq!(relays[0].addrs, vec!["/ip4/93.184.216.34/tcp/4001".to_string()]);
    // While it carries for us there is nobody to redial.
    assert!(alice.on_net_event(NetEvent::PresenceTick).is_empty());
    // Reachable after all: the reservation goes back and we offer to carry.
    let direct = alice.on_net_event(NetEvent::Reachability(Some(Reachability::Direct)));
    assert!(matches!(direct[0], NetAction::ReleaseRelays));
    assert!(matches!(direct[1], NetAction::DhtProvide(_)));
    // Nobody carries for us now, so the remembered relay is dialled.
    let tick = alice.on_net_event(NetEvent::PresenceTick);
    assert_eq!(tick.len(), 1);
    match &tick[0] {
        NetAction::Dial { peer, addrs } => {
            assert_eq!(peer, &relay);
            assert_eq!(addrs, &vec!["/ip4/93.184.216.34/tcp/4001".to_string()]);
        },
        _ => panic!("expected a dial"),
    }
}

#[test]
fn behind_a_router_a_connected_candidate_is_asked_to_carry() {
    let mut alice = node("alice");
    let relay = peer_bytes();
    alice.on_net_event(NetEvent::Connected { peer: relay.clone(), remote: "/ip4/93.184.216.34/tcp/4001".into(), first: true });
    alice.on_net_event(NetEvent::Identified {
        peer: relay.clone(),
        listen_addrs: vec![format!("/ip4/93.184.216.34/tcp/4001/p2p/{}", libp2p::PeerId::from_bytes(&relay).unwrap())],
        protocols: vec![RELAY_HOP_PROTOCOL.into(), KAD_PROTOCOL.into()],
        observed: "/ip4/198.51.100.7/tcp/5555".into(),
    });
    let actions = alice.on_net_event(NetEvent::Reachability(Some(Reachability::BehindNat)));
    assert_eq!(actions.len(), 1);
    match &actions[0] {
        NetAction::ListenVia { relay: r, addrs } => {
            assert_eq!(r, &relay);
            assert_eq!(addrs, &vec!["/ip4/93.184.216.34/tcp/4001".to_string()]);
        },
        _ => panic!("expected a relay reservation"),
    }
    // Hearing the same thing again changes nothing.
    assert!(alice.on_net_event(NetEvent::Reachability(Some(Reachability::BehindNat))).is_empty());
}

#[test]
fn a_new_listening_circuit_is_offered_and_announced() {
    let mut alice = node("alice");
    let community = alice.create_community("One".into(), String::new()).unwrap();
    let circuit = format!("/ip4/93.184.216.34/tcp/4001/p2p/{}/p2p-circuit", libp2p::PeerId::random());
    let actions = alice.on_net_event(NetEvent::Listening { addr: circuit.clone() });
    assert!(matches!(&actions[..], [NetAction::AddExternal(a)] if *a == circuit));
    assert!(alice.on_net_event(NetEvent::Listening { addr: "/ip4/0.0.0.0/tcp/4001".into() }).is_empty());
    // A subscriber hears where we are and is asked for what we lack.
    let bob = peer_bytes();
    let actions = alice.on_net_event(NetEvent::Subscribed { peer: bob.clone(), topic: topic_name(&community) });
    assert_eq!(actions.len(), 2);
    assert!(matches!(&actions[0], NetAction::Publish { topic, .. } if *topic == topic_name(&community)));
    assert!(matches!(&actions[1], NetAction::RequestSync { peer, .. } if *peer == bob));
    let tick = alice.on_net_event(NetEvent::AntiEntropyTick);
    assert!(tick.is_empty(), "nobody connected");
}
