use kahui::proto::event::{
    ChainTip, Event, Payload, SignedEvent, ValidationError, MAX_BODY_BYTES, MAX_PARENTS, PROTOCOL_VERSION,
};
use kahui::proto::identity::Identity;
use kahui::proto::ids::{ChannelId, CommunityId, EventId, Hash32};

fn genesis(id: &Identity) -> SignedEvent {
    Event {
        version: PROTOCOL_VERSION,
        community: CommunityId::zero(),
        author: id.user_id(),
        seq: 0,
        prev_self: None,
        lamport: 1,
        parents: Vec::new(),
        timestamp_ms: 1_700_000_000_000,
        payload: Payload::CreateCommunity { name: "Kahui".into(), description: "test".into() },
    }
    .sign(id)
}

#[test]
fn signed_event_verifies() {
    let id = Identity::generate();
    genesis(&id).verify().unwrap();
}

#[test]
fn tampering_with_the_body_breaks_the_signature() {
    let id = Identity::generate();
    let mut ev = genesis(&id);
    ev.event.payload = Payload::CreateCommunity { name: "Not Kahui".into(), description: "test".into() };
    assert!(matches!(ev.verify(), Err(ValidationError::BadSignature(_))));
}

#[test]
fn community_id_of_genesis_is_its_own_id() {
    let id = Identity::generate();
    let ev = genesis(&id);
    assert_eq!(ev.community_id(), CommunityId::from(ev.id()));
}

#[test]
fn encoding_is_deterministic() {
    let id = Identity::generate();
    let ev = genesis(&id);
    assert_eq!(ev.encode(), ev.encode());
    assert_eq!(SignedEvent::decode(&ev.encode()).unwrap(), ev);
}

#[test]
fn rejects_channel_id_that_does_not_match_its_name() {
    let id = Identity::generate();
    let community = CommunityId(Hash32::digest(b"c"));
    let ev = Event {
        version: PROTOCOL_VERSION,
        community,
        author: id.user_id(),
        seq: 1,
        prev_self: Some(EventId(Hash32::digest(b"prev"))),
        lamport: 2,
        parents: Vec::new(),
        timestamp_ms: 0,
        payload: Payload::CreateChannel {
            channel: ChannelId::derive(&community, "random"),
            name: "general".into(),
            topic: String::new(),
        },
    }
    .sign(&id);
    assert_eq!(ev.verify(), Err(ValidationError::ChannelIdMismatch));
}

#[test]
fn rejects_oversized_body() {
    let id = Identity::generate();
    let community = CommunityId(Hash32::digest(b"c"));
    let ev = Event {
        version: PROTOCOL_VERSION,
        community,
        author: id.user_id(),
        seq: 1,
        prev_self: Some(EventId(Hash32::digest(b"prev"))),
        lamport: 2,
        parents: Vec::new(),
        timestamp_ms: 0,
        payload: Payload::Message {
            channel: ChannelId::derive(&community, "general"),
            body: "x".repeat(MAX_BODY_BYTES + 1),
        },
    }
    .sign(&id);
    assert!(matches!(ev.verify(), Err(ValidationError::TooLong { .. })));
}

#[test]
fn rejects_non_genesis_without_prev_self() {
    let id = Identity::generate();
    let community = CommunityId(Hash32::digest(b"c"));
    let ev = Event {
        version: PROTOCOL_VERSION,
        community,
        author: id.user_id(),
        seq: 4,
        prev_self: None,
        lamport: 5,
        parents: Vec::new(),
        timestamp_ms: 0,
        payload: Payload::Join { display_name: "b".into() },
    }
    .sign(&id);
    assert_eq!(ev.verify(), Err(ValidationError::MissingPrevSelf { seq: 4 }));
}

#[test]
fn an_empty_name_is_refused_and_whitespace_counts_as_empty() {
    let id = Identity::generate();
    let mut body = genesis(&id).event;
    body.payload = Payload::CreateCommunity { name: "  \t".into(), description: String::new() };
    assert_eq!(body.validate_shape(), Err(ValidationError::Empty { field: "community name" }));
}

#[test]
fn the_parent_list_is_deduplicated_sorted_and_capped() {
    let id = Identity::generate();
    let mut heads: Vec<EventId> = (0..40u8).map(|i| EventId(Hash32::digest(&[i]))).collect();
    heads.push(heads[0]);
    let tip = ChainTip { next_seq: 3, prev_self: Some(heads[1]), next_lamport: 0, parents: heads.clone() };
    let ev = Event::create(&id, CommunityId(Hash32::digest(b"c")), &tip, 5, Payload::Join { display_name: "x".into() });
    let mut expected = heads.clone();
    expected.sort_unstable();
    expected.dedup();
    expected.truncate(MAX_PARENTS);
    assert_eq!(ev.event.parents, expected);
    // The clock never starts below one.
    assert_eq!(ev.event.lamport, 1);
    assert_eq!(ev.event.seq, 3);
}

#[test]
fn a_signed_event_matches_only_its_own_id() {
    let id = Identity::generate();
    let ev = genesis(&id);
    assert_eq!(ev.verify_id(&ev.id()), Ok(()));
    assert_eq!(ev.verify_id(&EventId::zero()), Err(ValidationError::IdMismatch));
    assert_eq!(ev.order_key(), (1, ev.id()));
}

#[test]
fn decoding_refuses_a_truncated_event() {
    let id = Identity::generate();
    let bytes = genesis(&id).encode();
    assert!(SignedEvent::decode(&bytes[..bytes.len() - 1]).is_err());
    let mut longer = bytes.clone();
    longer.push(7);
    assert!(SignedEvent::decode(&longer).is_err());
}
