use kahui::proto::ids::{CommunityId, EventId, Hash32, UserId};
use kahui::store::keys::{event_from_order_key, lamport_from_order_key};
use kahui::store::StoreError;
use kahui::store::keys::{
    chain, chain_author_bounds, chain_bounds, channel_log, channel_log_bounds, order, order_bounds, order_value, pair,
    pair_bounds, parse_chain_key, parse_order_value, parse_pair_second, parse_peer_key, peer, peer_bounds,
};

fn community() -> CommunityId {
    CommunityId(Hash32::digest(b"c"))
}

#[test]
fn chain_keys_sort_by_sequence_within_an_author() {
    let (c, a) = (community(), UserId(Hash32::digest(b"a")));
    assert!(chain(&c, &a, 1) < chain(&c, &a, 2));
    assert!(chain(&c, &a, 9) < chain(&c, &a, 10));
}

#[test]
fn chain_bounds_enclose_every_author() {
    let c = community();
    let (lo, hi) = chain_bounds(&c);
    for tag in [b"a".as_slice(), b"zzz", &[0u8; 1], &[0xff; 1]] {
        let key = chain(&c, &UserId(Hash32::digest(tag)), 7);
        assert!(lo <= key && key <= hi);
    }
}

#[test]
fn bounds_exclude_other_communities() {
    let (lo, hi) = chain_bounds(&community());
    let other = chain(&CommunityId(Hash32::digest(b"other")), &UserId(Hash32::digest(b"a")), 0);
    assert!(other < lo || other > hi);
}

#[test]
fn order_keys_sort_by_lamport_then_event() {
    let c = community();
    let (e1, e2) = (EventId(Hash32::digest(b"1")), EventId(Hash32::digest(b"2")));
    assert!(order(&c, 1, &e1) < order(&c, 2, &e1));
    let lo = e1.min(e2);
    let hi = e1.max(e2);
    assert!(order(&c, 5, &lo) < order(&c, 5, &hi));
}

#[test]
fn key_parts_roundtrip() {
    let (c, a) = (community(), UserId(Hash32::digest(b"a")));
    assert_eq!(parse_chain_key(&chain(&c, &a, 42)), Some((a, 42)));
    assert_eq!(parse_order_value(&order_value(&a, 42)), Some((a, 42)));
    assert_eq!(parse_pair_second(&pair(&c, a.as_bytes())), Some(*a.as_bytes()));
}

#[test]
fn peer_bounds_enclose_any_peer_id() {
    let c = community();
    let (lo, hi) = peer_bounds(&c);
    for len in [6usize, 38, 64] {
        let key = peer(&c, &vec![0x9a; len]);
        assert!(lo <= key && key <= hi, "peer id of {len} bytes escaped the bounds");
    }
    let other = peer(&CommunityId(Hash32::digest(b"other")), &[0x9a; 38]);
    assert!(other < lo || other > hi);
}

#[test]
fn peer_key_roundtrips() {
    let c = community();
    assert_eq!(parse_peer_key(&peer(&c, &[1, 2, 3])), Some(vec![1, 2, 3]));
    assert_eq!(parse_peer_key(&[0u8; 8]), None);
}

#[test]
fn sequences_are_big_endian_at_the_end_of_a_chain_key() {
    let (c, a) = (community(), UserId(Hash32::digest(b"a")));
    let key = chain(&c, &a, 0x0102030405060708);
    assert_eq!(&key[..32], c.as_bytes());
    assert_eq!(&key[32..64], a.as_bytes());
    assert_eq!(&key[64..], &[1, 2, 3, 4, 5, 6, 7, 8]);
    let (first, last) = chain_author_bounds(&c, &a);
    assert!(first <= key && key <= last);
}

#[test]
fn channel_log_keys_sort_by_lamport_within_a_channel() {
    let c = community();
    let ch = kahui::proto::ids::ChannelId(Hash32::digest(b"general"));
    let e = EventId(Hash32::digest(b"e"));
    let (lo, hi) = channel_log_bounds(&c, &ch);
    let k1 = channel_log(&c, &ch, 3, &e);
    let k2 = channel_log(&c, &ch, 300, &e);
    assert!(lo <= k1 && k1 < k2 && k2 <= hi);
    let (olo, ohi) = order_bounds(&c);
    let k = order(&c, 7, &e);
    assert!(olo <= k && k <= ohi);
    let (plo, phi) = pair_bounds(&c);
    let p = pair(&c, e.as_bytes());
    assert!(plo <= p && p <= phi);
}

#[test]
fn malformed_keys_do_not_parse() {
    assert_eq!(parse_chain_key(&[0u8; 71]), None);
    assert_eq!(parse_order_value(&[0u8; 41]), None);
    assert_eq!(parse_pair_second(&[0u8; 63]), None);
}

#[test]
fn an_order_key_gives_back_its_clock_and_its_event() {
    let community = kahui::proto::ids::CommunityId::from_bytes([3; 32]);
    let event = kahui::proto::ids::EventId::from_bytes([9; 32]);
    let key = order(&community, 42, &event);
    assert_eq!(lamport_from_order_key(&key).unwrap(), 42);
    assert_eq!(event_from_order_key(&key).unwrap(), event);
    assert_eq!(lamport_from_order_key(&key[..20]), Err(StoreError::Corrupt("order key is too short".into())));
    assert_eq!(event_from_order_key(&key[..50]), Err(StoreError::Corrupt("order key has no event id".into())));
}
