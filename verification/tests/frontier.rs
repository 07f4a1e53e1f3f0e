use kahui::proto::frontier::Frontier;
use kahui::proto::ids::{Hash32, UserId};

fn user(tag: &[u8]) -> UserId {
    UserId(Hash32::digest(tag))
}

#[test]
fn tracks_the_highest_sequence_per_author() {
    let mut f = Frontier::new();
    let alice = user(b"alice");
    assert_eq!(f.get(&alice), None);
    assert_eq!(f.next_seq(&alice), 0);

    f.observe(alice, 3);
    f.observe(alice, 1); // out of order, must not go backwards
    assert_eq!(f.get(&alice), Some(3));
    assert_eq!(f.next_seq(&alice), 4);
    assert!(f.covers(&alice, 3));
    assert!(!f.covers(&alice, 4));
}

#[test]
fn entries_stay_sorted_so_the_encoding_is_canonical() {
    let users: Vec<UserId> = (0..8u8).map(|i| user(&[i])).collect();
    let mut a = Frontier::new();
    for (i, u) in users.iter().enumerate() {
        a.observe(*u, i as u64);
    }
    let mut b = Frontier::new();
    for (i, u) in users.iter().enumerate().rev() {
        b.observe(*u, i as u64);
    }
    assert_eq!(a, b);
    assert_eq!(a.encode(), b.encode());
}

#[test]
fn total_events_counts_from_zero() {
    let f = Frontier::from_pairs(vec![(user(b"a"), 2), (user(b"b"), 0)]);
    assert_eq!(f.total_events(), 4);
}

#[test]
fn from_pairs_keeps_the_highest_of_repeated_authors() {
    let f = Frontier::from_pairs(vec![(user(b"a"), 2), (user(b"a"), 9), (user(b"a"), 4)]);
    assert_eq!(f.len(), 1);
    assert_eq!(f.get(&user(b"a")), Some(9));
    assert!(!f.is_empty());
    assert!(Frontier::new().is_empty());
}

#[test]
fn iteration_is_in_author_order() {
    let f = Frontier::from_pairs(vec![(user(b"x"), 1), (user(b"y"), 2), (user(b"z"), 3)]);
    let authors: Vec<UserId> = f.iter().into_iter().map(|(u, _)| u).collect();
    let mut sorted = authors.clone();
    sorted.sort();
    assert_eq!(authors, sorted);
    assert_eq!(f.clone(), f);
}

#[test]
fn an_empty_frontier_encodes_as_a_zero_count() {
    assert_eq!(Frontier::new().encode(), vec![0]);
    let f = Frontier::from_pairs(vec![(UserId::from_bytes([1; 32]), 300)]);
    let mut expected = vec![1, 32];
    expected.extend_from_slice(&[1; 32]);
    expected.extend_from_slice(&[0xac, 0x02]);
    assert_eq!(f.encode(), expected);
}
