use kahui::proto::ids::{ChannelId, CommunityId, EventId, Hash32, IdError, UserId};

#[test]
fn hex_roundtrip() {
    let h = Hash32::digest(b"hello");
    assert_eq!(Hash32::from_hex(&h.to_hex()).unwrap(), h);
}

#[test]
fn channel_ids_are_deterministic_and_case_insensitive() {
    let c = CommunityId(Hash32::digest(b"community"));
    assert_eq!(ChannelId::derive(&c, "general"), ChannelId::derive(&c, "General"));
    assert_ne!(ChannelId::derive(&c, "general"), ChannelId::derive(&c, "random"));
}

#[test]
fn the_digest_is_blake3() {
    // BLAKE3 of the empty input, from the reference test vectors.
    assert_eq!(
        Hash32::digest(b"").to_hex(),
        "af1349b9f5f9a1a6a0404dea36dcc9499bcb25c9adc112b7cc9a93cae41f3262"
    );
}

#[test]
fn short_is_the_first_eight_hex_digits() {
    let h = Hash32::from_bytes([0xde, 0xad, 0xbe, 0xef, 1, 2, 3, 4, 5, 6, 7, 8, 9, 10, 11, 12, 13, 14, 15, 16, 17, 18, 19, 20, 21, 22, 23, 24, 25, 26, 27, 28]);
    assert_eq!(h.short(), "deadbeef");
    assert_eq!(UserId(h).short(), "deadbeef");
}

#[test]
fn hex_of_the_wrong_length_or_with_a_bad_digit_is_refused() {
    assert_eq!(Hash32::from_hex("abcd"), Err(IdError::BadLength(4)));
    let bad = format!("{}g", "0".repeat(63));
    assert!(matches!(Hash32::from_hex(&bad), Err(IdError::BadHex(_))));
    // Upper case and surrounding whitespace are accepted.
    let upper = format!(" {} ", "AB".repeat(32));
    assert_eq!(Hash32::from_hex(&upper).unwrap(), Hash32::from_bytes([0xab; 32]));
}

#[test]
fn zero_ids_are_zero() {
    assert!(Hash32::zero().is_zero());
    assert!(EventId::zero().is_zero());
    assert!(!EventId(Hash32::digest(b"x")).is_zero());
    assert_eq!(Hash32::try_from_slice(&[0u8; 31]), None);
    assert_eq!(Hash32::try_from_slice(&[0u8; 32]), Some(Hash32::zero()));
}
