use kahui::proto::identity::{verify, Identity, IdentityError, KEY_PREFIX};

#[test]
fn sign_and_verify_roundtrip() {
    let id = Identity::generate();
    let sig = id.sign(b"kia ora");
    assert!(verify(&id.user_id(), b"kia ora", &sig));
}

#[test]
fn rejects_tampered_message() {
    let id = Identity::generate();
    let sig = id.sign(b"kia ora");
    assert!(!verify(&id.user_id(), b"kia ora!", &sig));
}

#[test]
fn rejects_other_author() {
    let a = Identity::generate();
    let b = Identity::generate();
    let sig = a.sign(b"kia ora");
    assert!(!verify(&b.user_id(), b"kia ora", &sig));
}

#[test]
fn a_backup_phrase_restores_the_same_identity() {
    let original = Identity::generate();
    let phrase = original.to_backup_phrase();
    assert!(phrase.starts_with(KEY_PREFIX));
    let restored = Identity::from_backup_phrase(&phrase).unwrap();
    assert_eq!(restored.user_id(), original.user_id());

    // And it still signs as the same person.
    let signature = restored.sign(b"kia ora");
    assert!(verify(&original.user_id(), b"kia ora", &signature));
}

#[test]
fn text_that_is_not_a_key_is_refused() {
    assert!(matches!(Identity::from_backup_phrase("kahui1aaaa"), Err(IdentityError::NotAKey)));
    assert!(Identity::from_backup_phrase("kahuikey1!!!!").is_err());
}

#[test]
fn secret_roundtrip_preserves_user_id() {
    let a = Identity::generate();
    let b = Identity::from_secret(&a.secret_bytes()).unwrap();
    assert_eq!(a.user_id(), b.user_id());
}

#[test]
fn a_secret_of_the_wrong_length_is_refused() {
    assert!(matches!(Identity::from_secret(&[1, 2, 3]), Err(IdentityError::BadSecretLength(3))));
}

#[test]
fn a_phrase_with_whitespace_around_it_still_restores() {
    let original = Identity::generate();
    let phrase = format!("\n  {}  \t", original.to_backup_phrase());
    assert_eq!(Identity::from_backup_phrase(&phrase).unwrap().user_id(), original.user_id());
}

#[test]
fn the_same_seed_gives_the_same_public_key() {
    let seed = [42u8; 32];
    let a = Identity::from_secret(&seed).unwrap();
    let b = Identity::from_secret(&seed).unwrap();
    assert_eq!(a.user_id(), b.user_id());
    assert_eq!(a.sign(b"x"), b.sign(b"x"));
}
