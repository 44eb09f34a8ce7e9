use atemporal::identity::{blueprint, command_id, genesis, production, queue_item, round_precedence, sha256, structure};
use atemporal::safe::{GroupSlot, SafeInt, Version};

#[test]
fn tuple_births_are_fixed_size_scoped_and_keep_site_identity() {
    let command = command_id(1, 0, 3);
    let a = queue_item(&command, 0, 0).unwrap();
    let b = queue_item(&command, 1, 0).unwrap();
    assert_ne!(production(&a, 0), production(&b, 0));
    assert_ne!(production(&a, 0), production(&a, 1));
    assert_eq!(production(&a, 0), production(&a, 0));
    let site = blueprint(&command, 0).unwrap();
    assert_eq!(site, structure(&site));
    assert_ne!(site, genesis(0, 0).unwrap());
    assert!(queue_item(&command, 65536, 0).is_err());
    assert!(blueprint(&command, 65536).is_err());
    assert!(queue_item(&command_id(0, 0, 0), 0, 0).is_err());
}

#[test]
fn rejects_versions_slots_unsafe_integers_and_unknown_fields() {
    assert!(Version::try_new(1).is_err());
    assert!(GroupSlot::try_new(10).is_err());
    assert!(SafeInt::try_new(9007199254740992).is_err());
    assert_eq!(Version::default().get(), 2);
    assert_eq!(round_precedence(1, 4).unwrap().players, [1, 2, 3, 0]);
}

#[test]
fn safe_values_accept_their_ranges() {
    assert_eq!(SafeInt::try_new(9007199254740991).unwrap().get(), 9007199254740991);
    assert_eq!(GroupSlot::try_new(9).unwrap().get(), 9);
    assert_eq!(Version::try_new(2).unwrap().get(), 2);
    assert!(round_precedence(7, 1).is_err());
    assert_eq!(round_precedence(0, 3).unwrap().players, [0, 1, 2]);
    assert_eq!(round_precedence(5, 3).unwrap().players, [2, 0, 1]);
}

#[test]
fn sha256_is_lower_hex_of_the_digest() {
    assert_eq!(sha256(b""), "e3b0c44298fc1c149afbf4c8996fb92427ae41e4649b934ca495991b7852b855");
    assert_eq!(sha256(b"abc"), "ba7816bf8f01cfea414140de5dae2223b00361a396177a9cb410ff61f20015ad");
}

#[test]
fn identities_are_injective_in_their_inputs() {
    let c = command_id(3, 1, 2);
    assert_ne!(blueprint(&c, 1).unwrap(), blueprint(&c, 2).unwrap());
    assert_ne!(blueprint(&c, 1).unwrap(), blueprint(&command_id(3, 1, 3), 1).unwrap());
    assert_ne!(genesis(0, 1).unwrap(), genesis(1, 1).unwrap());
    assert_eq!(structure(&blueprint(&c, 4).unwrap()), blueprint(&c, 4).unwrap());
}
