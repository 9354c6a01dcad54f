use auto_secret::hashing::hash;
use auto_secret::secret_types::AutoSecretType;
use std::hash::{Hash, Hasher};

#[derive(Hash)]
enum Declared {
    First,
    Second,
}

fn digest_as_derived(value: &Declared) -> String {
    let mut hasher = seahash::SeaHasher::new();
    value.hash(&mut hasher);
    hex::encode(hasher.finish().to_le_bytes())
}

fn is_lower_hex(c: char) -> bool {
    c.is_ascii_digit() || ('a'..='f').contains(&c)
}

#[test]
fn names_of_the_kinds() {
    assert_eq!(AutoSecretType::Uuid.as_str(), "uuid");
    assert_eq!(AutoSecretType::Ulid.as_str(), "ulid");
}

#[test]
fn kinds_are_read_from_their_names() {
    assert_eq!(AutoSecretType::try_from("uuid"), Ok(AutoSecretType::Uuid));
    assert_eq!(AutoSecretType::try_from("ulid"), Ok(AutoSecretType::Ulid));
}

#[test]
fn other_names_are_refused() {
    assert_eq!(AutoSecretType::try_from(""), Err(()));
    assert_eq!(AutoSecretType::try_from("UUID"), Err(()));
    assert_eq!(AutoSecretType::try_from("uuid "), Err(()));
    assert_eq!(AutoSecretType::try_from("nanoid"), Err(()));
}

#[test]
fn name_and_kind_round_trip() {
    for kind in [AutoSecretType::Uuid, AutoSecretType::Ulid] {
        assert_eq!(AutoSecretType::try_from(kind.as_str()), Ok(kind));
    }
}

#[test]
fn generated_uuid_has_the_hyphenated_form() {
    let text = AutoSecretType::Uuid.generate();
    let chars: Vec<char> = text.chars().collect();
    assert_eq!(chars.len(), 36);
    for (i, c) in chars.iter().enumerate() {
        if i == 8 || i == 13 || i == 18 || i == 23 {
            assert_eq!(*c, '-');
        } else {
            assert!(is_lower_hex(*c), "character {} of {}", i, text);
        }
    }
    assert_eq!(chars[14], '4');
    assert!(matches!(chars[19], '8' | '9' | 'a' | 'b'));
    let parsed = uuid::Uuid::parse_str(&text).unwrap();
    assert_eq!(parsed.get_version_num(), 4);
}

#[test]
fn generated_ulid_has_the_canonical_form() {
    let text = AutoSecretType::Ulid.generate();
    let chars: Vec<char> = text.chars().collect();
    assert_eq!(chars.len(), 26);
    for c in &chars {
        assert!("0123456789ABCDEFGHJKMNPQRSTVWXYZ".contains(*c), "{}", text);
    }
    assert!(('0'..='7').contains(&chars[0]));
    let parsed = ulid::Ulid::from_string(&text).unwrap();
    assert_eq!(parsed.to_string(), text);
}

#[test]
fn each_call_generates_another_value() {
    for kind in [AutoSecretType::Uuid, AutoSecretType::Ulid] {
        let first = kind.generate();
        let second = kind.generate();
        assert_ne!(first, second);
    }
}

#[test]
fn tag_of_each_kind() {
    assert_eq!(hash(&AutoSecretType::Uuid), "5f796da452e5de1c");
    assert_eq!(hash(&AutoSecretType::Ulid), "684bf4dbf7213751");
}

#[test]
fn tag_is_sixteen_hex_digits_and_stable() {
    for kind in [AutoSecretType::Uuid, AutoSecretType::Ulid] {
        let tag = hash(&kind);
        assert_eq!(tag.len(), 16);
        assert!(tag.chars().all(is_lower_hex));
        assert_eq!(hash(&kind), tag);
    }
}

#[test]
fn kinds_have_different_tags() {
    assert_ne!(hash(&AutoSecretType::Uuid), hash(&AutoSecretType::Ulid));
}

#[test]
fn tag_is_the_digest_of_a_derived_hash() {
    if std::mem::size_of::<usize>() == 8 {
        assert_eq!(hash(&AutoSecretType::Uuid), digest_as_derived(&Declared::First));
        assert_eq!(hash(&AutoSecretType::Ulid), digest_as_derived(&Declared::Second));
    }
}

#[test]
fn digest_as_text_is_little_endian_hex() {
    assert_eq!(auto_secret::hashing::digest_to_text(0), "0000000000000000");
    assert_eq!(auto_secret::hashing::digest_to_text(1), "0100000000000000");
    assert_eq!(auto_secret::hashing::digest_to_text(0x0123_4567_89ab_cdef), "efcdab8967452301");
    assert_eq!(auto_secret::hashing::digest_to_text(u64::MAX), "ffffffffffffffff");
    assert_eq!(auto_secret::hashing::digest_to_text(0x1cde_e552_a46d_795f), "5f796da452e5de1c");
}
