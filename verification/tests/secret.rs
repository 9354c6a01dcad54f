use auto_secret::hashing::hash;
use auto_secret::secret::{
    annotation_name, managed_entry_name, remove_secret, OwnerReference, Secret, SecretStatus,
    ANNOTATION_PREFIX,
};
use auto_secret::secret_types::AutoSecretType;
use auto_secret::string_map::StringMap;

fn owner() -> OwnerReference {
    OwnerReference {
        api_version: "webstep.no/v1alpha1".to_string(),
        kind: "AutoSecret".to_string(),
        name: "demo".to_string(),
        uid: "0000-1111".to_string(),
        controller: Some(true),
        block_owner_deletion: None,
    }
}

fn empty_secret() -> Secret {
    Secret::new("default".to_string(), "demo".to_string(), vec![owner()])
}

fn declared(entries: &[(&str, AutoSecretType)]) -> StringMap<AutoSecretType> {
    let mut map = StringMap::new();
    for (name, kind) in entries {
        map.insert(name.to_string(), *kind);
    }
    map
}

#[test]
fn tag_key_is_prefix_and_name() {
    assert_eq!(ANNOTATION_PREFIX, "autosecrets.webstep.no/");
    assert_eq!(annotation_name("a"), "autosecrets.webstep.no/a");
    assert_eq!(annotation_name(""), "autosecrets.webstep.no/");
    assert_eq!(annotation_name("db/pass"), "autosecrets.webstep.no/db/pass");
}

#[test]
fn tag_key_splits_into_the_entry_name() {
    assert_eq!(managed_entry_name("autosecrets.webstep.no/a"), Some("a".to_string()));
    assert_eq!(managed_entry_name("autosecrets.webstep.no/"), Some(String::new()));
    assert_eq!(
        managed_entry_name("autosecrets.webstep.no/caf\u{e9}"),
        Some("caf\u{e9}".to_string())
    );
    assert_eq!(managed_entry_name(&annotation_name("x.y")), Some("x.y".to_string()));
}

#[test]
fn foreign_keys_do_not_split() {
    assert_eq!(managed_entry_name(""), None);
    assert_eq!(managed_entry_name("a"), None);
    assert_eq!(managed_entry_name("autosecrets.webstep.no"), None);
    assert_eq!(managed_entry_name("autosecrets.webstep.nO/a"), None);
    assert_eq!(managed_entry_name("kubectl.kubernetes.io/last-applied-configuration"), None);
    assert_eq!(managed_entry_name("xautosecrets.webstep.no/a"), None);
}

#[test]
fn new_secret_has_neither_tags_nor_values() {
    let secret = empty_secret();
    assert_eq!(secret.namespace, "default");
    assert_eq!(secret.name, "demo");
    assert_eq!(secret.owner_references.len(), 1);
    assert_eq!(secret.owner_references[0].uid, "0000-1111");
    assert!(secret.annotations.is_empty());
    assert!(secret.data.is_empty());
}

#[test]
fn status_of_an_entry_without_tag_is_missing() {
    let mut secret = empty_secret();
    assert_eq!(secret.secret_status("a", &AutoSecretType::Uuid), SecretStatus::Missing);
    secret.data.insert("a".to_string(), b"value".to_vec());
    assert_eq!(secret.secret_status("a", &AutoSecretType::Uuid), SecretStatus::Missing);
}

#[test]
fn status_follows_the_stored_tag() {
    let mut secret = empty_secret();
    secret.store_secret("a", &AutoSecretType::Uuid, "value".to_string());
    assert_eq!(secret.secret_status("a", &AutoSecretType::Uuid), SecretStatus::Matches);
    assert_eq!(secret.secret_status("a", &AutoSecretType::Ulid), SecretStatus::Outdated);
    assert_eq!(secret.secret_status("b", &AutoSecretType::Uuid), SecretStatus::Missing);
}

#[test]
fn status_of_an_unknown_tag_is_outdated() {
    let mut secret = empty_secret();
    secret.annotations.insert(annotation_name("a"), "not-a-digest".to_string());
    assert_eq!(secret.secret_status("a", &AutoSecretType::Uuid), SecretStatus::Outdated);
    assert_eq!(secret.secret_status("a", &AutoSecretType::Ulid), SecretStatus::Outdated);
}

#[test]
fn store_secret_writes_tag_and_bytes() {
    let mut secret = empty_secret();
    secret.store_secret("a", &AutoSecretType::Ulid, "h\u{e9}".to_string());
    assert_eq!(secret.annotations.len(), 1);
    assert_eq!(
        secret.annotations.get("autosecrets.webstep.no/a"),
        Some(&"684bf4dbf7213751".to_string())
    );
    assert_eq!(secret.data.len(), 1);
    assert_eq!(secret.data.get("a"), Some(&vec![0x68u8, 0xc3, 0xa9]));
    assert_eq!(secret.namespace, "default");
    assert_eq!(secret.name, "demo");
}

#[test]
fn store_secret_replaces_what_was_stored() {
    let mut secret = empty_secret();
    secret.store_secret("a", &AutoSecretType::Uuid, "one".to_string());
    secret.store_secret("a", &AutoSecretType::Ulid, "two".to_string());
    assert_eq!(secret.annotations.len(), 1);
    assert_eq!(secret.annotations.get(&annotation_name("a")), Some(&hash(&AutoSecretType::Ulid)));
    assert_eq!(secret.data.get("a"), Some(&b"two".to_vec()));
}

#[test]
fn set_secret_generates_a_value_of_the_kind() {
    let mut secret = empty_secret();
    secret.set_secret("a", &AutoSecretType::Uuid);
    secret.set_secret("b", &AutoSecretType::Ulid);
    let a = String::from_utf8(secret.data.get("a").unwrap().clone()).unwrap();
    let b = String::from_utf8(secret.data.get("b").unwrap().clone()).unwrap();
    assert_eq!(uuid::Uuid::parse_str(&a).unwrap().get_version_num(), 4);
    assert_eq!(a.len(), 36);
    assert!(ulid::Ulid::from_string(&b).is_ok());
    assert_eq!(b.len(), 26);
    assert_eq!(secret.secret_status("a", &AutoSecretType::Uuid), SecretStatus::Matches);
    assert_eq!(secret.secret_status("b", &AutoSecretType::Ulid), SecretStatus::Matches);
}

#[test]
fn set_secret_twice_gives_another_value() {
    let mut secret = empty_secret();
    secret.set_secret("a", &AutoSecretType::Uuid);
    let first = secret.data.get("a").unwrap().clone();
    secret.set_secret("a", &AutoSecretType::Uuid);
    assert_ne!(secret.data.get("a").unwrap(), &first);
}

#[test]
fn remove_secret_takes_tag_and_value() {
    let mut secret = empty_secret();
    secret.store_secret("a", &AutoSecretType::Uuid, "one".to_string());
    secret.store_secret("b", &AutoSecretType::Uuid, "two".to_string());
    remove_secret(&mut secret.annotations, &mut secret.data, "a");
    assert!(!secret.annotations.contains_key(&annotation_name("a")));
    assert!(!secret.data.contains_key("a"));
    assert!(secret.annotations.contains_key(&annotation_name("b")));
    assert_eq!(secret.data.get("b"), Some(&b"two".to_vec()));
    remove_secret(&mut secret.annotations, &mut secret.data, "a");
    assert_eq!(secret.annotations.len(), 1);
    assert_eq!(secret.data.len(), 1);
}

#[test]
fn retain_removes_tagged_entries_that_are_not_declared() {
    let mut secret = empty_secret();
    secret.store_secret("a", &AutoSecretType::Uuid, "one".to_string());
    secret.store_secret("b", &AutoSecretType::Ulid, "two".to_string());
    secret.store_secret("c", &AutoSecretType::Ulid, "three".to_string());
    let modified = secret.retain(&declared(&[("b", AutoSecretType::Uuid)]));
    assert!(modified);
    assert_eq!(secret.annotations.len(), 1);
    assert_eq!(secret.data.len(), 1);
    assert_eq!(secret.annotations.get(&annotation_name("b")), Some(&hash(&AutoSecretType::Ulid)));
    assert_eq!(secret.data.get("b"), Some(&b"two".to_vec()));
}

#[test]
fn retain_with_everything_declared_changes_nothing() {
    let mut secret = empty_secret();
    secret.store_secret("a", &AutoSecretType::Uuid, "one".to_string());
    let modified = secret.retain(&declared(&[
        ("a", AutoSecretType::Ulid),
        ("z", AutoSecretType::Ulid),
    ]));
    assert!(!modified);
    assert_eq!(secret.annotations.get(&annotation_name("a")), Some(&hash(&AutoSecretType::Uuid)));
    assert_eq!(secret.data.get("a"), Some(&b"one".to_vec()));
    assert!(!secret.data.contains_key("z"));
}

#[test]
fn retain_leaves_foreign_tags_and_untagged_values() {
    let mut secret = empty_secret();
    secret.annotations.insert("example.org/owner".to_string(), "team".to_string());
    secret.data.insert("password".to_string(), b"hunter2".to_vec());
    secret.store_secret("a", &AutoSecretType::Uuid, "one".to_string());
    let modified = secret.retain(&declared(&[]));
    assert!(modified);
    assert_eq!(secret.annotations.len(), 1);
    assert_eq!(secret.annotations.get("example.org/owner"), Some(&"team".to_string()));
    assert_eq!(secret.data.len(), 1);
    assert_eq!(secret.data.get("password"), Some(&b"hunter2".to_vec()));
    assert!(!secret.retain(&declared(&[])));
}

#[test]
fn retain_removes_a_tag_that_has_no_value() {
    let mut secret = empty_secret();
    secret.annotations.insert(annotation_name("a"), hash(&AutoSecretType::Uuid));
    assert!(secret.retain(&declared(&[])));
    assert!(secret.annotations.is_empty());
}

#[test]
fn entries_to_remove_lists_each_name_once() {
    let mut secret = empty_secret();
    secret.store_secret("a", &AutoSecretType::Uuid, "one".to_string());
    secret.store_secret("b", &AutoSecretType::Uuid, "two".to_string());
    secret.store_secret("c", &AutoSecretType::Uuid, "three".to_string());
    secret.annotations.insert("example.org/c".to_string(), "x".to_string());
    let mut stale = secret.entries_to_remove(&declared(&[("b", AutoSecretType::Uuid)]));
    stale.sort();
    assert_eq!(stale, vec!["a".to_string(), "c".to_string()]);
    assert!(secret.entries_to_remove(&declared(&[
        ("a", AutoSecretType::Uuid),
        ("b", AutoSecretType::Uuid),
        ("c", AutoSecretType::Uuid),
    ]))
    .is_empty());
}
