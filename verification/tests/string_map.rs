use auto_secret::secret_types::AutoSecretType;
use auto_secret::string_map::StringMap;

#[test]
fn new_map_is_empty() {
    let m: StringMap<String> = StringMap::new();
    assert_eq!(m.len(), 0);
    assert!(m.is_empty());
    assert!(!m.contains_key("a"));
    assert!(m.get("a").is_none());
}

#[test]
fn insert_then_get() {
    let mut m: StringMap<String> = StringMap::new();
    m.insert("a".to_string(), "1".to_string());
    m.insert("b".to_string(), "2".to_string());
    assert_eq!(m.len(), 2);
    assert!(!m.is_empty());
    assert_eq!(m.get("a"), Some(&"1".to_string()));
    assert_eq!(m.get("b"), Some(&"2".to_string()));
    assert!(m.get("c").is_none());
    assert!(m.contains_key("a"));
    assert!(!m.contains_key("c"));
}

#[test]
fn insert_replaces_the_value_of_a_key() {
    let mut m: StringMap<Vec<u8>> = StringMap::new();
    m.insert("a".to_string(), vec![1, 2]);
    m.insert("a".to_string(), vec![3]);
    assert_eq!(m.len(), 1);
    assert_eq!(m.get("a"), Some(&vec![3u8]));
}

#[test]
fn remove_returns_the_value_and_forgets_the_key() {
    let mut m: StringMap<AutoSecretType> = StringMap::new();
    m.insert("a".to_string(), AutoSecretType::Uuid);
    m.insert("b".to_string(), AutoSecretType::Ulid);
    m.insert("c".to_string(), AutoSecretType::Uuid);
    assert_eq!(m.remove("b"), Some(AutoSecretType::Ulid));
    assert_eq!(m.remove("b"), None);
    assert_eq!(m.len(), 2);
    assert_eq!(m.get("a"), Some(&AutoSecretType::Uuid));
    assert_eq!(m.get("c"), Some(&AutoSecretType::Uuid));
    assert!(!m.contains_key("b"));
}

#[test]
fn keys_and_values_by_position_cover_the_map() {
    let mut m: StringMap<String> = StringMap::new();
    m.insert("x".to_string(), "1".to_string());
    m.insert("y".to_string(), "2".to_string());
    m.insert("x".to_string(), "3".to_string());
    let mut seen: Vec<(String, String)> = Vec::new();
    let mut i: usize = 0;
    while i < m.len() {
        seen.push((m.key(i).clone(), m.value(i).clone()));
        i += 1;
    }
    seen.sort();
    assert_eq!(
        seen,
        vec![("x".to_string(), "3".to_string()), ("y".to_string(), "2".to_string())]
    );
}

#[test]
fn keys_are_compared_by_their_characters() {
    let mut m: StringMap<String> = StringMap::new();
    m.insert("caf\u{e9}".to_string(), "1".to_string());
    assert!(m.contains_key("caf\u{e9}"));
    assert!(!m.contains_key("cafe"));
    assert!(!m.contains_key(""));
    m.insert(String::new(), "empty".to_string());
    assert_eq!(m.get(""), Some(&"empty".to_string()));
}

#[test]
fn clone_holds_the_same_entries() {
    let mut m: StringMap<String> = StringMap::new();
    m.insert("a".to_string(), "1".to_string());
    m.insert("b".to_string(), "2".to_string());
    let mut copy = m.clone();
    assert_eq!(copy.len(), 2);
    assert_eq!(copy.get("a"), Some(&"1".to_string()));
    assert_eq!(copy.get("b"), Some(&"2".to_string()));
    copy.remove("a");
    assert!(m.contains_key("a"));
}
