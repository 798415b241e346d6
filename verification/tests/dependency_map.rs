use semver::VersionReq;
use yarn_lock::dependencies::DependencyMap;
use yarn_lock::text::{same_text, starts_with};

fn req(text: &str) -> VersionReq {
    VersionReq::parse(text).unwrap()
}

#[test]
fn new_map_is_empty() {
    let map = DependencyMap::new();
    assert!(map.is_empty());
    assert_eq!(map.len(), 0);
    assert_eq!(map.get("a"), None);
    assert!(map.entries().is_empty());
}

#[test]
fn insert_enters_and_replaces() {
    let mut map = DependencyMap::new();
    map.insert("a".to_string(), req("1"));
    map.insert("b".to_string(), req("2"));
    assert_eq!(map.len(), 2);
    assert!(!map.is_empty());
    map.insert("a".to_string(), req("3"));
    assert_eq!(map.len(), 2);
    assert_eq!(map.get("a"), Some(&req("3")));
    assert_eq!(map.get("b"), Some(&req("2")));
    assert_eq!(map.get("c"), None);
    assert!(map.contains_key("b"));
    assert!(!map.contains_key(""));
}

#[test]
fn clone_holds_the_same_entries() {
    let mut map = DependencyMap::new();
    map.insert("a".to_string(), req("1"));
    map.insert("b".to_string(), req("2"));
    let copy = map.clone();
    assert_eq!(copy.entries(), map.entries());
    map.insert("c".to_string(), req("3"));
    assert_eq!(copy.len(), 2);
    assert_eq!(map.len(), 3);
}

#[test]
fn texts_are_compared_by_their_characters() {
    assert!(same_text("", ""));
    assert!(same_text("héllo", "héllo"));
    assert!(!same_text("a", "b"));
    assert!(!same_text("a", "ab"));
    assert!(!same_text("ab", "a"));
}

#[test]
fn line_starts_with_a_word() {
    assert!(starts_with("dependencies:", "dependencies"));
    assert!(starts_with("dependencies", "dependencies"));
    assert!(starts_with("# note", "#"));
    assert!(starts_with("anything", ""));
    assert!(!starts_with("dependencie", "dependencies"));
    assert!(!starts_with(" dependencies:", "dependencies"));
    assert!(!starts_with("", "#"));
}
