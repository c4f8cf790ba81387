//! Tests of the path-keyed cache.

use drive_backup::collections::Cache;

#[test]
fn test_cache_insert() {
    let mut cache = Cache::new();
    cache.insert("path/to/entry", "me!");
    cache.insert("path/to/other_entry", "me too!");
    cache.insert("path/to/entry/1_level_lower", "I'm lower!");

    assert_eq!(cache.entry_count(), 0);
    assert_eq!(cache.sub_cache_count(), 1);
    let path = cache.sub_cache("path").unwrap();
    assert_eq!(path.sub_cache_count(), 1);
    let to = path.sub_cache("to").unwrap();
    assert_eq!(to.sub_cache_count(), 1);
    assert_eq!(to.entry_count(), 2);
    assert_eq!(to.entry("entry"), Some(&"me!"));
    assert_eq!(to.entry("other_entry"), Some(&"me too!"));
    let lower = to.sub_cache("entry").unwrap();
    assert_eq!(lower.sub_cache_count(), 0);
    assert_eq!(lower.entry_count(), 1);
    assert_eq!(lower.entry("1_level_lower"), Some(&"I'm lower!"));
}

#[test]
fn test_cache_get() {
    let mut cache = Cache::new();
    cache.insert("the/path/to/secrets/secret1", "I'm a secret".to_string());
    cache.insert("the/path/to/secrets/secret2", "I'm another secret".to_string());
    cache.insert("the/path/to/messages/message1", "I'm a message".to_string());
    cache.insert("the/path/to/messages/message2", "I'm Data".to_string());

    assert_eq!(cache.get("the/path/to/secrets/secret1"), Some(&"I'm a secret".to_string()));
    assert_eq!(cache.get("the/path/to/secrets/secret2"), Some(&"I'm another secret".to_string()));
    assert_eq!(cache.get("the/path/to/messages/message1"), Some(&"I'm a message".to_string()));
    assert_eq!(cache.get("the/path/to/messages/message2"), Some(&"I'm Data".to_string()));
}

#[test]
fn test_cache_remove() {
    let mut cache = Cache::new();
    cache.insert("the/path/to/secrets/secret1", "I'm a secret".to_string());
    cache.insert("the/path/to/secrets/secret2", "I'm another secret".to_string());
    cache.insert("the/path/to/messages/message1", "I'm a message".to_string());
    cache.insert("the/path/to/messages/message2", "I'm Data".to_string());

    assert_eq!(cache.remove("the/path/to/secrets/secret1"), Some("I'm a secret".to_string()));
    assert_eq!(cache.get("the/path/to/secrets/secret1"), None);
}

#[test]
fn test_cache_overwrites_entry() {
    let mut cache = Cache::new();
    cache.insert("a/b", 1u32);
    cache.insert("a/b", 2u32);
    assert_eq!(cache.get("a/b"), Some(&2u32));
    let a = cache.sub_cache("a").unwrap();
    assert_eq!(a.entry_count(), 1);
}

#[test]
fn test_cache_remove_sub_cache() {
    let mut cache = Cache::new();
    cache.insert("a/b/c", 1u32);
    cache.insert("a/b", 2u32);
    // Removing at "a/b" takes out the sub-cache "b" and keeps the entry "b".
    assert_eq!(cache.remove("a/b"), None);
    assert_eq!(cache.get("a/b/c"), None);
    assert_eq!(cache.get("a/b"), Some(&2u32));
    // A second removal at the same path now takes the entry.
    assert_eq!(cache.remove("a/b"), Some(2u32));
    assert_eq!(cache.get("a/b"), None);
}

#[test]
fn test_cache_remove_missing() {
    let mut cache = Cache::new();
    cache.insert("x/y", 5i64);
    assert_eq!(cache.remove("x/z"), None);
    assert_eq!(cache.remove("w/y"), None);
    assert_eq!(cache.get("x/y"), Some(&5i64));
}
