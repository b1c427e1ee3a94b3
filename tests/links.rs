use landmower::links::{Entry, Links, StoreError};
use landmower::time::Timestamp;

fn at(secs: u64) -> Timestamp {
    Timestamp::new(secs, 0)
}

#[test]
fn generate_key() {
    let mut links = Links::new();
    let link = "https://example.com";
    let (key, existing) = links.derive_key(&link.to_string()).unwrap();
    assert!(existing.is_none());
    assert_eq!(key.len(), 4);
    let entry = links.add_named(key.clone(), link.to_string()).unwrap();
    let result = links.derive_key(&link.to_string());

    assert!(result.is_ok());
    assert_eq!(result.unwrap(), (key, Some(entry)));
}

#[test]
fn load_save() {
    let test_links = vec![
        ("key1", "https://example1.com"),
        ("key2", "https://example2.com"),
        ("ThisIsAVeryLongKeyWithManyManyCharacters", "https://example3.com"),
        ("PointsToSameURLAsKey1", "https://example1.com"),
        ("123456", "https://example4.com"),
        ("-_0123456789ABCDEFGHIJKLMNOPQRSTUVWXYZabcdefghijklmnopqrstuvwxyz", "https://example5.com"),
    ]
    .into_iter()
    .map(|(k, v)| (k.to_string(), Entry::new(v.to_string(), at(1))))
    .collect::<Vec<_>>();

    let links = Links::from_entries(test_links.clone()).unwrap();
    let saved = links.iter();
    let loaded = Links::from_entries(saved).unwrap();

    let mut old_keys: Vec<_> = test_links.iter().map(|(k, _)| k.clone()).collect();
    let mut new_keys: Vec<_> = loaded.iter().into_iter().map(|(k, _)| k).collect();
    let mut old_values: Vec<_> = test_links.iter().map(|(_, v)| v.link.clone()).collect();
    let mut new_values: Vec<_> = loaded.iter().into_iter().map(|(_, v)| v.link).collect();
    old_keys.sort();
    new_keys.sort();
    old_values.sort();
    new_values.sort();

    assert_eq!(loaded.len(), links.len());
    assert_eq!(old_keys, new_keys);
    assert_eq!(old_values, new_values);
    for (k, e) in test_links.iter() {
        assert_eq!(loaded.get(k), Some(e));
    }
}

#[test]
fn add() {
    let mut links = Links::new();
    let link = "https://example.com";

    let (key, entry) = links.add(link.to_string()).unwrap();

    assert_eq!(links.len(), 1);
    assert_eq!(links.link_count(), 1);
    assert_eq!(links.find_by_link(&entry.link).unwrap().len(), 1);
    assert_eq!(links.find_by_link(&entry.link).unwrap()[0], key);
}

#[test]
fn add_named_base_case() {
    let mut links = Links::new();
    let link = "https://example.com";
    let key = "key";

    let entry = links.add_named(key.to_string(), link.to_string()).unwrap();

    assert_eq!(links.len(), 1);
    assert_eq!(links.link_count(), 1);
    assert_eq!(links.find_by_link(&entry.link).unwrap().len(), 1);
    assert_eq!(links.find_by_link(&entry.link).unwrap()[0], key);
}

#[test]
fn add_named_key_collision() {
    let mut links = Links::new();
    let link = "https://example.com";
    let key = "key";
    links.add_named(key.to_string(), link.to_string()).unwrap();

    let result = links.add_named(key.to_string(), link.to_string());

    assert!(result.is_err());
}

#[test]
fn add_named_link_collision() {
    let mut links = Links::new();
    let link = "https://example.com";
    let key1 = "key1";
    let key2 = "key2";
    let entry = links.add_named(key1.to_string(), link.to_string()).unwrap();

    assert!(links.add_named(key2.to_string(), link.to_string()).is_ok());
    assert_eq!(links.find_by_link(&entry.link).unwrap().len(), 2);

    assert!(links.find_by_link(&entry.link).unwrap().contains(&key1.to_string()));
    assert!(links.find_by_link(&entry.link).unwrap().contains(&key2.to_string()));
}

#[test]
fn remove() {
    let mut links = Links::new();
    let link = "https://example.com";
    let key = "key";

    let entry = links.add_named(key.to_string(), link.to_string()).unwrap();
    let removed = links.remove(key).unwrap();

    assert_eq!(removed.link, entry.link);
    assert_eq!(links.len(), 0);
    assert_eq!(links.link_count(), 0);
}

#[test]
fn remove_nonexistent() {
    let mut links = Links::new();
    let link = "https://example.com";
    let key = "key";

    links.add_named(key.to_string(), link.to_string()).unwrap();
    let removed = links.remove("nonexistent");

    assert!(removed.is_none());
}

#[test]
fn find_by_link() {
    let mut links = Links::new();
    let link = "https://example.com";
    let key1 = "key1";
    let key2 = "key2";
    links.add_named(key1.to_string(), link.to_string()).unwrap();
    links.add_named(key2.to_string(), link.to_string()).unwrap();

    let result = links.find_by_link(link);

    assert!(result.is_some());
    let result = result.unwrap();

    assert_eq!(result.len(), 2);
    assert!(result.contains(&key1.to_string()));
    assert!(result.contains(&key2.to_string()));
}

#[test]
fn find_by_link_nonexistent() {
    let links = Links::new();
    let result = links.find_by_link("nonexistent");

    assert!(result.is_none());
}

#[test]
fn named_alias_in_use_keeps_first_link() {
    let mut links = Links::new();
    assert!(links.add_named("test".to_string(), "https://example.com".to_string()).is_ok());
    let second = links.add_named("test".to_string(), "https://other.com".to_string());
    assert_eq!(second, Err(StoreError::AliasInUse));
    assert_eq!(links.get("test").unwrap().link, "https://example.com");
    assert!(links.find_by_link("https://other.com").is_none());
}

#[test]
fn derived_alias_is_stable() {
    let mut links = Links::new();
    let (k1, e1) = links.add("https://example.com".to_string()).unwrap();
    assert_eq!(k1.len(), 4);
    let (k2, e2) = links.add("https://example.com".to_string()).unwrap();
    assert_eq!(k1, k2);
    assert_eq!(e1, e2);
    assert_eq!(links.len(), 1);
    assert_eq!(links.find_by_link("https://example.com").unwrap().len(), 1);
}

#[test]
fn add_with_code_exact_entry() {
    let mut links = Links::new();
    let (k, e) = links.add_with_code(&"AbCdEfGhIjK".to_string(), "https://x.com".to_string(), at(7)).unwrap();
    assert_eq!(k, "AbCd");
    assert_eq!(e.link, "https://x.com");
    assert_eq!(e.metadata.used, 0);
    assert_eq!(e.metadata.created, at(7));
    assert_eq!(e.metadata.last_used, at(7));
    let (k2, e2) = links.add_with_code(&"AbCdEfGhIjK".to_string(), "https://x.com".to_string(), at(9)).unwrap();
    assert_eq!(k2, "AbCd");
    assert_eq!(e2, e);
}

#[test]
fn colliding_prefixes_get_distinct_aliases() {
    let mut links = Links::new();
    let (k1, _) = links.add_with_code(&"abcdEFGHIJK".to_string(), "https://a.com".to_string(), at(1)).unwrap();
    let (k2, _) = links.add_with_code(&"abcdXYZWVUT".to_string(), "https://b.com".to_string(), at(2)).unwrap();
    assert_eq!(k1, "abcd");
    assert_eq!(k2, "abcdX");
    assert_eq!(links.find_by_link("https://a.com").unwrap(), &[k1.clone()][..]);
    assert_eq!(links.find_by_link("https://b.com").unwrap(), &[k2.clone()][..]);
    let (k3, _) = links.add_with_code(&"abcdXYZWVUT".to_string(), "https://b.com".to_string(), at(3)).unwrap();
    assert_eq!(k3, "abcdX");
}

#[test]
fn keyspace_exhausted_when_every_prefix_is_taken() {
    let mut links = Links::new();
    links.add_named("abcd".to_string(), "https://one.com".to_string()).unwrap();
    links.add_named("abcde".to_string(), "https://two.com".to_string()).unwrap();
    let r = links.add_with_code(&"abcde".to_string(), "https://three.com".to_string(), at(1));
    assert_eq!(r, Err(StoreError::KeyspaceExhausted));
    assert_eq!(links.len(), 2);
    let short = links.add_with_code(&"abc".to_string(), "https://four.com".to_string(), at(1));
    assert_eq!(short, Err(StoreError::KeyspaceExhausted));
}

#[test]
fn remove_last_alias_drops_bucket() {
    let mut links = Links::new();
    links.add_named("aaaa".to_string(), "https://x.com".to_string()).unwrap();
    links.add_named("bbbb".to_string(), "https://x.com".to_string()).unwrap();
    links.add_named("cccc".to_string(), "https://y.com".to_string()).unwrap();
    assert_eq!(links.link_count(), 2);
    assert!(links.remove("aaaa").is_some());
    assert_eq!(links.find_by_link("https://x.com").unwrap(), &["bbbb".to_string()][..]);
    assert!(links.remove("bbbb").is_some());
    assert!(links.find_by_link("https://x.com").is_none());
    assert_eq!(links.link_count(), 1);
    assert!(links.get("bbbb").is_none());
    assert!(links.remove("bbbb").is_none());
}

#[test]
fn every_alias_found_by_its_link() {
    let mut links = Links::new();
    links.add_named("one1".to_string(), "https://a.com".to_string()).unwrap();
    links.add_named("two2".to_string(), "https://b.com".to_string()).unwrap();
    links.add_named("three".to_string(), "https://a.com".to_string()).unwrap();
    links.add("https://c.com".to_string()).unwrap();
    links.remove("one1");
    for (alias, entry) in links.iter() {
        let found = links.find_by_link(&entry.link).unwrap();
        assert!(!found.is_empty());
        assert!(found.contains(&alias));
    }
}

#[test]
fn from_entries_rejects_repeated_alias() {
    let entries = vec![
        ("same".to_string(), Entry::new("https://a.com".to_string(), at(1))),
        ("same".to_string(), Entry::new("https://b.com".to_string(), at(2))),
    ];
    assert_eq!(Links::from_entries(entries).err(), Some(StoreError::ParseError));
}

#[test]
fn from_entries_keeps_metadata() {
    let mut e = Entry::new("https://a.com".to_string(), at(1));
    e.metadata.used = 5;
    e.metadata.last_used = at(10);
    let links = Links::from_entries(vec![("kkkk".to_string(), e.clone())]).unwrap();
    assert_eq!(links.get("kkkk"), Some(&e));
    assert_eq!(links.find_by_link("https://a.com").unwrap(), &["kkkk".to_string()][..]);
}

#[test]
fn empty_store() {
    let links = Links::default();
    assert_eq!(links.len(), 0);
    assert_eq!(links.link_count(), 0);
    assert!(links.iter().is_empty());
    assert!(links.get("abcd").is_none());
}

#[test]
fn redirect_target_adds_scheme() {
    let mut links = Links::new();
    links.add_named("plain".to_string(), "example.com/x".to_string()).unwrap();
    links.add_named("https".to_string(), "https://example.com".to_string()).unwrap();
    links.add_named("http1".to_string(), "http://example.com".to_string()).unwrap();
    assert_eq!(links.redirect_target("plain").unwrap(), "http://example.com/x");
    assert_eq!(links.redirect_target("https").unwrap(), "https://example.com");
    assert_eq!(links.redirect_target("http1").unwrap(), "http://example.com");
    assert!(links.redirect_target("none").is_none());
}

#[test]
fn add_to_empty_store_takes_four_characters() {
    let mut links = Links::new();
    let (k, e) = links.add_with_code(&"wxyz12".to_string(), "https://e.com".to_string(), at(4)).unwrap();
    assert_eq!(k, "wxyz");
    assert_eq!(links.get("wxyz"), Some(&e));
    let (k2, _) = links.add_with_code(&"wxyz34".to_string(), "https://f.com".to_string(), at(5)).unwrap();
    assert_eq!(k2, "wxyz3");
    assert_eq!(links.get("wxyz").unwrap().link, "https://e.com");
}
