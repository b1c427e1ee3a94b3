use concurrent_queue::ConcurrentQueue;
use landmower::events::{drain_events, enqueue_access, LinkAccessEvent};
use landmower::links::{Links, StoreError};
use landmower::time::Timestamp;

#[test]
fn merge_counts_accesses() {
    let mut links = Links::new();
    let created = Timestamp::new(100, 0);
    links.add_named_at("k".to_string(), "https://x.com".to_string(), created).unwrap();
    let queue = ConcurrentQueue::unbounded();
    let t1 = Timestamp::new(200, 1);
    let t2 = Timestamp::new(200, 5);
    let t3 = Timestamp::new(300, 0);
    assert!(enqueue_access(&queue, "k".to_string(), t1));
    assert!(enqueue_access(&queue, "k".to_string(), t2));
    assert!(enqueue_access(&queue, "k".to_string(), t3));
    let merged = links.merge_pending(&queue);
    assert_eq!(merged.len(), 3);
    assert!(queue.is_empty());
    let e = links.get("k").unwrap();
    assert_eq!(e.metadata.used, 3);
    assert_eq!(e.metadata.last_used, t3);
    assert_eq!(e.metadata.created, created);
}

#[test]
fn merge_discards_removed_alias() {
    let mut links = Links::new();
    links.add_named_at("k".to_string(), "https://x.com".to_string(), Timestamp::new(1, 0)).unwrap();
    links.add_named_at("other".to_string(), "https://x.com".to_string(), Timestamp::new(1, 0)).unwrap();
    let queue = ConcurrentQueue::unbounded();
    assert!(enqueue_access(&queue, "k".to_string(), Timestamp::new(5, 0)));
    assert!(links.remove("k").is_some());
    let merged = links.merge_pending(&queue);
    assert_eq!(merged.len(), 1);
    assert!(links.get("k").is_none());
    assert_eq!(links.len(), 1);
    assert_eq!(links.get("other").unwrap().metadata.used, 0);
    assert_eq!(links.find_by_link("https://x.com").unwrap(), &["other".to_string()][..]);
}

#[test]
fn older_access_keeps_last_used() {
    let mut links = Links::new();
    links.add_named_at("k".to_string(), "https://x.com".to_string(), Timestamp::new(50, 0)).unwrap();
    let events = vec![
        LinkAccessEvent { key: "k".to_string(), timestamp: Timestamp::new(80, 0) },
        LinkAccessEvent { key: "k".to_string(), timestamp: Timestamp::new(60, 0) },
        LinkAccessEvent { key: "gone".to_string(), timestamp: Timestamp::new(90, 0) },
    ];
    assert_eq!(links.apply_events(&events), 2);
    let e = links.get("k").unwrap();
    assert_eq!(e.metadata.used, 2);
    assert_eq!(e.metadata.last_used, Timestamp::new(80, 0));
}

#[test]
fn use_count_saturates() {
    let mut links = Links::new();
    let mut e = landmower::links::Entry::new("https://x.com".to_string(), Timestamp::new(1, 0));
    e.metadata.used = u64::MAX;
    let mut links2 = Links::from_entries(vec![("k".to_string(), e)]).unwrap();
    assert!(links2.record_access("k", Timestamp::new(2, 0)));
    assert_eq!(links2.get("k").unwrap().metadata.used, u64::MAX);
    assert!(!links.record_access("k", Timestamp::new(2, 0)));
    assert_eq!(links.add_named("k".to_string(), "x".to_string()).is_ok(), true);
    assert_eq!(links.add_named("k".to_string(), "x".to_string()).err(), Some(StoreError::AliasInUse));
}

#[test]
fn drain_empty_queue() {
    let queue: ConcurrentQueue<LinkAccessEvent> = ConcurrentQueue::unbounded();
    assert!(drain_events(&queue).is_empty());
}

#[test]
fn timestamp_max() {
    let a = Timestamp::new(10, 5);
    let b = Timestamp::new(10, 7);
    let c = Timestamp::new(9, 999);
    assert_eq!(a.max(b), b);
    assert_eq!(b.max(a), b);
    assert_eq!(a.max(c), a);
    assert_eq!(a.max(a), a);
}

#[test]
fn enqueue_pushes_exactly_one_event() {
    let queue = ConcurrentQueue::unbounded();
    let at = Timestamp::new(42, 7);
    assert!(enqueue_access(&queue, "k".to_string(), at));
    assert_eq!(queue.len(), 1);
    assert_eq!(queue.pop().unwrap(), LinkAccessEvent::new("k".to_string(), at));
    assert!(queue.is_empty());
}

#[test]
fn enqueue_on_closed_queue_reports_failure() {
    let queue: ConcurrentQueue<LinkAccessEvent> = ConcurrentQueue::unbounded();
    queue.close();
    assert!(!enqueue_access(&queue, "k".to_string(), Timestamp::new(1, 0)));
}

#[test]
fn event_new_fields() {
    let e = LinkAccessEvent::new("abcd".to_string(), Timestamp::new(3, 4));
    assert_eq!(e.key, "abcd");
    assert_eq!(e.timestamp, Timestamp::new(3, 4));
}
