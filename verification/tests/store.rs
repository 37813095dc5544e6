use transafe_server::storage::{CollectedItems, LogItem, Storage};

fn entry(data: &str) -> LogItem {
    LogItem::new("10.0.0.1", data)
}

fn data_of(items: &[LogItem]) -> Vec<String> {
    items.iter().map(|i| i.data.clone()).collect()
}

#[test]
fn log_item_keeps_origin_and_payload() {
    let item = LogItem::new("192.168.0.7", "cGF5bG9hZA==");
    assert_eq!(item.ip, "192.168.0.7");
    assert_eq!(item.data, "cGF5bG9hZA==");
}

#[test]
fn fresh_buffer_is_all_sentinels() {
    let ring = CollectedItems::new(3);
    let all = ring.get_all();
    assert_eq!(all.len(), 3);
    for item in &all {
        assert_eq!(item.ip, "");
        assert_eq!(item.time, "");
        assert_eq!(item.data, "");
    }
}

#[test]
fn capacity_pushes_fill_oldest_first() {
    let mut ring = CollectedItems::new(3);
    ring.push(entry("A"));
    ring.push(entry("B"));
    ring.push(entry("C"));
    let all = ring.get_all();
    assert_eq!(data_of(&all), vec!["A", "B", "C"]);
    assert!(all.iter().all(|i| !i.data.is_empty()));
}

#[test]
fn extra_push_evicts_the_oldest() {
    let mut ring = CollectedItems::new(3);
    for d in ["A", "B", "C", "D"] {
        ring.push(entry(d));
    }
    let all = ring.get_all();
    assert_eq!(data_of(&all), vec!["B", "C", "D"]);
    assert!(!data_of(&all).contains(&"A".to_string()));
}

#[test]
fn first_push_lands_last_among_sentinels() {
    let mut ring = CollectedItems::new(3);
    ring.push(entry("only"));
    let all = ring.get_all();
    assert_eq!(data_of(&all), vec!["", "", "only"]);
}

#[test]
fn get_returns_most_recent() {
    let mut ring = CollectedItems::new(2);
    ring.push(entry("first"));
    ring.push(entry("second"));
    assert_eq!(ring.get().data, "second");
}

#[test]
fn store_unknown_identity_has_no_data() {
    let store = Storage::new(3);
    assert!(store.get_all("bob").is_none());
    assert!(store.get("bob").is_none());
}

#[test]
fn store_first_push_is_last_in_snapshot() {
    let mut store = Storage::new(3);
    store.push("carol", entry("X")).unwrap();
    let all = store.get_all("carol").unwrap();
    assert_eq!(all.len(), 3);
    assert_eq!(all[2].data, "X");
    assert_eq!(all[0].data, "");
    assert_eq!(all[1].data, "");
}

#[test]
fn store_alice_scenario() {
    let mut store = Storage::new(3);
    for d in ["A", "B", "C", "D"] {
        store.push("alice", entry(d)).unwrap();
    }
    let all = store.get_all("alice").unwrap();
    let data = data_of(&all);
    assert_eq!(data, vec!["B", "C", "D"]);
    assert!(!data.contains(&"A".to_string()));
    assert_eq!(data.last().unwrap(), "D");
}

#[test]
fn store_identities_are_independent() {
    let mut store = Storage::new(2);
    store.push("alice", entry("for alice")).unwrap();
    store.push("bob", entry("for bob")).unwrap();
    assert_eq!(store.get("alice").unwrap().data, "for alice");
    assert_eq!(store.get("bob").unwrap().data, "for bob");
}

#[test]
fn store_get_returns_latest() {
    let mut store = Storage::new(4);
    store.push("dave", entry("one")).unwrap();
    store.push("dave", entry("two")).unwrap();
    assert_eq!(store.get("dave").unwrap().data, "two");
}

#[test]
fn erase_forgets_every_identity() {
    let mut store = Storage::new(2);
    store.push("alice", entry("A")).unwrap();
    store.push("bob", entry("B")).unwrap();
    store.erase();
    assert!(store.get_all("alice").is_none());
    assert!(store.get_all("bob").is_none());
}
