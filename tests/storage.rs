use event_store::app_error::AppError;
use event_store::event::Event;
use event_store::handlers::{get_events, post_event, QueryParams};
use event_store::in_memory_storage::InMemoryStorage;
use event_store::query::{collect_window, first_at_or_after};
use event_store::storage::{RetrieveError, StoreError};
use serde_json::Value;

fn payload(user_id: u64, ip: &str) -> Value {
    let mut map = serde_json::Map::new();
    map.insert("user_id".to_string(), Value::from(user_id));
    map.insert("ip".to_string(), Value::from(ip));
    Value::Object(map)
}

fn event(event_type: &str, timestamp: u64, ip: &str) -> Event {
    Event {
        event_type: event_type.to_string(),
        timestamp,
        payload: payload(123, ip),
    }
}

#[test]
fn test_filtering() {
    let event_1 = event("login", 4, "127.0.0.4");
    let event_2 = event("login", 5, "127.0.0.5");
    let event_3 = event("foo", 6, "127.0.0.6");
    let mut store = InMemoryStorage::new();

    store.store(event_1.clone()).unwrap();
    store.store(event_2.clone()).unwrap();
    store.store(event_3.clone()).unwrap();

    assert_eq!(
        store.get_events(None, None, None).unwrap(),
        vec![event_1.clone(), event_2.clone(), event_3.clone()]
    );
    assert_eq!(
        store.get_events(None, Some(5), None).unwrap(),
        vec![event_2.clone(), event_3.clone()]
    );
    assert_eq!(
        store.get_events(None, None, Some(5)).unwrap(),
        vec![event_1.clone(), event_2.clone()]
    );
    assert_eq!(
        store.get_events(Some("login"), None, None).unwrap(),
        vec![event_1.clone(), event_2.clone()]
    );
    assert_eq!(
        store.get_events(Some("login"), Some(5), None).unwrap(),
        vec![event_2.clone()]
    );
    assert_eq!(
        store.get_events(Some("login"), None, Some(5)).unwrap(),
        vec![event_1.clone(), event_2.clone()]
    );
    assert_eq!(
        store.get_events(Some("login"), Some(5), Some(5)).unwrap(),
        vec![event_2.clone()]
    );
}

#[test]
fn stored_event_comes_back_once() {
    let mut store = InMemoryStorage::new();
    let first = event("a", 10, "1");
    let second = event("b", 3, "2");
    store.store(first.clone()).unwrap();
    store.store(second.clone()).unwrap();
    let all = store.get_events(None, None, None).unwrap();
    assert_eq!(all, vec![second.clone(), first.clone()]);
    assert_eq!(all.iter().filter(|e| **e == second).count(), 1);
    assert_eq!(store.len(), 2);
}

#[test]
fn out_of_order_inserts_come_back_by_timestamp() {
    let mut store = InMemoryStorage::new();
    let late = event("x", 9, "9");
    let early = event("x", 1, "1");
    let middle = event("y", 5, "5");
    store.store(late.clone()).unwrap();
    store.store(early.clone()).unwrap();
    store.store(middle.clone()).unwrap();
    assert_eq!(
        store.get_events(None, None, None).unwrap(),
        vec![early.clone(), middle.clone(), late.clone()]
    );
    assert_eq!(
        store.get_events(Some("x"), None, None).unwrap(),
        vec![early, late]
    );
}

#[test]
fn equal_timestamps_keep_insertion_order() {
    let mut store = InMemoryStorage::new();
    let e1 = event("t", 7, "first");
    let e2 = event("t", 7, "second");
    store.store(e1.clone()).unwrap();
    store.store(e2.clone()).unwrap();
    assert_eq!(
        store.get_events(None, None, None).unwrap(),
        vec![e1.clone(), e2.clone()]
    );
    assert_eq!(
        store.get_events(Some("t"), Some(7), Some(7)).unwrap(),
        vec![e1, e2]
    );
}

#[test]
fn unknown_type_gives_empty_result() {
    let mut store = InMemoryStorage::new();
    store.store(event("login", 1, "1")).unwrap();
    assert_eq!(store.get_events(Some("logout"), None, None).unwrap(), vec![]);
    let empty = InMemoryStorage::new();
    assert_eq!(empty.get_events(Some("login"), None, None).unwrap(), vec![]);
    assert_eq!(empty.get_events(None, None, None).unwrap(), vec![]);
}

#[test]
fn inverted_range_gives_empty_result() {
    let mut store = InMemoryStorage::new();
    store.store(event("login", 5, "1")).unwrap();
    store.store(event("login", 6, "2")).unwrap();
    assert_eq!(store.get_events(None, Some(6), Some(5)).unwrap(), vec![]);
    assert_eq!(store.get_events(Some("login"), Some(6), Some(5)).unwrap(), vec![]);
}

#[test]
fn size_cap_allows_exactly_the_maximum() {
    let mut store = InMemoryStorage::new();
    let events: Vec<Event> = (0..4).map(|i| event("k", i, "x")).collect();
    for e in &events {
        store.store(e.clone()).unwrap();
    }
    assert_eq!(store.get_events(None, None, None).unwrap(), events);
    assert_eq!(store.get_events(Some("k"), None, None).unwrap(), events);
}

#[test]
fn size_cap_rejects_one_more() {
    let mut store = InMemoryStorage::new();
    for i in 0..5 {
        store.store(event("k", i, "x")).unwrap();
    }
    store.store(event("other", 100, "x")).unwrap();
    assert!(matches!(
        store.get_events(None, None, None),
        Err(RetrieveError::ResultTooLarge(4))
    ));
    assert!(matches!(
        store.get_events(Some("k"), None, None),
        Err(RetrieveError::ResultTooLarge(4))
    ));
    assert_eq!(store.get_events(None, Some(1), Some(4)).unwrap().len(), 4);
    assert_eq!(
        store.get_events(None, Some(50), None).unwrap(),
        vec![event("other", 100, "x")]
    );
}

#[test]
fn rejected_type_changes_nothing() {
    let mut store = InMemoryStorage::new();
    let kept = event("login", 1, "1");
    store.store(kept.clone()).unwrap();
    let before = store.get_events(None, None, None).unwrap();
    let result = store.store(event("winter wrap up", 2, "2"));
    match result {
        Err(StoreError::InvalidEventType(t)) => assert_eq!(t, "winter wrap up"),
        Ok(()) => panic!("the type should be rejected"),
    }
    assert_eq!(store.get_events(None, None, None).unwrap(), before);
    assert_eq!(store.get_events(Some("winter wrap up"), None, None).unwrap(), vec![]);
    assert_eq!(store.len(), 1);
}

#[test]
fn event_clone_is_equal() {
    let e = event("c", 3, "127.0.0.1");
    let copy = e.clone();
    assert_eq!(copy, e);
    assert_eq!(copy.payload["ip"], Value::from("127.0.0.1"));
}

#[test]
fn error_codes_are_stable() {
    assert_eq!(
        AppError::InvalidEventType("x".to_string()).error_code(),
        "INVALID_EVENT_TYPE"
    );
    assert_eq!(AppError::ResultTooLarge(4).error_code(), "RESULT_TOO_LARGE");
    match AppError::from(StoreError::InvalidEventType("y".to_string())) {
        AppError::InvalidEventType(t) => assert_eq!(t, "y"),
        other => panic!("unexpected {:?}", other),
    }
    match AppError::from(RetrieveError::ResultTooLarge(4)) {
        AppError::ResultTooLarge(n) => assert_eq!(n, 4),
        other => panic!("unexpected {:?}", other),
    }
}

#[test]
fn handlers_store_and_query() {
    let mut store = InMemoryStorage::new();
    let e = event("test", 42, "1");
    post_event(&mut store, e.clone()).unwrap();
    match post_event(&mut store, event("winter wrap up", 1, "1")) {
        Err(AppError::InvalidEventType(t)) => assert_eq!(t, "winter wrap up"),
        other => panic!("unexpected {:?}", other),
    }
    let params = QueryParams {
        event_type: Some("test".to_string()),
        start: Some(40),
        end: None,
    };
    assert_eq!(get_events(&store, &params).unwrap(), vec![e.clone()]);
    let none = QueryParams {
        event_type: None,
        start: None,
        end: Some(41),
    };
    assert_eq!(get_events(&store, &none).unwrap(), vec![]);
    for i in 0..5 {
        post_event(&mut store, event("test", i, "x")).unwrap();
    }
    let all = QueryParams {
        event_type: None,
        start: None,
        end: None,
    };
    match get_events(&store, &all) {
        Err(AppError::ResultTooLarge(n)) => assert_eq!(n, 4),
        other => panic!("unexpected {:?}", other),
    }
}

#[test]
fn seek_finds_first_timestamp_at_or_after_start() {
    let log = vec![
        event("a", 2, "0"),
        event("a", 4, "1"),
        event("a", 4, "2"),
        event("a", 9, "3"),
    ];
    let ids: Vec<usize> = vec![0, 1, 2, 3];
    assert_eq!(first_at_or_after(&log, &ids, 0), 0);
    assert_eq!(first_at_or_after(&log, &ids, 3), 1);
    assert_eq!(first_at_or_after(&log, &ids, 4), 1);
    assert_eq!(first_at_or_after(&log, &ids, 5), 3);
    assert_eq!(first_at_or_after(&log, &ids, 10), 4);
    assert_eq!(first_at_or_after(&log, &Vec::new(), 1), 0);
}

#[test]
fn window_scan_stops_at_bounds() {
    let log = vec![
        event("a", 1, "0"),
        event("a", 3, "1"),
        event("a", 5, "2"),
        event("a", 7, "3"),
    ];
    let ids: Vec<usize> = vec![0, 1, 2, 3];
    assert_eq!(
        collect_window(&log, &ids, Some(2), Some(6)).unwrap(),
        vec![log[1].clone(), log[2].clone()]
    );
    assert_eq!(collect_window(&log, &ids, Some(8), None).unwrap(), vec![]);
    assert_eq!(collect_window(&log, &ids, None, Some(0)).unwrap(), vec![]);
}
