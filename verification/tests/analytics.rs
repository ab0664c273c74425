use dns_blocker::analytics::{batch_has_room, midnight_ts, QueryRecord, MAX_BATCH};

#[test]
fn midnight_rounds_down_to_the_day() {
    assert_eq!(midnight_ts(0), 0);
    assert_eq!(midnight_ts(86399), 0);
    assert_eq!(midnight_ts(86400), 86400);
    assert_eq!(midnight_ts(1_700_000_000), 1_699_920_000);
    assert_eq!(midnight_ts(-5), 0);
    assert_eq!(midnight_ts(-86401), -86400);
}

#[test]
fn query_record_stores_blocked_as_integer() {
    let r = QueryRecord::new(12, "a.example".to_string(), true);
    assert_eq!((r.ts, r.domain.as_str(), r.blocked), (12, "a.example", 1));
    let r = QueryRecord::new(13, "b.example".to_string(), false);
    assert_eq!(r.blocked, 0);
}

#[test]
fn batches_hold_at_most_two_hundred() {
    assert_eq!(MAX_BATCH, 200);
    assert!(batch_has_room(0));
    assert!(batch_has_room(199));
    assert!(!batch_has_room(200));
}
