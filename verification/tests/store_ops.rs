use engram::store::{EventAction, Store};

const NOW: i64 = 1_700_000_000;

#[test]
fn test_add_and_get_memory() {
    let mut store = Store::new();

    let id = store.add_memory("test content", "global", NOW).expect("Failed to add memory");
    assert!(!id.is_empty());

    let memory = store.get_memory(&id);
    assert!(memory.is_some());

    let m = memory.unwrap();
    assert_eq!(m.content, "test content");
    assert_eq!(m.scope, "global");
    assert_eq!(m.generation, 0);
}

#[test]
fn test_tap_memory() {
    let mut store = Store::new();

    let id = store.add_memory("tap test", "global", NOW).expect("Failed to add memory");

    let m = store.get_memory(&id).unwrap();
    assert_eq!(m.tap_count, 0);

    let tapped = store.tap_memory(&id, NOW + 5);
    assert!(tapped);

    let m = store.get_memory(&id).unwrap();
    assert_eq!(m.tap_count, 1);
    assert!(m.last_tapped_at.is_some());
}

#[test]
fn test_remove_memory() {
    let mut store = Store::new();

    let id = store.add_memory("to remove", "global", NOW).expect("Failed to add memory");

    let removed = store.remove_memory(&id, NOW + 1);
    assert!(removed);

    let memory = store.get_memory(&id);
    assert!(memory.is_none());
}

#[test]
fn test_tap_missing_memory_appends_no_event() {
    let mut store = Store::new();
    let before = store.event_count();
    let tapped = store.tap_memory("no-such-id", NOW);
    assert!(!tapped);
    assert_eq!(store.event_count(), before);
}

#[test]
fn test_edit_memory_logs_old_and_new() {
    let mut store = Store::new();
    let id = store.add_memory("before", "global", NOW).unwrap();
    let edited = store.edit_memory(&id, "after", NOW + 1);
    assert!(edited);
    assert_eq!(store.get_memory(&id).unwrap().content, "after");

    let events = store.get_events(1, Some(EventAction::Edit), None);
    assert_eq!(events.len(), 1);
    let data = events[0].data.clone().unwrap();
    let v: serde_json::Value = serde_json::from_str(&data).unwrap();
    assert_eq!(v.get("old").unwrap().as_str().unwrap(), "before");
    assert_eq!(v.get("new").unwrap().as_str().unwrap(), "after");
}

#[test]
fn test_edit_missing_memory_is_noop() {
    let mut store = Store::new();
    let before = store.event_count();
    assert!(!store.edit_memory("absent", "new", NOW));
    assert_eq!(store.event_count(), before);
}

#[test]
fn test_add_payload_escapes_content() {
    let mut store = Store::new();
    let tricky = "say \"hi\" and a back\\slash";
    let id = store.add_memory(tricky, "glo\"bal", NOW).unwrap();

    let events = store.get_events(1, Some(EventAction::Add), Some(&id));
    assert_eq!(events.len(), 1);
    let data = events[0].data.clone().unwrap();
    let v: serde_json::Value = serde_json::from_str(&data).unwrap();
    assert_eq!(v.get("content").unwrap().as_str().unwrap(), tricky);
    assert_eq!(v.get("scope").unwrap().as_str().unwrap(), "glo\"bal");
}

#[test]
fn test_tap_by_match_taps_exactly_matching() {
    let mut store = Store::new();
    let a = store.add_memory("rust memory", "global", NOW).unwrap();
    let b = store.add_memory("python note", "global", NOW).unwrap();
    let c = store.add_memory("more rust tips", "global", NOW).unwrap();

    let before = store.event_count();
    let matched = store.tap_memories_by_match("rust", NOW + 10);
    assert_eq!(matched, vec![a.clone(), c.clone()]);

    assert_eq!(store.get_memory(&a).unwrap().tap_count, 1);
    assert_eq!(store.get_memory(&b).unwrap().tap_count, 0);
    assert_eq!(store.get_memory(&c).unwrap().tap_count, 1);

    // Exactly one TAP event per matched id.
    assert_eq!(store.event_count(), before + 2);
    let taps = store.get_events(10, Some(EventAction::Tap), None);
    assert_eq!(taps.len(), 2);
    assert_eq!(taps[0].memory_id.clone().unwrap(), c);
    assert_eq!(taps[1].memory_id.clone().unwrap(), a);
}

#[test]
fn test_tap_by_match_no_matches() {
    let mut store = Store::new();
    store.add_memory("alpha", "global", NOW).unwrap();
    let before = store.event_count();
    let matched = store.tap_memories_by_match("zulu", NOW);
    assert!(matched.is_empty());
    assert_eq!(store.event_count(), before);
}

#[test]
fn test_list_memories_filters() {
    let mut store = Store::new();
    let a = store.add_memory("one", "global", NOW).unwrap();
    let b = store.add_memory("two", "project:x", NOW + 1).unwrap();
    let c = store.add_memory("three", "global", NOW + 2).unwrap();

    let all = store.list_memories(None, None);
    assert_eq!(all.len(), 3);
    // Ordered by creation time descending.
    assert_eq!(all[0].id, c);
    assert_eq!(all[1].id, b);
    assert_eq!(all[2].id, a);

    let global = store.list_memories(Some("global"), None);
    assert_eq!(global.len(), 2);
    assert!(global.iter().all(|m| m.scope == "global"));

    let gen1 = store.list_memories(None, Some(1));
    assert_eq!(gen1.len(), 0);
}

#[test]
fn test_mark_reviewed_returns_old_counts_and_increments() {
    let mut store = Store::new();
    let a = store.add_memory("fact a", "global", NOW).unwrap();
    let b = store.add_memory("fact b", "project:p", NOW + 1).unwrap();

    let shown = store.get_memories_for_init(&[], NOW + 10);
    assert_eq!(shown.len(), 2);
    // Returned records carry the pre-review counters.
    assert!(shown.iter().all(|m| m.review_count == 0));

    assert_eq!(store.get_memory(&a).unwrap().review_count, 1);
    assert_eq!(store.get_memory(&a).unwrap().last_reviewed_at, Some(NOW + 10));
    assert_eq!(store.get_memory(&b).unwrap().review_count, 1);

    // One REVIEW event per shown memory.
    let reviews = store.get_events(10, Some(EventAction::Review), None);
    assert_eq!(reviews.len(), 2);

    let scoped = store.get_memories_for_init(&["project:p".to_string()], NOW + 20);
    assert_eq!(scoped.len(), 1);
    assert_eq!(scoped[0].id, b);
    assert_eq!(store.get_memory(&a).unwrap().review_count, 1);
    assert_eq!(store.get_memory(&b).unwrap().review_count, 2);
}

#[test]
fn test_mark_reviewed_orders_by_rank() {
    let mut store = Store::new();
    let low = store.add_memory("low", "global", NOW).unwrap();
    let high = store.add_memory("high", "global", NOW + 1).unwrap();
    store.tap_memory(&high, NOW + 2);
    store.tap_memory(&high, NOW + 3);

    let shown = store.get_memories_for_init(&[], NOW + 10);
    assert_eq!(shown.len(), 2);
    assert_eq!(shown[0].id, high);
    assert_eq!(shown[1].id, low);
}

#[test]
fn test_get_events_newest_first_with_limit() {
    let mut store = Store::new();
    let a = store.add_memory("one", "global", NOW).unwrap();
    store.tap_memory(&a, NOW + 1);
    store.tap_memory(&a, NOW + 2);

    let all = store.get_events(10, None, None);
    assert_eq!(all.len(), 3);
    assert!(all[0].id > all[1].id && all[1].id > all[2].id);
    assert_eq!(all[0].action, EventAction::Tap);
    assert_eq!(all[2].action, EventAction::Add);

    let limited = store.get_events(2, None, None);
    assert_eq!(limited.len(), 2);
    assert_eq!(limited[0].id, all[0].id);

    let by_memory = store.get_events(10, None, Some(&a));
    assert_eq!(by_memory.len(), 3);
}

#[test]
fn test_generate_id_is_hex() {
    let id = engram::ident::generate_id();
    assert!(id.len() >= 2);
    assert!(id.len() <= 32);
    assert!(id.chars().all(|c| c.is_ascii_hexdigit() && !c.is_ascii_uppercase()));
}

#[test]
fn test_now_timestamp_non_negative() {
    assert!(engram::ident::now_timestamp() >= 0);
}

#[test]
fn test_truncate_values() {
    assert_eq!(engram::text::truncate("short", 10), "short");
    assert_eq!(engram::text::truncate("exactly-10", 10), "exactly-10");
    assert_eq!(engram::text::truncate("a much longer string", 10), "a much ...");
}

#[test]
fn test_decimal_rendering() {
    assert_eq!(engram::digits::u64_to_dec(0), "0");
    assert_eq!(engram::digits::u64_to_dec(9041), "9041");
    assert_eq!(engram::digits::u64_hundredths(50), "0.50");
    assert_eq!(engram::digits::u64_hundredths(123), "1.23");
    assert_eq!(engram::digits::u64_hundredths(100), "1.00");
}

#[test]
fn test_tap_by_match_empty_pattern_taps_all() {
    let mut store = Store::new();
    let a = store.add_memory("alpha", "global", NOW).unwrap();
    let b = store.add_memory("beta", "global", NOW).unwrap();
    let matched = store.tap_memories_by_match("", NOW + 1);
    assert_eq!(matched, vec![a.clone(), b.clone()]);
    assert_eq!(store.get_memory(&a).unwrap().tap_count, 1);
    assert_eq!(store.get_memory(&b).unwrap().tap_count, 1);
}

#[test]
fn test_get_events_zero_limit() {
    let mut store = Store::new();
    store.add_memory("x", "global", NOW).unwrap();
    assert!(store.get_events(0, None, None).is_empty());
}

#[test]
fn test_gc_on_empty_store() {
    let mut store = Store::new();
    let result = store.run_gc(1, 20, 3, false, NOW);
    assert!(result.expired.is_empty());
    assert!(result.promoted.is_empty());
    assert_eq!(store.event_count(), 0);
}

#[test]
fn test_buffer_zero_window() {
    let mut buffer = engram::buffer::ConversationBuffer::new(0);
    buffer.push(engram::buffer::Message {
        timestamp: NOW,
        role: "user".to_string(),
        content: "only".to_string(),
    });
    assert_eq!(buffer.len(), 1);
    buffer.push(engram::buffer::Message {
        timestamp: NOW + 1,
        role: "user".to_string(),
        content: "replaced".to_string(),
    });
    assert_eq!(buffer.len(), 1);
    assert_eq!(buffer.get_all()[0].content, "replaced");
}
