use engram::store::{EventAction, Store};

const NOW: i64 = 1_700_000_000;

#[test]
fn test_enriched_event_tap_lookup() {
    let mut store = Store::new();

    let id = store.add_memory("Test memory content", "global", NOW).unwrap();
    store.tap_memory(&id, NOW + 1);

    let events = store.get_enriched_events(10, None, None, true);

    assert_eq!(events.len(), 2);
    let tap_event = events.iter().find(|e| e.action == EventAction::Tap).unwrap();
    assert_eq!(tap_event.content, "Test memory content");
    assert_eq!(tap_event.memory_id, Some(id));
}

#[test]
fn test_multiple_taps_same_memory() {
    let mut store = Store::new();

    let id = store.add_memory("Memory to tap", "global", NOW).unwrap();
    store.tap_memory(&id, NOW + 1);
    store.tap_memory(&id, NOW + 2);
    store.tap_memory(&id, NOW + 3);

    let events = store.get_enriched_events(100, None, None, true);

    assert_eq!(events.len(), 4);
    let tap_count = events.iter().filter(|e| e.action == EventAction::Tap).count();
    assert_eq!(tap_count, 3);

    let tap_events: Vec<_> = events.iter().filter(|e| e.action == EventAction::Tap).collect();
    assert!(tap_events.iter().all(|e| e.content == "Memory to tap"));
}

#[test]
fn test_enriched_add_event_extracts_content() {
    let mut store = Store::new();
    store.add_memory("Test content", "global", NOW).unwrap();

    let events = store.get_enriched_events(100, Some(EventAction::Add), None, true);
    assert_eq!(events.len(), 1);
    assert_eq!(events[0].content, "Test content");
}

#[test]
fn test_enriched_edit_event_shows_new_content() {
    let mut store = Store::new();
    let id = store.add_memory("first", "global", NOW).unwrap();
    store.edit_memory(&id, "second", NOW + 1);

    let events = store.get_enriched_events(100, Some(EventAction::Edit), None, true);
    assert_eq!(events.len(), 1);
    assert_eq!(events[0].content, "second");
}

#[test]
fn test_enriched_filters_promoted_taps() {
    let mut store = Store::new();
    let id = store.add_memory("promoted fact", "global", NOW).unwrap();
    store.tap_memory(&id, NOW + 1);
    store.tap_memory(&id, NOW + 2);
    store.tap_memory(&id, NOW + 3);
    store.get_memories_for_init(&[], NOW + 4);
    store.run_gc(1, 20, 3, false, NOW + 5);
    assert_eq!(store.get_memory(&id).unwrap().generation, 1);

    let with_taps = store.get_enriched_events(100, Some(EventAction::Tap), None, true);
    assert_eq!(with_taps.len(), 3);

    let without = store.get_enriched_events(100, Some(EventAction::Tap), None, false);
    assert_eq!(without.len(), 0);
}

#[test]
fn test_enriched_tap_of_removed_memory() {
    let mut store = Store::new();
    let id = store.add_memory("fleeting", "global", NOW).unwrap();
    store.tap_memory(&id, NOW + 1);
    store.remove_memory(&id, NOW + 2);

    let events = store.get_enriched_events(100, Some(EventAction::Tap), None, true);
    assert_eq!(events.len(), 1);
    assert_eq!(events[0].content, "(memory not found)");
}

#[test]
fn test_enriched_remove_event_has_placeholder() {
    let mut store = Store::new();
    let id = store.add_memory("gone soon", "global", NOW).unwrap();
    store.remove_memory(&id, NOW + 1);

    let events = store.get_enriched_events(100, Some(EventAction::Remove), None, true);
    assert_eq!(events.len(), 1);
    assert_eq!(events[0].content, "(none)");
}

#[test]
fn test_extract_content_falls_back_to_raw() {
    let raw = "not json at all";
    assert_eq!(engram::enrich::extract_content(EventAction::Add, raw), raw);
    let missing = "{\"other\":1}";
    assert_eq!(engram::enrich::extract_content(EventAction::Add, missing), missing);
    assert_eq!(
        engram::enrich::extract_content(EventAction::Add, "{\"content\":\"x\"}"),
        "x"
    );
    assert_eq!(
        engram::enrich::extract_content(EventAction::Edit, "{\"old\":\"a\",\"new\":\"b\"}"),
        "b"
    );
}
