use engram::store::Store;

const NOW: i64 = 1_700_000_000;

#[test]
fn test_stats_counts() {
    let mut store = Store::new();
    let a = store.add_memory("one", "global", NOW).unwrap();
    let b = store.add_memory("two", "global", NOW).unwrap();
    store.add_memory("three", "project:x", NOW).unwrap();
    store.tap_memory(&a, NOW + 1);
    store.tap_memory(&a, NOW + 2);
    store.tap_memory(&b, NOW + 3);

    let stats = store.get_stats();
    assert_eq!(stats.total, 3);
    assert_eq!(stats.by_generation, [3, 0, 0]);
    assert_eq!(stats.total_taps, 3);
    assert_eq!(stats.never_tapped, 1);

    assert_eq!(stats.scopes.len(), 2);
    assert_eq!(stats.scopes[0], ("global".to_string(), 2));
    assert_eq!(stats.scopes[1], ("project:x".to_string(), 1));
}

#[test]
fn test_stats_empty_store() {
    let store = Store::new();
    let stats = store.get_stats();
    assert_eq!(stats.total, 0);
    assert_eq!(stats.by_generation, [0, 0, 0]);
    assert_eq!(stats.total_taps, 0);
    assert_eq!(stats.never_tapped, 0);
    assert!(stats.scopes.is_empty());
}

#[test]
fn test_activity_groups_by_day() {
    let mut store = Store::new();
    let day = 86400;
    // Two adds yesterday, one add and one tap today (relative to NOW).
    let id_old = store.add_memory("yesterday one", "global", NOW - day).unwrap();
    store.add_memory("yesterday two", "global", NOW - day + 10).unwrap();
    store.add_memory("today", "global", NOW - 30).unwrap();
    store.tap_memory(&id_old, NOW - 20);

    let report = store.get_activity_by_day(7, NOW);
    assert_eq!(report.len(), 2);
    // Most recent day first.
    assert!(report[0].period > report[1].period);
    assert_eq!(report[0].adds, 1);
    assert_eq!(report[0].taps, 1);
    assert_eq!(report[1].adds, 2);
    assert_eq!(report[1].taps, 0);
    assert_eq!(report[0].removes, 0);
    assert_eq!(report[0].reviews, 0);
    // Period strings look like calendar dates.
    assert_eq!(report[0].period.len(), 10);
    assert_eq!(&report[0].period[4..5], "-");
}

#[test]
fn test_activity_window_excludes_old_events() {
    let mut store = Store::new();
    store.add_memory("ancient", "global", NOW - 10 * 86400).unwrap();
    store.add_memory("recent", "global", NOW - 100).unwrap();

    let report = store.get_activity_by_day(7, NOW);
    assert_eq!(report.len(), 1);
    assert_eq!(report[0].adds, 1);
}

#[test]
fn test_activity_with_fixed_offset() {
    let mut store = Store::new();
    // 2023-11-14 22:13:20 UTC.
    store.add_memory("one", "global", 1_700_000_000).unwrap();

    let report = store.activity_by_day_with_offset(7, 1_700_000_000, 0);
    assert_eq!(report.len(), 1);
    assert_eq!(report[0].period, "2023-11-14");
    assert_eq!(report[0].adds, 1);

    // Two hours east of UTC the same moment falls past midnight.
    let shifted = store.activity_by_day_with_offset(7, 1_700_000_000, 7200);
    assert_eq!(shifted.len(), 1);
    assert_eq!(shifted[0].period, "2023-11-15");
}
