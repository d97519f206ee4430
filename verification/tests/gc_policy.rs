use engram::store::{EventAction, Memory, Store};

const NOW: i64 = 1_700_000_000;

// Thresholds used by the scenarios: at least one review for candidacy, a
// ratio floor of 0.20, promotion at three taps.
const MIN_REVIEWS: u32 = 1;
const MIN_RATIO_H: u32 = 20;
const PROMOTE: u32 = 3;

#[test]
fn test_gc_keeps_engaged_memory() {
    // Reviewed twice, tapped once: ratio 0.5 stays above 0.2, one tap stays
    // below the promotion threshold, so nothing changes.
    let mut store = Store::new();
    let m = store.add_memory("memory M", "global", NOW).unwrap();
    store.get_memories_for_init(&[], NOW + 1);
    store.get_memories_for_init(&[], NOW + 2);
    store.tap_memory(&m, NOW + 3);

    let result = store.run_gc(MIN_REVIEWS, MIN_RATIO_H, PROMOTE, false, NOW + 10);
    assert!(result.expired.is_empty());
    assert!(result.promoted.is_empty());
    let got = store.get_memory(&m).unwrap();
    assert_eq!(got.generation, 0);
    assert_eq!(got.tap_count, 1);
    assert_eq!(got.review_count, 2);
}

#[test]
fn test_gc_expires_unused_memory() {
    // Reviewed five times, never tapped: ratio 0.0 falls below 0.2, so the
    // record is deleted and an EXPIRE event references it.
    let mut store = Store::new();
    let n = store.add_memory("memory N", "global", NOW).unwrap();
    for k in 0..5 {
        store.get_memories_for_init(&[], NOW + 1 + k);
    }

    let result = store.run_gc(MIN_REVIEWS, MIN_RATIO_H, PROMOTE, false, NOW + 10);
    assert_eq!(result.expired.len(), 1);
    assert_eq!(result.expired[0].0, n);
    assert!(result.promoted.is_empty());
    assert!(store.get_memory(&n).is_none());

    let expire_events = store.get_events(10, Some(EventAction::Expire), Some(&n));
    assert_eq!(expire_events.len(), 1);
    let data = expire_events[0].data.clone().unwrap();
    let v: serde_json::Value = serde_json::from_str(&data).unwrap();
    assert_eq!(v.get("reason").unwrap().as_str().unwrap(), "low_engagement");
}

#[test]
fn test_gc_promotes_tapped_memory() {
    // Tapped three times, reviewed once: ratio 3.0 holds up and the tap
    // count reaches the threshold, so the record rises to generation 1.
    let mut store = Store::new();
    let p = store.add_memory("memory P", "global", NOW).unwrap();
    store.tap_memory(&p, NOW + 1);
    store.tap_memory(&p, NOW + 2);
    store.tap_memory(&p, NOW + 3);
    store.get_memories_for_init(&[], NOW + 4);

    let result = store.run_gc(MIN_REVIEWS, MIN_RATIO_H, PROMOTE, false, NOW + 10);
    assert!(result.expired.is_empty());
    assert_eq!(result.promoted.len(), 1);
    assert_eq!(result.promoted[0].0, p);
    assert_eq!(store.get_memory(&p).unwrap().generation, 1);

    let promote_events = store.get_events(10, Some(EventAction::Promote), Some(&p));
    assert_eq!(promote_events.len(), 1);
    assert_eq!(promote_events[0].data.clone().unwrap(), "{\"from\":0,\"to\":1}");
}

#[test]
fn test_gc_promotes_generation_one_to_two() {
    // A generation-1 record whose tap count reaches twice the threshold
    // rises to generation 2.
    let mut store = Store::new();
    store.memories.push(Memory {
        id: "gen1".to_string(),
        content: "memory D".to_string(),
        scope: "global".to_string(),
        generation: 1,
        tap_count: 2 * PROMOTE,
        review_count: 1,
        last_tapped_at: Some(NOW),
        last_reviewed_at: Some(NOW),
        created_at: NOW,
    });

    let result = store.run_gc(MIN_REVIEWS, MIN_RATIO_H, PROMOTE, false, NOW + 10);
    assert!(result.expired.is_empty());
    assert_eq!(result.promoted.len(), 1);
    assert_eq!(result.promoted[0].0, "gen1");
    assert_eq!(store.get_memory("gen1").unwrap().generation, 2);

    let promote_events = store.get_events(10, Some(EventAction::Promote), Some("gen1"));
    assert_eq!(promote_events.len(), 1);
    assert_eq!(promote_events[0].data.clone().unwrap(), "{\"from\":1,\"to\":2}");
}

#[test]
fn test_gc_dry_run_changes_nothing_and_predicts() {
    let mut store = Store::new();
    let doomed = store.add_memory("never tapped", "global", NOW).unwrap();
    let riser = store.add_memory("much tapped", "global", NOW).unwrap();
    for k in 0..5 {
        store.get_memories_for_init(&[], NOW + 1 + k);
    }
    store.tap_memory(&riser, NOW + 6);
    store.tap_memory(&riser, NOW + 7);
    store.tap_memory(&riser, NOW + 8);

    let events_before = store.event_count();
    let preview = store.run_gc(MIN_REVIEWS, MIN_RATIO_H, PROMOTE, true, NOW + 10);

    // Nothing changed: no deletions, no counter movement, no events.
    assert_eq!(store.event_count(), events_before);
    assert!(store.get_memory(&doomed).is_some());
    assert_eq!(store.get_memory(&doomed).unwrap().generation, 0);
    assert_eq!(store.get_memory(&riser).unwrap().generation, 0);

    // A live pass applies exactly what the preview reported.
    let applied = store.run_gc(MIN_REVIEWS, MIN_RATIO_H, PROMOTE, false, NOW + 20);
    let pick = |v: &Vec<(String, String, u32, u32)>| {
        v.iter().map(|t| t.0.clone()).collect::<Vec<_>>()
    };
    assert_eq!(pick(&preview.expired), pick(&applied.expired));
    assert_eq!(pick(&preview.promoted), pick(&applied.promoted));
    assert!(store.get_memory(&doomed).is_none());
    assert_eq!(store.get_memory(&riser).unwrap().generation, 1);
}

#[test]
fn test_gc_expire_payload_ratio_rendering() {
    // One tap over five reviews: ratio 0.2 exactly would survive a 0.2
    // floor, so use a higher floor and check the rendered ratio.
    let mut store = Store::new();
    let m = store.add_memory("barely used", "global", NOW).unwrap();
    for k in 0..5 {
        store.get_memories_for_init(&[], NOW + 1 + k);
    }
    store.tap_memory(&m, NOW + 6);

    let result = store.run_gc(1, 50, PROMOTE, false, NOW + 10);
    assert_eq!(result.expired.len(), 1);
    let expire_events = store.get_events(10, Some(EventAction::Expire), Some(&m));
    let data = expire_events[0].data.clone().unwrap();
    let v: serde_json::Value = serde_json::from_str(&data).unwrap();
    assert_eq!(v.get("ratio").unwrap().as_f64().unwrap(), 0.2);
}
