use engram::flows::{extract_request_bodies, filter_flows_by_host, flows_after, Flow, Request};
use engram::store::Store;

fn flow(id: &str, host: &str, method: &str, path: &str, content: Option<&str>) -> Flow {
    Flow {
        id: id.to_string(),
        kind: "http".to_string(),
        request: Some(Request {
            method: method.to_string(),
            scheme: "https".to_string(),
            host: host.to_string(),
            port: 443,
            path: path.to_string(),
            headers: vec![],
            content: content.map(|c| c.to_string()),
        }),
        response: None,
    }
}

#[test]
fn test_filter_watched_flows() {
    let flows = vec![
        flow("1", "api.modelhub.test", "POST", "/v1/messages", Some(r#"{"model":"sonnet-large"}"#)),
        flow("2", "example.com", "GET", "/", None),
    ];

    let watched = filter_flows_by_host(&flows, &["modelhub.test".to_string()]);
    assert_eq!(watched.len(), 1);
    assert_eq!(watched[0].id, "1");
}

#[test]
fn test_extract_request_bodies() {
    let flows = vec![
        flow("1", "api.modelhub.test", "POST", "/v1/messages", Some(r#"{"model":"sonnet-large"}"#)),
        flow("2", "api.modelhub.test", "POST", "/v1/messages", None),
    ];

    let bodies = extract_request_bodies(&flows);
    assert_eq!(bodies.len(), 1);
    assert!(bodies[0].contains("sonnet-large"));
}

#[test]
fn test_flows_after_known_id() {
    let flows = vec![
        flow("a", "example.com", "GET", "/", None),
        flow("b", "example.com", "GET", "/", None),
        flow("c", "example.com", "GET", "/", None),
    ];
    let rest = flows_after(&flows, "a");
    assert_eq!(rest.len(), 2);
    assert_eq!(rest[0].id, "b");
    assert_eq!(rest[1].id, "c");

    let all = flows_after(&flows, "missing");
    assert_eq!(all.len(), 3);
}

const NOW: i64 = 1_700_000_000;

#[test]
fn test_hot_memories_counts_window_taps() {
    let mut store = Store::new();
    let q = store.add_memory("memory Q", "global", NOW - 7200).unwrap();
    store.tap_memory(&q, NOW - 200);
    store.tap_memory(&q, NOW - 100);

    let hot = store.get_hot_memories(3600, 10, NOW);
    assert_eq!(hot.len(), 1);
    assert_eq!(hot[0].id, q);
    assert_eq!(hot[0].recent_taps, 2);
    assert_eq!(hot[0].total_taps, 2);
}

#[test]
fn test_hot_memories_window_and_order() {
    let mut store = Store::new();
    let old = store.add_memory("old favourite", "global", NOW - 9000).unwrap();
    let fresh = store.add_memory("fresh find", "global", NOW - 9000).unwrap();
    // Taps outside the window count for nothing.
    store.tap_memory(&old, NOW - 8000);
    store.tap_memory(&old, NOW - 7000);
    // Inside the window: fresh twice, old once.
    store.tap_memory(&fresh, NOW - 30);
    store.tap_memory(&fresh, NOW - 20);
    store.tap_memory(&old, NOW - 10);

    let hot = store.get_hot_memories(3600, 10, NOW);
    assert_eq!(hot.len(), 2);
    assert_eq!(hot[0].id, fresh);
    assert_eq!(hot[0].recent_taps, 2);
    assert_eq!(hot[1].id, old);
    assert_eq!(hot[1].recent_taps, 1);
    assert_eq!(hot[1].total_taps, 3);

    let limited = store.get_hot_memories(3600, 1, NOW);
    assert_eq!(limited.len(), 1);
    assert_eq!(limited[0].id, fresh);
}
