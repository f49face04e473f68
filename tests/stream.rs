use kids_ai::stream::{is_done_marker, StreamAccumulator, StreamStep};

#[test]
fn done_marker_stops() {
    let mut acc = StreamAccumulator::new();
    assert!(matches!(acc.feed("[DONE]"), StreamStep::Stop));
    assert!(is_done_marker("[DONE]"));
    assert!(!is_done_marker("[DONE"));
}

#[test]
fn content_tokens_are_gathered() {
    let mut acc = StreamAccumulator::new();
    let e1 = r#"{"choices":[{"delta":{"content":"Hel"}}]}"#;
    let e2 = r#"{"choices":[{"delta":{"content":"lo"}}]}"#;
    match acc.feed(e1) {
        StreamStep::Token(t) => assert_eq!(t, "Hel"),
        _ => panic!("expected a token"),
    }
    match acc.feed(e2) {
        StreamStep::Token(t) => assert_eq!(t, "lo"),
        _ => panic!("expected a token"),
    }
    assert_eq!(acc.full_text(), "Hello");
}

#[test]
fn malformed_and_empty_events_are_skipped() {
    let mut acc = StreamAccumulator::new();
    assert!(matches!(acc.feed("not json"), StreamStep::Skip));
    assert!(matches!(acc.feed(r#"{"choices":[{"delta":{"content":""}}]}"#), StreamStep::Skip));
    assert!(matches!(acc.feed(r#"{"choices":[{"delta":{}}]}"#), StreamStep::Skip));
    assert!(matches!(acc.feed(r#"{"choices":[{"delta":{"content":5}}]}"#), StreamStep::Skip));
    assert_eq!(acc.full_text(), "");
}

#[test]
fn accept_delta_appends_non_empty_text() {
    let mut acc = StreamAccumulator::new();
    assert!(matches!(acc.accept_delta(None), StreamStep::Skip));
    assert!(matches!(acc.accept_delta(Some(String::new())), StreamStep::Skip));
    assert!(matches!(acc.accept_delta(Some("x".to_string())), StreamStep::Token(_)));
    assert_eq!(acc.full_text(), "x");
}
