use lifecycle::operation::Events;

#[test]
fn stages_are_logged_with_their_span_and_before_its_close() {
    let mut events = Events::new();
    events.on_event(Some("simplex.voter.notify"), Some("operation_completed"));
    events.on_event(None, Some("operation_abandoned"));
    events.on_event(Some("simplex.voter.notify"), None);
    events.on_close("simplex.voter.notify");
    assert_eq!(
        *events.rows(),
        [
            ("simplex.voter.notify".to_string(), "operation_completed".to_string()),
            ("unbound".to_string(), "operation_abandoned".to_string()),
            ("simplex.voter.notify".to_string(), "closed".to_string()),
        ]
    );
}
