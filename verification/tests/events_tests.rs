use window_state::events::LogEvent;
use window_state::events::LogEventPayload;

#[test]
fn payload_keeps_its_parts() {
    let p = LogEventPayload::new(
        "id-1".to_owned(),
        "ready".to_owned(),
        "info".to_owned(),
        "2024-01-01T00:00:00Z".to_owned(),
        "startup".to_owned(),
        None,
    );
    assert_eq!(p.id, "id-1");
    assert_eq!(p.message, "ready");
    assert_eq!(p.level, "info");
    assert_eq!(p.timestamp, "2024-01-01T00:00:00Z");
    assert_eq!(p.source, "startup");
    assert_eq!(p.details, None);
}

#[test]
fn event_wraps_payload() {
    let p = LogEventPayload::new(
        "id-2".to_owned(),
        "resized".to_owned(),
        "debug".to_owned(),
        "2024-01-01T00:00:01Z".to_owned(),
        "window".to_owned(),
        Some("1200x800".to_owned()),
    );
    let e = LogEvent(p.clone());
    assert_eq!(e.0.message, p.message);
    assert_eq!(e.0.details, Some("1200x800".to_owned()));
}
