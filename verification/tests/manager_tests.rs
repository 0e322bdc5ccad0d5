use window_state::codec::encode_state;
use window_state::codec::parse_state;
use window_state::manager::apply_decision;
use window_state::manager::close_decision;
use window_state::manager::CloseAction;
use window_state::manager::debounce_delay_ms;
use window_state::manager::event_response;
use window_state::manager::restore_decision;
use window_state::manager::store_file_name;
use window_state::manager::Debouncer;
use window_state::manager::EventResponse;
use window_state::manager::WindowAction;
use window_state::manager::WindowEventKind;
use window_state::state::WindowState;

fn rec(width: u32, height: u32, x: i32, y: i32, maximized: bool) -> WindowState {
    WindowState::from_geometry(width, height, x, y, maximized)
}

#[test]
fn valid_record_round_trips_and_is_applied_verbatim() {
    let s = rec(1200, 800, 100, 100, false);
    assert!(s.is_valid());
    let reloaded = parse_state(&encode_state(&s)).unwrap();
    assert_eq!(reloaded, s);
    assert_eq!(
        restore_decision(Some(reloaded)),
        WindowAction::SetGeometry { width: 1200, height: 800, x: 100, y: 100 }
    );
}

#[test]
fn invalid_record_falls_back_to_default_geometry() {
    // width below the plausible minimum
    let s = rec(100, 800, 100, 100, false);
    assert!(!s.is_valid());
    assert_eq!(
        restore_decision(Some(s)),
        WindowAction::SetGeometry { width: 1200, height: 800, x: 100, y: 100 }
    );
}

#[test]
fn maximized_record_maximizes_whatever_its_geometry() {
    let s = rec(1, 1, 9999, 9999, true);
    assert!(!s.is_valid());
    assert_eq!(restore_decision(Some(s)), WindowAction::Maximize);
    assert_eq!(apply_decision(&s), WindowAction::Maximize);
}

#[test]
fn nothing_loaded_centers_instead_of_default_offset() {
    let action = restore_decision(None);
    assert_eq!(action, WindowAction::Center);
    assert_ne!(
        action,
        WindowAction::SetGeometry { width: 1200, height: 800, x: 100, y: 100 }
    );
}

#[test]
fn event_table() {
    assert_eq!(
        event_response(WindowEventKind::CloseRequested),
        EventResponse::CaptureAndSave
    );
    assert_eq!(
        event_response(WindowEventKind::Resized),
        EventResponse::ScheduleDebouncedSave
    );
    assert_eq!(
        event_response(WindowEventKind::Moved),
        EventResponse::ScheduleDebouncedSave
    );
    assert_eq!(event_response(WindowEventKind::Other), EventResponse::Ignore);
}

#[test]
fn debounce_delay_is_300ms() {
    assert_eq!(debounce_delay_ms(), 300);
}

#[test]
fn rapid_burst_of_ten_events_fires_exactly_one_save() {
    let mut d = Debouncer::new();
    let mut tokens = Vec::new();
    for _ in 0..10 {
        tokens.push(d.trigger());
    }
    let firing: Vec<&u64> = tokens.iter().filter(|t| d.should_fire(**t)).collect();
    assert_eq!(firing.len(), 1);
    assert_eq!(*firing[0], tokens[9]);
}

#[test]
fn new_trigger_stales_pending_save() {
    let mut d = Debouncer::new();
    let first = d.trigger();
    assert!(d.should_fire(first));
    let second = d.trigger();
    assert!(!d.should_fire(first));
    assert!(d.should_fire(second));
}

#[test]
fn close_persists_exactly_the_captured_record() {
    let s = rec(1024, 768, 5, 5, false);
    assert_eq!(close_decision(Some(s)), CloseAction::SaveRecord(s));
}

#[test]
fn failed_capture_at_close_skips_the_save() {
    assert_eq!(close_decision(None), CloseAction::SkipSave);
}

#[test]
fn store_file_name_is_fixed() {
    assert_eq!(store_file_name(), "window_state.json");
}
