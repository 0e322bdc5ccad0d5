//! The persisted format must be exactly what serde_json's pretty printer
//! writes for a record with these fields, so files written by other tools
//! that serialize the same schema stay interchangeable.

use window_state::codec::encode_state;
use window_state::codec::parse_state;
use window_state::state::WindowState;

fn value_of(s: &WindowState) -> serde_json::Value {
    let mut map = serde_json::Map::new();
    map.insert(
        "width".to_owned(),
        serde_json::Value::Number(serde_json::Number::from(s.width)),
    );
    map.insert(
        "height".to_owned(),
        serde_json::Value::Number(serde_json::Number::from(s.height)),
    );
    map.insert(
        "x".to_owned(),
        serde_json::Value::Number(serde_json::Number::from(s.x)),
    );
    map.insert(
        "y".to_owned(),
        serde_json::Value::Number(serde_json::Number::from(s.y)),
    );
    map.insert("maximized".to_owned(), serde_json::Value::Bool(s.maximized));
    serde_json::Value::Object(map)
}

#[test]
fn encoding_matches_serde_json_pretty_printing() {
    for s in [
        WindowState::default(),
        WindowState::from_geometry(400, 300, -100, -1, true),
        WindowState::from_geometry(u32::MAX, 0, i32::MIN, i32::MAX, false),
    ] {
        let ours = String::from_utf8(encode_state(&s)).unwrap();
        let serde_text = serde_json::to_string_pretty(&value_of(&s)).unwrap();
        assert_eq!(ours, serde_text);
    }
}

#[test]
fn encoding_is_well_formed_json_with_the_right_members() {
    let s = WindowState::from_geometry(1024, 768, -5, 42, true);
    let text = String::from_utf8(encode_state(&s)).unwrap();
    let v: serde_json::Value = serde_json::from_str(&text).unwrap();
    assert_eq!(v.get("width").and_then(|n| n.as_u64()), Some(1024));
    assert_eq!(v.get("height").and_then(|n| n.as_u64()), Some(768));
    assert_eq!(v.get("x").and_then(|n| n.as_i64()), Some(-5));
    assert_eq!(v.get("y").and_then(|n| n.as_i64()), Some(42));
    assert_eq!(v.get("maximized").and_then(|b| b.as_bool()), Some(true));
}

#[test]
fn serde_json_reads_back_what_we_wrote() {
    let s = WindowState::from_geometry(800, 600, 10, 20, false);
    let bytes = encode_state(&s);
    let v: serde_json::Value = serde_json::from_slice(&bytes).unwrap();
    let again = serde_json::to_string_pretty(&v).unwrap();
    assert_eq!(parse_state(again.as_bytes()), Some(s));
}
