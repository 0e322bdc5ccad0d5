use window_state::codec::encode_state;
use window_state::codec::parse_state;
use window_state::state::WindowState;

fn rec(width: u32, height: u32, x: i32, y: i32, maximized: bool) -> WindowState {
    WindowState::from_geometry(width, height, x, y, maximized)
}

#[test]
fn encoding_of_default_record_is_exact() {
    let bytes = encode_state(&WindowState::default());
    let expected = "{\n  \"width\": 1200,\n  \"height\": 800,\n  \"x\": 100,\n  \"y\": 100,\n  \"maximized\": false\n}";
    assert_eq!(String::from_utf8(bytes).unwrap(), expected);
}

#[test]
fn encoding_of_negative_position_is_exact() {
    let bytes = encode_state(&rec(400, 300, -100, -1, true));
    let expected = "{\n  \"width\": 400,\n  \"height\": 300,\n  \"x\": -100,\n  \"y\": -1,\n  \"maximized\": true\n}";
    assert_eq!(String::from_utf8(bytes).unwrap(), expected);
}

#[test]
fn round_trip_valid_record() {
    let s = rec(1200, 800, 100, 100, false);
    let got = parse_state(&encode_state(&s)).unwrap();
    assert_eq!(got, s);
}

#[test]
fn round_trip_extreme_values() {
    for s in [
        rec(u32::MAX, 0, i32::MIN, i32::MAX, false),
        rec(0, u32::MAX, -1, 0, true),
        rec(1, 1, 9999, 9999, true),
        rec(4000, 3000, 2000, -100, false),
    ] {
        assert_eq!(parse_state(&encode_state(&s)), Some(s));
    }
}

#[test]
fn saving_twice_is_byte_identical() {
    let s = rec(1024, 768, -5, 42, false);
    assert_eq!(encode_state(&s), encode_state(&s));
}

#[test]
fn missing_maximized_member_defaults_to_false() {
    let text = "{\n  \"width\": 800,\n  \"height\": 600,\n  \"x\": 10,\n  \"y\": 20\n}";
    let got = parse_state(text.as_bytes()).unwrap();
    assert_eq!(got, rec(800, 600, 10, 20, false));
}

#[test]
fn truncated_json_parses_to_none() {
    let full = encode_state(&WindowState::default());
    for cut in [1, 5, 12, 20, full.len() - 1] {
        assert_eq!(parse_state(&full[..cut]), None);
    }
}

#[test]
fn corrupt_inputs_parse_to_none() {
    for text in [
        "",
        "{}",
        "null",
        "not json at all",
        "{\n  \"width\": twelve,\n  \"height\": 800,\n  \"x\": 100,\n  \"y\": 100\n}",
        "{\n  \"width\": 1200,\n  \"height\": 800,\n  \"x\": 100,\n  \"y\": 100,\n  \"maximized\": maybe\n}",
    ] {
        assert_eq!(parse_state(text.as_bytes()), None);
    }
}

#[test]
fn trailing_garbage_parses_to_none() {
    let mut bytes = encode_state(&WindowState::default());
    bytes.push(b'\n');
    assert_eq!(parse_state(&bytes), None);
}

#[test]
fn numbers_out_of_range_parse_to_none() {
    // width beyond u32 and x beyond i32
    let t1 = "{\n  \"width\": 4294967296,\n  \"height\": 800,\n  \"x\": 100,\n  \"y\": 100\n}";
    let t2 = "{\n  \"width\": 1200,\n  \"height\": 800,\n  \"x\": 2147483648,\n  \"y\": 100\n}";
    let t3 = "{\n  \"width\": 1200,\n  \"height\": 800,\n  \"x\": -2147483649,\n  \"y\": 100\n}";
    assert_eq!(parse_state(t1.as_bytes()), None);
    assert_eq!(parse_state(t2.as_bytes()), None);
    assert_eq!(parse_state(t3.as_bytes()), None);
}

#[test]
fn leading_zeros_are_not_canonical() {
    let text = "{\n  \"width\": 01200,\n  \"height\": 800,\n  \"x\": 100,\n  \"y\": 100\n}";
    assert_eq!(parse_state(text.as_bytes()), None);
}

#[test]
fn canonical_reader_is_the_exact_inverse_of_the_writer() {
    let s = rec(1200, 800, 100, 100, false);
    assert_eq!(parse_state(&encode_state(&s)), Some(s));
    assert_eq!(parse_state(b"garbage"), None);
}
