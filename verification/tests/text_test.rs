use posixfy_bridge::text::{decimal_string, hex16_string, parse_i64, parse_u32, parse_u64};
use posixfy_bridge::{generate_request_id, request_id_for};

#[test]
fn decimal_and_hex_writing() {
    assert_eq!(decimal_string(0), "0");
    assert_eq!(decimal_string(1000), "1000");
    assert_eq!(decimal_string(u64::MAX), "18446744073709551615");
    assert_eq!(hex16_string(0), "0000000000000000");
    assert_eq!(hex16_string(0xdead_beef), "00000000deadbeef");
    assert_eq!(hex16_string(u64::MAX), "ffffffffffffffff");
}

#[test]
fn numbers_parse_as_std_does() {
    for s in ["0", "+1", "4294967295", "4294967296", "-1", "", "+", "1a", " 1", "007"] {
        assert_eq!(parse_u32(s), s.parse::<u32>().ok(), "{s}");
    }
    for s in ["18446744073709551615", "18446744073709551616", "+0", "-0"] {
        assert_eq!(parse_u64(s), s.parse::<u64>().ok(), "{s}");
    }
    for s in ["-9223372036854775808", "-9223372036854775809", "9223372036854775807", "9223372036854775808", "-", "+-1", "-+1", "-0"] {
        assert_eq!(parse_i64(s), s.parse::<i64>().ok(), "{s}");
    }
}

#[test]
fn response_includes_generated_request_id() {
    let id = generate_request_id();
    assert_eq!(id.len(), 16);
    assert!(id.chars().all(|c| c.is_ascii_hexdigit() && !c.is_ascii_uppercase()));
    assert!(!request_id_for(None).0.is_empty());
}

#[test]
fn response_echoes_client_request_id() {
    assert_eq!(request_id_for(Some("my-custom-id")).0, "my-custom-id");
}
