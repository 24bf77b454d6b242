use ctrlb_decompose::extraction::classify::classify_matched;
use ctrlb_decompose::extraction::drain3::classify_variable;
use ctrlb_decompose::text::to_decimal;
use ctrlb_decompose::types::VarType;

#[test]
fn test_classify_integer() {
    assert_eq!(classify_variable("42"), VarType::Integer);
    assert_eq!(classify_variable("-100"), VarType::Integer);
    assert_eq!(classify_variable("0"), VarType::Integer);
}

#[test]
fn test_classify_float() {
    assert_eq!(classify_variable("3.14"), VarType::Float);
    assert_eq!(classify_variable("-0.5"), VarType::Float);
    assert_eq!(classify_variable("100.0"), VarType::Float);
}

#[test]
fn test_classify_duration() {
    assert_eq!(classify_variable("45ms"), VarType::Duration);
    assert_eq!(classify_variable("1.2s"), VarType::Duration);
    assert_eq!(classify_variable("500us"), VarType::Duration);
    assert_eq!(classify_variable("100ns"), VarType::Duration);
    assert_eq!(classify_variable("2h"), VarType::Duration);
}

#[test]
fn test_classify_ipv4() {
    assert_eq!(classify_variable("10.0.1.15"), VarType::IPv4);
    assert_eq!(classify_variable("192.168.1.1:8080"), VarType::IPv4);
    assert_eq!(classify_variable("255.255.255.255"), VarType::IPv4);
    // Invalid octets should fall through
    assert_ne!(classify_variable("999.999.999.999"), VarType::IPv4);
}

#[test]
fn test_classify_ipv6() {
    assert_eq!(classify_variable("::1"), VarType::IPv6);
    assert_eq!(classify_variable("fe80::1"), VarType::IPv6);
    assert_eq!(
        classify_variable("2001:0db8:85a3:0000:0000:8a2e:0370:7334"),
        VarType::IPv6
    );
}

#[test]
fn test_classify_uuid() {
    assert_eq!(
        classify_variable("550e8400-e29b-41d4-a716-446655440000"),
        VarType::UUID
    );
    assert_eq!(
        classify_variable("123E4567-E89B-12D3-A456-426614174000"),
        VarType::UUID
    );
}

#[test]
fn test_classify_hex_id() {
    assert_eq!(classify_variable("0x1a2b3c"), VarType::HexID);
    assert_eq!(classify_variable("deadbeef"), VarType::HexID);
    assert_eq!(classify_variable("abc123def456"), VarType::HexID);
    // Pure digits should be Integer, not HexID
    assert_eq!(classify_variable("1234"), VarType::Integer);
}

#[test]
fn test_classify_timestamp() {
    assert_eq!(
        classify_variable("2024-01-15T14:22:01.123Z"),
        VarType::Timestamp
    );
    assert_eq!(
        classify_variable("2024-01-15 14:22:01"),
        VarType::Timestamp
    );
}

#[test]
fn test_classify_string_fallback() {
    assert_eq!(classify_variable("GET"), VarType::String);
    assert_eq!(classify_variable("/api/users"), VarType::String);
    assert_eq!(classify_variable("some-random-text"), VarType::String);
}

#[test]
fn short_values_are_strings() {
    assert_eq!(classify_variable(""), VarType::String);
    assert_eq!(classify_variable("-"), VarType::String);
    assert_eq!(classify_variable("+5"), VarType::String);
    assert_eq!(classify_variable("abc"), VarType::String);
    assert_eq!(classify_variable("5x"), VarType::String);
    assert_eq!(classify_variable("µs"), VarType::String);
}

#[test]
fn integers_end_where_i64_ends() {
    assert_eq!(classify_variable("9223372036854775807"), VarType::Integer);
    assert_eq!(classify_variable("9223372036854775808"), VarType::String);
    assert_eq!(classify_variable("-9223372036854775808"), VarType::Integer);
    assert_eq!(classify_variable("-9223372036854775809"), VarType::String);
    assert_eq!(classify_variable("00000000000000000000007"), VarType::Integer);
}

#[test]
fn digits_are_never_hex_ids() {
    assert_eq!(classify_variable("12345678"), VarType::Integer);
    assert_eq!(classify_variable("99999999999999999999"), VarType::String);
    assert_eq!(classify_variable("0x1234"), VarType::String);
}

#[test]
fn floats_have_one_dot() {
    assert_eq!(classify_variable("5."), VarType::Float);
    assert_eq!(classify_variable("-5."), VarType::Float);
    assert_eq!(classify_variable("1.2.3"), VarType::String);
    assert_eq!(classify_variable(".5"), VarType::String);
    assert_eq!(classify_variable("1.5e3"), VarType::String);
}

#[test]
fn octets_end_at_255() {
    assert_eq!(classify_variable("256.1.1.1"), VarType::String);
    assert_eq!(classify_variable("1.1.1.256"), VarType::String);
    assert_eq!(classify_variable("001.002.003.004"), VarType::IPv4);
    assert_eq!(classify_variable("1.2.3.4:"), VarType::String);
    assert_eq!(classify_variable("1.2.3.4:80:90"), VarType::String);
    assert_eq!(classify_variable("1.2.3"), VarType::String);
    assert_eq!(classify_variable("1.2.3.4.5"), VarType::String);
}

#[test]
fn durations_take_every_unit() {
    assert_eq!(classify_variable("5µs"), VarType::Duration);
    assert_eq!(classify_variable("-1.5h"), VarType::Duration);
    assert_eq!(classify_variable("2s"), VarType::Duration);
    assert_eq!(classify_variable("2m"), VarType::Duration);
    assert_eq!(classify_variable("1.2.3s"), VarType::String);
    assert_eq!(classify_variable("5ks"), VarType::String);
}

#[test]
fn patterns_take_digits_of_every_script() {
    assert_eq!(classify_variable("1٣ms"), VarType::Duration);
    assert_eq!(classify_variable("10.0.0.1:٣"), VarType::IPv4);
    assert_eq!(classify_variable("10.0.0.٣"), VarType::String);
}

#[test]
fn ipv6_needs_two_to_seven_colons() {
    assert_eq!(classify_variable("::"), VarType::IPv6);
    assert_eq!(classify_variable("1:2"), VarType::String);
    assert_eq!(classify_variable("12:34:56"), VarType::IPv6);
    assert_eq!(classify_variable("1:2:3:4:5:6:7:8:9"), VarType::String);
    assert_eq!(classify_variable("12345::1"), VarType::String);
    assert_eq!(classify_variable("a:g:b"), VarType::String);
}

#[test]
fn timestamps_are_told_by_length_and_dashes() {
    assert_eq!(classify_variable("1abc-de-xxxxxxxxxxx"), VarType::Timestamp);
    assert_eq!(classify_variable("1abc-de-xxxxxxxxxx"), VarType::String);
    assert_eq!(classify_variable("abcd-ef-01T00:00:00"), VarType::String);
}

#[test]
fn a_uuid_needs_every_digit() {
    assert_eq!(
        classify_variable("550e8400-e29b-41d4-a716-44665544000g"),
        VarType::String
    );
    assert_eq!(
        classify_variable("550e8400-e29b-41d4-a716-44665544000"),
        VarType::String
    );
}

#[test]
fn what_the_patterns_say_decides() {
    assert_eq!(classify_matched("45ms", true, false, false), VarType::Duration);
    assert_eq!(classify_matched("45ms", false, false, false), VarType::String);
    assert_eq!(classify_matched("10.0.1.15", false, true, false), VarType::IPv4);
    assert_eq!(classify_matched("10.0.1.15", false, false, false), VarType::String);
    assert_eq!(classify_matched("999.0.1.15", false, true, false), VarType::String);
    assert_eq!(classify_matched("::1", false, false, true), VarType::IPv6);
    assert_eq!(classify_matched("::1", false, false, false), VarType::String);
    assert_eq!(classify_matched("42", true, true, true), VarType::Integer);
    assert_eq!(classify_matched("5µs", true, false, false), VarType::Duration);
    assert_eq!(classify_matched("+5.1.1.1", false, true, false), VarType::String);
    assert_eq!(classify_matched("5.+1.1.1", false, true, false), VarType::IPv4);
}

#[test]
fn a_written_number_is_an_integer() {
    for n in [0, 7, 10, 1024, 65536, 4294967295] {
        assert_eq!(classify_variable(&to_decimal(n)), VarType::Integer);
    }
}

#[test]
fn an_ipv4_address_has_four_octets() {
    assert_eq!(classify_variable("1.2.3.4:80"), VarType::IPv4);
    assert_ne!(classify_variable("1.2.3.256"), VarType::IPv4);
    assert_ne!(classify_variable("1.2.3"), VarType::IPv4);
    assert_ne!(classify_variable("1.2.3.4.5"), VarType::IPv4);
}

#[test]
fn an_ipv6_address_is_told_by_its_groups() {
    assert_eq!(classify_variable("::"), VarType::IPv6);
    assert_eq!(classify_variable("12:34:56"), VarType::IPv6);
    assert_eq!(classify_variable("1:2:3:4:5:6:7:8"), VarType::IPv6);
    assert_ne!(classify_variable("12:34"), VarType::IPv6);
    assert_ne!(classify_variable("1:2:3:4:5:6:7:8:9"), VarType::IPv6);
    assert_ne!(classify_variable("12345:1:2"), VarType::IPv6);
    assert_ne!(classify_variable("a:b:\u{0663}"), VarType::IPv6);
    assert_ne!(classify_variable("::g"), VarType::IPv6);
}
