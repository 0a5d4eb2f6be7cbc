use tunnel_core::decimal::{decimal_string, parse_u16, parse_u32, parse_usize};
use tunnel_core::text::{
    chars_of, contains_char, eq_ignore_case, replace_char_with, rsplit_once_char, same_text,
    split_by_char, split_once_char, string_of, strip_prefix_char, trim, trim_start_matches,
};

#[test]
fn parse_u16_accepts_plain_and_plus_prefixed_digits() {
    assert_eq!(parse_u16("443"), Some(443));
    assert_eq!(parse_u16("+80"), Some(80));
    assert_eq!(parse_u16("0065535"), Some(65535));
    assert_eq!(parse_u16("0"), Some(0));
}

#[test]
fn parse_u16_refuses_what_std_refuses() {
    assert_eq!(parse_u16(""), None);
    assert_eq!(parse_u16("+"), None);
    assert_eq!(parse_u16("-1"), None);
    assert_eq!(parse_u16("65536"), None);
    assert_eq!(parse_u16(" 1"), None);
    assert_eq!(parse_u16("1a"), None);
    assert_eq!(parse_u16("++1"), None);
    for s in ["", "+", "-1", "65536", " 1", "1a", "++1", "443", "+80", "0065535", "99999999999"] {
        assert_eq!(parse_u16(s), s.parse::<u16>().ok(), "{s}");
    }
}

#[test]
fn parse_u32_and_usize_bounds() {
    assert_eq!(parse_u32("4294967295"), Some(u32::MAX));
    assert_eq!(parse_u32("4294967296"), None);
    assert_eq!(parse_u32("2000"), Some(2000));
    assert_eq!(parse_usize("20"), Some(20));
    assert_eq!(parse_usize("18446744073709551615"), "18446744073709551615".parse::<usize>().ok());
    assert_eq!(parse_usize("x"), None);
}

#[test]
fn decimal_string_matches_to_string() {
    for n in [0u64, 7, 10, 443, 65535, 1234567890123, u64::MAX] {
        assert_eq!(decimal_string(n), n.to_string());
    }
}

#[test]
fn decimal_roundtrip_on_ports() {
    for p in [0u16, 1, 80, 443, 8443, 65535] {
        assert_eq!(parse_u16(&decimal_string(p as u64)), Some(p));
    }
}

#[test]
fn chars_and_strings() {
    assert_eq!(chars_of("aé1"), vec!['a', 'é', '1']);
    assert_eq!(string_of(&vec!['x', 'ü']), "xü");
}

#[test]
fn trim_removes_unicode_whitespace() {
    assert_eq!(trim("  a b \t\n"), "a b");
    assert_eq!(trim("\u{3000}x\u{a0}"), "x");
    assert_eq!(trim("   "), "");
    for s in ["  a ", "\u{2028}b\u{85}", "", " ", "c"] {
        assert_eq!(trim(s), s.trim());
    }
}

#[test]
fn trim_start_matches_and_strip_prefix() {
    assert_eq!(trim_start_matches("//SG", '/'), "SG");
    assert_eq!(trim_start_matches("/", '/'), "");
    assert_eq!(trim_start_matches("a/", '/'), "a/");
    assert_eq!(strip_prefix_char("[::1]", '['), Some("::1]".to_string()));
    assert_eq!(strip_prefix_char("::1", '['), None);
}

#[test]
fn split_once_and_rsplit_once() {
    assert_eq!(split_once_char("a:b:c", ':'), Some(("a".to_string(), "b:c".to_string())));
    assert_eq!(rsplit_once_char("a:b:c", ':'), Some(("a:b".to_string(), "c".to_string())));
    assert_eq!(split_once_char("abc", ':'), None);
    assert_eq!(rsplit_once_char("abc", ':'), None);
    assert_eq!(split_once_char(":", ':'), Some((String::new(), String::new())));
}

#[test]
fn split_replace_contains_and_compare() {
    assert_eq!(split_by_char("ID, SG,", ','), vec!["ID", " SG", ""]);
    assert_eq!(split_by_char("", ','), vec![""]);
    assert_eq!(replace_char_with("1.2.3.4:443", ':', '-'), "1.2.3.4-443");
    assert!(contains_char("::1", ':'));
    assert!(!contains_char("host", ':'));
    assert!(eq_ignore_case("WebSocket", "websocket"));
    assert!(!eq_ignore_case("websockets", "websocket"));
    assert!(!eq_ignore_case("ÄB", "äb"));
    assert!(same_text("ALL", "ALL"));
    assert!(!same_text("ALL", "All"));
}
