use zen_build::facts::facts_default;
use zen_build::names::parses_i64;
use zen_build::placement::{validate_attr, AttrVerdict};

fn b(s: &str) -> Vec<u8> {
    s.as_bytes().to_vec()
}

#[test]
fn i64_parsing_matches_rust() {
    for v in ["0", "42", "-7", "+7", "9223372036854775807", "-9223372036854775808", "007"] {
        assert!(parses_i64(v.as_bytes()), "{v}");
        assert!(v.parse::<i64>().is_ok());
    }
    for v in ["", "-", "+", "1.5", " 1", "1e3", "9223372036854775808", "-9223372036854775809", "--1", "0x10"] {
        assert!(!parses_i64(v.as_bytes()), "{v}");
        assert!(v.parse::<i64>().is_err());
    }
}

#[test]
fn int_configs_take_whole_numbers_only() {
    let mut f = facts_default();
    f.config_types = vec![(b("count"), b("int"))];
    assert_eq!(validate_attr(&f, b"count", b"12"), AttrVerdict::Valid);
    assert_eq!(validate_attr(&f, b"count", b"-3"), AttrVerdict::Valid);
    assert_eq!(validate_attr(&f, b"count", b"1.5"), AttrVerdict::NeedsWholeNumber);
    assert_eq!(validate_attr(&f, b"other", b"1"), AttrVerdict::NotAParameter);
}
