use bettercurl::headers::{valid_header_name, valid_header_value};
use reqwest::header::{HeaderName, HeaderValue};

#[test]
fn header_name_validity_agrees_with_reqwest() {
    let long = "a".repeat(65535);
    let too_long = "a".repeat(65536);
    let samples = [
        "Content-Type", "x-api-key", "", " ", "a b", "a:b", "ok!#$%&'*+-.^_`|~", "é", "tab\t",
        "quote\"", "(x)", "X-Custom-123", long.as_str(), too_long.as_str(), "a/b", "{}",
    ];
    for s in samples {
        assert_eq!(valid_header_name(s), HeaderName::from_bytes(s.as_bytes()).is_ok(), "{:?}", s);
    }
    for u in 0u32..256 {
        let s = char::from_u32(u).unwrap().to_string();
        assert_eq!(valid_header_name(&s), HeaderName::from_bytes(s.as_bytes()).is_ok(), "U+{:04X}", u);
    }
}

#[test]
fn header_value_validity_agrees_with_reqwest() {
    for u in 0u32..0x3000 {
        if let Some(c) = char::from_u32(u) {
            let s = format!("v{}v", c);
            assert_eq!(valid_header_value(&s), HeaderValue::from_str(&s).is_ok(), "U+{:04X}", u);
        }
    }
    assert!(valid_header_value(""));
}
