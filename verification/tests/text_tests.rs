use bettercurl::text::{decimal_string, is_whitespace};

#[test]
fn whitespace_agrees_with_std_for_every_char() {
    for u in 0u32..0x110000 {
        if let Some(c) = char::from_u32(u) {
            assert_eq!(is_whitespace(c), c.is_whitespace(), "char U+{:04X}", u);
        }
    }
}

#[test]
fn decimal_string_writes_numerals() {
    assert_eq!(decimal_string(0), "0");
    assert_eq!(decimal_string(7), "7");
    assert_eq!(decimal_string(10), "10");
    assert_eq!(decimal_string(200), "200");
    assert_eq!(decimal_string(404), "404");
    assert_eq!(decimal_string(u64::MAX), u64::MAX.to_string());
}
