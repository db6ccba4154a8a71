use bettercurl::urlencoding::encode;

fn percent_decode(t: &str) -> Vec<u8> {
    let b = t.as_bytes();
    let mut out = Vec::new();
    let mut i = 0;
    while i < b.len() {
        if b[i] == b'%' && i + 2 < b.len() {
            let h = std::str::from_utf8(&b[i + 1..i + 3]).unwrap();
            out.push(u8::from_str_radix(h, 16).unwrap());
            i += 3;
        } else {
            out.push(b[i]);
            i += 1;
        }
    }
    out
}

#[test]
fn encode_keeps_unreserved() {
    assert_eq!(encode("AZaz09-_.~"), "AZaz09-_.~");
}

#[test]
fn encode_escapes_reserved_ascii() {
    assert_eq!(encode("a b&c=d?e/f"), "a%20b%26c%3Dd%3Fe%2Ff");
    assert_eq!(encode("%"), "%25");
    assert_eq!(encode("\n"), "%0A");
}

#[test]
fn encode_escapes_utf8_bytes() {
    assert_eq!(encode("é"), "%C3%A9");
    assert_eq!(encode("€"), "%E2%82%AC");
    assert_eq!(encode("😀"), "%F0%9F%98%80");
}

#[test]
fn encode_then_decode_gives_utf8_back() {
    for s in ["hello world", "a+b=c&d", "日本語", "emoji 😀 ok", "~-_.", ""] {
        let e = encode(s);
        assert!(e.chars().all(|c| c.is_ascii_alphanumeric() || "-_.~%".contains(c)));
        assert_eq!(percent_decode(&e), s.as_bytes().to_vec());
    }
}

#[test]
fn encode_concat_and_fixed_points() {
    for (a, b) in [("a b", "c&d"), ("", "é"), ("x~", "")] {
        assert_eq!(encode(&format!("{}{}", a, b)), format!("{}{}", encode(a), encode(b)));
    }
    assert_eq!(encode("Plain-Text_1.0~"), "Plain-Text_1.0~");
    assert_ne!(encode("not plain"), "not plain");
}
