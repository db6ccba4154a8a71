use bettercurl::curl::{generate_curl_command, header_text_pairs};
use reqwest::header::{HeaderMap, HeaderName, HeaderValue};

fn headers(v: &[(&str, &[u8])]) -> HeaderMap {
    let mut m = HeaderMap::new();
    for (k, val) in v {
        m.insert(HeaderName::from_bytes(k.as_bytes()).unwrap(), HeaderValue::from_bytes(val).unwrap());
    }
    m
}

#[test]
fn curl_uppercases_method() {
    let m = HeaderMap::new();
    assert_eq!(generate_curl_command("get", "https://x", &m, None), "curl -X GET 'https://x'");
    assert_eq!(generate_curl_command("POST", "u", &m, None), "curl -X POST 'u'");
}

#[test]
fn curl_lists_headers_and_escapes_body() {
    let m = headers(&[("Accept", b"*/*"), ("X-Bin", b"caf\xc3\xa9")]);
    assert_eq!(
        generate_curl_command("POST", "https://x/y?z=1", &m, Some("it's")),
        "curl -X POST 'https://x/y?z=1' -H 'accept: */*' -H 'x-bin: ' -d 'it'\\''s'"
    );
}

#[test]
fn header_pairs_show_visible_values() {
    let m = headers(&[("A", b"one"), ("B", b"t\twice"), ("C", b"\xff")]);
    assert_eq!(
        header_text_pairs(&m),
        vec![
            ("a".to_string(), "one".to_string()),
            ("b".to_string(), "t\twice".to_string()),
            ("c".to_string(), String::new())
        ]
    );
}

#[test]
fn curl_quotes_url_and_headers_for_a_shell() {
    let m = headers(&[("X-Q", b"it's")]);
    assert_eq!(
        generate_curl_command("GET", "http://x/?q='a'", &m, None),
        "curl -X GET 'http://x/?q='\\''a'\\''' -H 'x-q: it'\\''s'"
    );
}
