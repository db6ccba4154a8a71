use bettercurl::method::HttpMethod;
use bettercurl::request::{
    build_body, build_headers, check_credentials, choose_method, curl_body_text, json_body_pretty,
    json_body_text, resolve_url, upload_path, BodyType, JsonBody, RequestArgs,
};

fn args() -> RequestArgs {
    RequestArgs {
        url: String::new(),
        url_flag: None,
        query: None,
        method: None,
        headers: vec![],
        params: vec![],
        body: None,
        data_args: vec![],
        json: false,
        form: false,
        auth: None,
        bearer: None,
        basic: None,
        api_key: None,
        upload: None,
        file: None,
        graphql: false,
        gql_query: None,
        gql_vars: vec![],
    }
}

fn strings(v: &[&str]) -> Vec<String> {
    v.iter().map(|s| s.to_string()).collect()
}

fn header_list(m: &reqwest::header::HeaderMap) -> Vec<(String, String)> {
    m.iter().map(|(k, v)| (k.as_str().to_string(), v.to_str().unwrap().to_string())).collect()
}

fn owned(v: &[(&str, &str)]) -> Vec<(String, String)> {
    v.iter().map(|(a, b)| (a.to_string(), b.to_string())).collect()
}

#[test]
fn url_comes_from_positional_then_flag_then_query() {
    let mut a = args();
    assert_eq!(resolve_url(&a), None);
    a.query = Some("q".to_string());
    assert_eq!(resolve_url(&a), Some("q".to_string()));
    a.url_flag = Some("f".to_string());
    assert_eq!(resolve_url(&a), Some("f".to_string()));
    a.url = "p".to_string();
    assert_eq!(resolve_url(&a), Some("p".to_string()));
}

#[test]
fn method_detected_from_body() {
    let mut a = args();
    assert_eq!(choose_method(&a), HttpMethod::Get);
    a.data_args = strings(&["x=1"]);
    assert_eq!(choose_method(&a), HttpMethod::Post);
    let mut b = args();
    b.json = true;
    assert_eq!(choose_method(&b), HttpMethod::Post);
    let mut c = args();
    c.upload = Some("f".to_string());
    assert_eq!(choose_method(&c), HttpMethod::Post);
    c.method = Some(HttpMethod::Put);
    assert_eq!(choose_method(&c), HttpMethod::Put);
}

#[test]
fn user_headers_are_lowercased_and_invalid_ones_skipped() {
    let mut a = args();
    a.headers = strings(&["X-One: 1", "Bad Name: 2", "X-Two=two", "noheader", "X-ONE: again", "X-Ctl: a\u{1}b"]);
    let m = build_headers(&a).unwrap();
    assert_eq!(header_list(&m), owned(&[("x-one", "again"), ("x-two", "two")]));
}

#[test]
fn auth_variants_set_headers() {
    let mut a = args();
    a.auth = Some("bearer:TOKEN".to_string());
    assert_eq!(header_list(&build_headers(&a).unwrap()), owned(&[("authorization", "Bearer TOKEN")]));
    a.auth = Some("basic:user:pass".to_string());
    // the token "user:pass" is encoded with a colon after it
    assert_eq!(
        header_list(&build_headers(&a).unwrap()),
        owned(&[("authorization", "Basic dXNlcjpwYXNzOg==")])
    );
    a.auth = Some("api-key:K".to_string());
    assert_eq!(header_list(&build_headers(&a).unwrap()), owned(&[("x-api-key", "K")]));
    a.auth = Some("digest:x".to_string());
    assert_eq!(header_list(&build_headers(&a).unwrap()), owned(&[]));
    a.auth = Some("bearer".to_string());
    assert_eq!(header_list(&build_headers(&a).unwrap()), owned(&[]));
}

#[test]
fn credential_flags_override_in_order() {
    let mut a = args();
    a.auth = Some("bearer:A".to_string());
    a.bearer = Some("B".to_string());
    assert_eq!(header_list(&build_headers(&a).unwrap()), owned(&[("authorization", "Bearer B")]));
    a.basic = Some("user:pass".to_string());
    assert_eq!(header_list(&build_headers(&a).unwrap()), owned(&[("authorization", "Basic dXNlcjpwYXNz")]));
    a.basic = Some("nocolon".to_string());
    a.api_key = Some("KEY".to_string());
    assert_eq!(
        header_list(&build_headers(&a).unwrap()),
        owned(&[("authorization", "Bearer B"), ("x-api-key", "KEY")])
    );
}

#[test]
fn json_body_sets_content_type_and_upload_removes_it() {
    let mut a = args();
    a.json = true;
    assert_eq!(header_list(&build_headers(&a).unwrap()), owned(&[]));
    a.data_args = strings(&["a=1"]);
    a.headers = strings(&["X-A: 1", "X-B: 2"]);
    assert_eq!(
        header_list(&build_headers(&a).unwrap()),
        owned(&[("x-a", "1"), ("x-b", "2"), ("content-type", "application/json")])
    );
    a.headers = strings(&["Content-Type: text/plain", "X-B: 2", "X-C: 3"]);
    a.file = Some("f".to_string());
    // the last entry moves into the removed one's place
    assert_eq!(header_list(&build_headers(&a).unwrap()), owned(&[("x-c", "3"), ("x-b", "2")]));
}

#[test]
fn credentials_check_finds_invalid_tokens() {
    let mut a = args();
    assert!(check_credentials(&a));
    a.bearer = Some("bad\ntoken".to_string());
    assert!(!check_credentials(&a));
    a.bearer = None;
    a.auth = Some("api-key:bad\u{7f}".to_string());
    assert!(!check_credentials(&a));
    a.auth = Some("basic:bad\ntoken".to_string());
    assert!(check_credentials(&a));
}

#[test]
fn body_kinds() {
    let mut a = args();
    assert!(build_body(&a).is_none());
    a.data_args = strings(&["name=Alice", "age=30", "name=Bob"]);
    match build_body(&a) {
        Some(BodyType::Raw(s)) => assert_eq!(s, "name=Alice age=30 name=Bob"),
        _ => panic!("expected a raw body"),
    }
    a.form = true;
    match build_body(&a) {
        Some(BodyType::Form(m)) => {
            assert_eq!(m.entries().clone(), owned(&[("name", "Bob"), ("age", "30")]))
        }
        _ => panic!("expected a form"),
    }
    a.json = true;
    match build_body(&a) {
        Some(BodyType::Json(JsonBody::Fields(m))) => assert_eq!(
            serde_json::Value::Object(m).to_string(),
            "{\"age\":\"30\",\"name\":\"Bob\"}"
        ),
        _ => panic!("expected JSON fields"),
    }
}

#[test]
fn body_from_body_flag_splits_words() {
    let mut a = args();
    a.body = Some("  k=v\tx=y  ".to_string());
    match build_body(&a) {
        Some(BodyType::Raw(s)) => assert_eq!(s, "  k=v\tx=y  "),
        _ => panic!("expected a raw body"),
    }
    a.form = true;
    match build_body(&a) {
        Some(BodyType::Form(m)) => assert_eq!(m.entries().clone(), owned(&[("k", "v"), ("x", "y")])),
        _ => panic!("expected a form"),
    }
}

#[test]
fn graphql_body_uses_query_and_variables() {
    let mut a = args();
    a.graphql = true;
    a.body = Some("{ users { id } }".to_string());
    a.gql_vars = strings(&["id=123", "x"]);
    match build_body(&a) {
        Some(BodyType::Json(JsonBody::GraphQl { query, variables })) => {
            assert_eq!(query, "{ users { id } }");
            assert_eq!(serde_json::Value::Object(variables).to_string(), "{\"id\":\"123\"}");
        }
        _ => panic!("expected GraphQL"),
    }
    a.gql_query = Some("query Q { a }".to_string());
    a.body = None;
    a.data_args = strings(&["ignored", "words"]);
    match build_body(&a) {
        Some(BodyType::Json(JsonBody::GraphQl { query, .. })) => assert_eq!(query, "query Q { a }"),
        _ => panic!("expected GraphQL"),
    }
    a.gql_query = None;
    match build_body(&a) {
        Some(BodyType::Json(JsonBody::GraphQl { query, .. })) => assert_eq!(query, "ignored words"),
        _ => panic!("expected GraphQL"),
    }
}

#[test]
fn file_flag_wins_over_upload() {
    let mut a = args();
    assert_eq!(upload_path(&a), None);
    a.upload = Some("u.bin".to_string());
    assert_eq!(upload_path(&a), Some("u.bin".to_string()));
    a.file = Some("f.bin".to_string());
    assert_eq!(upload_path(&a), Some("f.bin".to_string()));
}

#[test]
fn many_header_arguments_fit() {
    let mut a = args();
    a.headers = (0..7000).map(|i| format!("X-H{}: {}", i, i)).collect();
    let m = build_headers(&a).unwrap();
    assert_eq!(m.len(), 7000);
    assert_eq!(m.get("x-h6999").unwrap(), "6999");
}

#[test]
fn json_body_texts() {
    let mut a = args();
    a.json = true;
    a.data_args = strings(&["name=Bob", "age=30", "q=\"x\""]);
    let b = build_body(&a);
    match &b {
        Some(BodyType::Json(j)) => {
            assert_eq!(json_body_text(j), "{\"age\":\"30\",\"name\":\"Bob\",\"q\":\"\\\"x\\\"\"}");
            assert_eq!(
                json_body_pretty(j),
                "{\n  \"age\": \"30\",\n  \"name\": \"Bob\",\n  \"q\": \"\\\"x\\\"\"\n}"
            );
        }
        _ => panic!("expected JSON"),
    }
    assert_eq!(
        curl_body_text(&b),
        Some("{\"age\":\"30\",\"name\":\"Bob\",\"q\":\"\\\"x\\\"\"}".to_string())
    );
}

#[test]
fn graphql_body_text() {
    let mut a = args();
    a.graphql = true;
    a.gql_query = Some("{ users { id } }".to_string());
    a.gql_vars = strings(&["id=123"]);
    a.body = Some("x".to_string());
    let b = build_body(&a);
    match &b {
        Some(BodyType::Json(j)) => assert_eq!(
            json_body_text(j),
            "{\"query\":\"{ users { id } }\",\"variables\":{\"id\":\"123\"}}"
        ),
        _ => panic!("expected JSON"),
    }
    a.graphql = false;
    a.body = Some("raw text".to_string());
    assert_eq!(curl_body_text(&build_body(&a)), Some("raw text".to_string()));
    a.form = true;
    assert_eq!(curl_body_text(&build_body(&a)), None);
}
