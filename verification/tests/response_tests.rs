use bettercurl::response::{download_path, filename_from_disposition, render_body};
use reqwest::header::{HeaderMap, HeaderValue, CONTENT_DISPOSITION};

#[test]
fn render_body_verbatim_cases() {
    assert_eq!(render_body("{\"a\":1}", true, true), None);
    assert_eq!(render_body("{\"a\":1}", true, false), None);
    assert_eq!(render_body("not json", false, true), None);
    assert_eq!(render_body("not json", false, false), None);
}

#[test]
fn render_body_pretty_json() {
    assert_eq!(render_body("{\"a\":1}", false, true), Some("{\n  \"a\": 1\n}".to_string()));
    assert_eq!(render_body("[1,2]", false, true), Some("[\n  1,\n  2\n]".to_string()));
    // pretty is the default for JSON bodies
    assert_eq!(render_body("{\"a\":1}", false, false), Some("{\n  \"a\": 1\n}".to_string()));
}

#[test]
fn filename_from_content_disposition() {
    assert_eq!(filename_from_disposition("attachment; filename=\"report.pdf\""), Some("report.pdf".to_string()));
    assert_eq!(filename_from_disposition("attachment; filename='a.txt'"), Some("a.txt".to_string()));
    assert_eq!(filename_from_disposition("attachment; filename=x.zip; filename=y.zip"), Some("x.zip; ".to_string()));
    assert_eq!(filename_from_disposition("inline"), None);
    assert_eq!(filename_from_disposition("filename="), Some(String::new()));
}

#[test]
fn download_path_prefers_output() {
    let mut h = HeaderMap::new();
    assert_eq!(download_path(None, &h), None);
    h.insert(CONTENT_DISPOSITION, HeaderValue::from_static("attachment; filename=\"f.bin\""));
    assert_eq!(download_path(None, &h), Some("f.bin".to_string()));
    assert_eq!(download_path(Some("out.zip".to_string()), &h), Some("out.zip".to_string()));
    h.insert(CONTENT_DISPOSITION, HeaderValue::from_bytes(b"attachment; filename=\xe9").unwrap());
    assert_eq!(download_path(None, &h), None);
}
