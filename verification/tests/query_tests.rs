use bettercurl::query::{build_query_string, final_url};

fn strings(v: &[&str]) -> Vec<String> {
    v.iter().map(|s| s.to_string()).collect()
}

#[test]
fn query_string_joins_encoded_pairs() {
    assert_eq!(
        build_query_string(&strings(&["q=rust", "limit=10", "sort=desc"])),
        "q=rust&limit=10&sort=desc"
    );
}

#[test]
fn query_string_skips_non_pairs_and_encodes() {
    assert_eq!(build_query_string(&strings(&["bad", "q=a b", "k:v"])), "q=a%20b&k=v");
    assert_eq!(build_query_string(&strings(&[])), "");
    assert_eq!(build_query_string(&strings(&["x&y=1=2"])), "x%26y=1%3D2");
}

#[test]
fn final_url_adds_query_only_without_question_mark() {
    let p = strings(&["q=rust"]);
    assert_eq!(final_url("https://a.example/s".to_string(), &p), "https://a.example/s?q=rust");
    assert_eq!(final_url("https://a.example/s?x=1".to_string(), &p), "https://a.example/s?x=1");
    assert_eq!(final_url("https://a.example/s".to_string(), &strings(&[])), "https://a.example/s");
    assert_eq!(final_url("https://a.example/s".to_string(), &strings(&["junk"])), "https://a.example/s?");
}

#[test]
fn query_string_of_joined_lists() {
    let xs = strings(&["a=1", "junk"]);
    let ys = strings(&["b=2"]);
    let both: Vec<String> = xs.iter().chain(ys.iter()).cloned().collect();
    assert_eq!(
        build_query_string(&both),
        format!("{}&{}", build_query_string(&xs), build_query_string(&ys))
    );
    assert_eq!(build_query_string(&[strings(&["junk"]), ys.clone()].concat()), build_query_string(&ys));
}
