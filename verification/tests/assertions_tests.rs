use bettercurl::assertions::{all_passed, run_assertions};

fn strings(v: &[&str]) -> Vec<String> {
    v.iter().map(|s| s.to_string()).collect()
}

#[test]
fn assertions_on_status_and_body() {
    let r = run_assertions(
        200,
        "{\"status\":\"ok\",\"version\":\"1.0\"}",
        &strings(&[
            "status==200",
            "status=200",
            "status==404",
            "body~ok",
            "body~missing",
            "body=={\"status\":\"ok\",\"version\":\"1.0\"}",
            "body==other",
            "version~1.0",
            "body~",
            "unknown",
        ]),
    );
    let passed: Vec<bool> = r.iter().map(|(_, p)| *p).collect();
    assert_eq!(passed, vec![true, true, false, true, false, true, false, true, true, true]);
    assert_eq!(r[0].0, "status==200");
    assert_eq!(r[7].0, "version~1.0");
}

#[test]
fn status_eq_with_leading_equals_is_compared_verbatim() {
    let r = run_assertions(200, "", &strings(&["status===200", "status=0200"]));
    assert!(!r[0].1);
    assert!(!r[1].1);
}

#[test]
fn all_passed_requires_every_result() {
    assert!(all_passed(&vec![]));
    assert!(all_passed(&vec![("a".to_string(), true)]));
    assert!(!all_passed(&vec![("a".to_string(), true), ("b".to_string(), false)]));
}

#[test]
fn named_contains_assertion_checks_the_body() {
    let r = run_assertions(200, "{\"version\":\"2.0\"}", &strings(&["version~1.0", "version~2.0", "a~b~c"]));
    assert_eq!(r, vec![
        ("version~1.0".to_string(), false),
        ("version~2.0".to_string(), true),
        ("a~b~c".to_string(), false),
    ]);
    let r2 = run_assertions(200, "xb~cx", &strings(&["a~b~c"]));
    assert!(r2[0].1);
}

#[test]
fn unrecognised_assertions_hold() {
    let r = run_assertions(500, "", &strings(&["foo", "body=x", "header==1"]));
    assert!(r.iter().all(|(_, p)| *p));
}
