use nave::json::{Json, JsonEntry, JsonNumber};
use nave::selector::{parse_selector, resolve_selector, SelectorSegment};

fn conv(v: &serde_json::Value) -> Json {
    match v {
        serde_json::Value::Null => Json::Null,
        serde_json::Value::Bool(b) => Json::Bool(*b),
        serde_json::Value::Number(n) => Json::Number(JsonNumber {
            text: n.to_string(),
            is_integer: n.is_i64() || n.is_u64(),
        }),
        serde_json::Value::String(s) => Json::Str(s.clone()),
        serde_json::Value::Array(a) => Json::Array(a.iter().map(conv).collect()),
        serde_json::Value::Object(m) => Json::Object(
            m.iter()
                .map(|(k, v)| JsonEntry { key: k.clone(), value: conv(v) })
                .collect(),
        ),
    }
}

fn j(text: &str) -> Json {
    conv(&serde_json::from_str::<serde_json::Value>(text).unwrap())
}

#[test]
fn parse_plain_path() {
    let s = parse_selector("jobs.release.steps[0]").unwrap();
    assert_eq!(
        s,
        vec![
            SelectorSegment::Key("jobs".into()),
            SelectorSegment::Key("release".into()),
            SelectorSegment::Key("steps".into()),
            SelectorSegment::Index(0),
        ]
    );
}

#[test]
fn parse_leading_dot_is_optional() {
    let a = parse_selector(".jobs.steps").unwrap();
    let b = parse_selector("jobs.steps").unwrap();
    assert_eq!(a, b);
}

#[test]
fn parse_any_bracket() {
    let s = parse_selector("jobs.[].steps.[]").unwrap();
    assert_eq!(
        s,
        vec![
            SelectorSegment::Key("jobs".into()),
            SelectorSegment::Any,
            SelectorSegment::Key("steps".into()),
            SelectorSegment::Any,
        ]
    );
}

#[test]
fn parse_any_without_leading_dot() {
    let s = parse_selector("jobs[]").unwrap();
    assert_eq!(s, vec![SelectorSegment::Key("jobs".into()), SelectorSegment::Any]);
}

#[test]
fn parse_unclosed_bracket_errors() {
    let err = parse_selector("jobs[").unwrap_err();
    assert!(err.message().contains("unclosed"));
}

#[test]
fn parse_non_numeric_index_errors() {
    let err = parse_selector("jobs[abc]").unwrap_err();
    assert!(err.message().contains("non-numeric"));
}

fn workflow() -> Json {
    j(r#"{
        "jobs": {
            "build": {"steps": [{"uses": "actions/checkout@v4"}, {"uses": "actions/setup-python@v5"}]},
            "release": {"steps": [{"uses": "actions/checkout@v4"}, {"uses": "PyO3/maturin-action@v1"}]}
        }
    }"#)
}

#[test]
fn resolve_concrete_path() {
    let tree = workflow();
    let sel = parse_selector("jobs.release.steps[1]").unwrap();
    assert_eq!(resolve_selector(&tree, &sel), vec!["jobs.release.steps[1]".to_string()]);
}

#[test]
fn resolve_any_over_object() {
    let tree = workflow();
    let sel = parse_selector("jobs.[]").unwrap();
    let mut got = resolve_selector(&tree, &sel);
    got.sort();
    assert_eq!(got, vec!["jobs.build".to_string(), "jobs.release".to_string()]);
}

#[test]
fn resolve_any_over_array() {
    let tree = workflow();
    let sel = parse_selector("jobs.release.steps[]").unwrap();
    let mut got = resolve_selector(&tree, &sel);
    got.sort();
    assert_eq!(
        got,
        vec!["jobs.release.steps[0]".to_string(), "jobs.release.steps[1]".to_string()]
    );
}

#[test]
fn resolve_mixed_any_across_objects_and_arrays() {
    let tree = workflow();
    let sel = parse_selector("jobs.[].steps.[]").unwrap();
    let mut got = resolve_selector(&tree, &sel);
    got.sort();
    assert_eq!(
        got,
        vec![
            "jobs.build.steps[0]".to_string(),
            "jobs.build.steps[1]".to_string(),
            "jobs.release.steps[0]".to_string(),
            "jobs.release.steps[1]".to_string(),
        ]
    );
}

#[test]
fn resolve_missing_key_yields_empty() {
    let tree = workflow();
    let sel = parse_selector("jobs.nope.steps[]").unwrap();
    assert!(resolve_selector(&tree, &sel).is_empty());
}

#[test]
fn resolve_out_of_bounds_index_yields_empty() {
    let tree = workflow();
    let sel = parse_selector("jobs.release.steps[99]").unwrap();
    assert!(resolve_selector(&tree, &sel).is_empty());
}

#[test]
fn resolve_any_on_scalar_is_empty() {
    let tree = j(r#"{"x": 1}"#);
    let sel = parse_selector("x.[]").unwrap();
    assert!(resolve_selector(&tree, &sel).is_empty());
}
