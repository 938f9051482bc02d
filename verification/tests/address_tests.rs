use nave::address::{parse_address, resolve_rel_path, subtree_at, Segment};
use nave::json::{Json, JsonEntry, JsonNumber};

fn conv(v: &serde_json::Value) -> Json {
    match v {
        serde_json::Value::Null => Json::Null,
        serde_json::Value::Bool(b) => Json::Bool(*b),
        serde_json::Value::Number(n) => Json::Number(JsonNumber {
            text: n.to_string(),
            is_integer: n.is_i64() || n.is_u64(),
        }),
        serde_json::Value::String(s) => Json::Str(s.clone()),
        serde_json::Value::Array(a) => Json::Array(a.iter().map(conv).collect()),
        serde_json::Value::Object(m) => Json::Object(
            m.iter()
                .map(|(k, v)| JsonEntry { key: k.clone(), value: conv(v) })
                .collect(),
        ),
    }
}

fn j(text: &str) -> Json {
    conv(&serde_json::from_str::<serde_json::Value>(text).unwrap())
}

fn as_str(v: &Json) -> Option<&str> {
    match v {
        Json::Str(s) => Some(s.as_str()),
        _ => None,
    }
}

#[test]
fn subtree_at_extracts_object() {
    let tree = j(r#"{"jobs": {"release": {"steps": [{"uses": "x", "with": {"command": "upload"}}]}}}"#);
    let sub = subtree_at(&tree, "jobs.release.steps[0]").unwrap();
    assert_eq!(sub, j(r#"{"uses": "x", "with": {"command": "upload"}}"#));
}

#[test]
fn parse_address_rejects_unclosed_bracket() {
    let err = parse_address("foo[").unwrap_err();
    assert!(err.message().contains("unclosed"));
}

#[test]
fn parse_address_rejects_non_numeric_index() {
    let err = parse_address("foo[abc]").unwrap_err();
    assert!(err.message().contains("non-numeric"));
}

#[test]
fn parse_address_accepts_any_bracket() {
    let segs = parse_address("updates[].schedule.interval").unwrap();
    assert_eq!(
        segs,
        vec![
            Segment::Key("updates".to_string()),
            Segment::Any,
            Segment::Key("schedule".to_string()),
            Segment::Key("interval".to_string()),
        ]
    );
}

fn dependabot_tree() -> Json {
    j(r#"{
        "version": 2,
        "updates": [
            {"package-ecosystem": "github-actions", "schedule": {"interval": "weekly"}},
            {"package-ecosystem": "cargo", "schedule": {"interval": "monthly"}},
            {"package-ecosystem": "pip", "schedule": {"interval": "weekly"}}
        ]
    }"#)
}

#[test]
fn resolve_rel_path_expands_any_over_array() {
    let tree = dependabot_tree();
    let hits = resolve_rel_path(&tree, "updates[].schedule.interval").unwrap();
    let addrs: Vec<&str> = hits.iter().map(|(a, _)| a.as_str()).collect();
    assert_eq!(
        addrs,
        vec![
            "updates[0].schedule.interval",
            "updates[1].schedule.interval",
            "updates[2].schedule.interval",
        ]
    );
    let vals: Vec<&str> = hits.iter().map(|(_, v)| as_str(v).unwrap_or("")).collect();
    assert_eq!(vals, vec!["weekly", "monthly", "weekly"]);
}

#[test]
fn resolve_rel_path_empty_returns_root() {
    let tree = dependabot_tree();
    let hits = resolve_rel_path(&tree, "").unwrap();
    assert_eq!(hits.len(), 1);
    assert_eq!(hits[0].0, "");
}

#[test]
fn resolve_rel_path_on_scalar_is_empty() {
    let tree = j(r#"{"x": 1}"#);
    let hits = resolve_rel_path(&tree, "x[]").unwrap();
    assert!(hits.is_empty());
}

#[test]
fn resolve_rel_path_concrete_still_works() {
    let tree = dependabot_tree();
    let hits = resolve_rel_path(&tree, "updates[1].schedule.interval").unwrap();
    assert_eq!(hits.len(), 1);
    assert_eq!(hits[0].0, "updates[1].schedule.interval");
    assert_eq!(as_str(&hits[0].1), Some("monthly"));
}

#[test]
fn subtree_at_missing_address_is_none() {
    let tree = dependabot_tree();
    assert!(subtree_at(&tree, "updates[7]").is_none());
    assert!(subtree_at(&tree, "version.x").is_none());
    assert_eq!(subtree_at(&tree, "").unwrap(), dependabot_tree());
}

#[test]
fn parse_address_error_messages_quote_the_input() {
    let err = parse_address("a[x]").unwrap_err();
    assert_eq!(err.message(), "non-numeric array index \"x\" in address: \"a[x]\"");
    let err = parse_address("a[").unwrap_err();
    assert_eq!(err.message(), "unclosed `[` in address: \"a[\"");
}

#[test]
fn rendered_addresses_parse_back() {
    let segs = vec![
        Segment::Index(2),
        Segment::Key("jobs".to_string()),
        Segment::Any,
        Segment::Key("with".to_string()),
        Segment::Index(10),
    ];
    assert_eq!(parse_address("[2].jobs[].with[10]").unwrap(), segs);
    assert_eq!(parse_address("a.b").unwrap(), vec![Segment::Key("a".to_string()), Segment::Key("b".to_string())]);
}

#[test]
fn resolved_hits_are_concrete_addresses() {
    let root = Json::Object(vec![JsonEntry {
        key: "a".to_string(),
        value: Json::Array(vec![Json::Str("x".to_string()), Json::Str("y".to_string())]),
    }]);
    let hits = resolve_rel_path(&root, "a[]").unwrap();
    assert_eq!(hits.len(), 2);
    for (addr, v) in &hits {
        assert_eq!(subtree_at(&root, addr).as_ref(), Some(v));
        assert!(!parse_address(addr).unwrap().contains(&Segment::Any));
    }
    let whole = resolve_rel_path(&root, "").unwrap();
    assert_eq!(whole.len(), 1);
    assert_eq!(whole[0].0, "");
    assert_eq!(whole[0].1, root);
}
