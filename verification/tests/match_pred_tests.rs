use nave::json::{Json, JsonEntry, JsonNumber};
use nave::match_pred::{find_match_addresses, MatchPredicate, Op};

fn conv(v: &serde_json::Value) -> Json {
    match v {
        serde_json::Value::Null => Json::Null,
        serde_json::Value::Bool(b) => Json::Bool(*b),
        serde_json::Value::Number(n) => Json::Number(JsonNumber {
            text: n.to_string(),
            is_integer: n.is_i64() || n.is_u64(),
        }),
        serde_json::Value::String(s) => Json::Str(s.clone()),
        serde_json::Value::Array(a) => Json::Array(a.iter().map(conv).collect()),
        serde_json::Value::Object(m) => Json::Object(
            m.iter()
                .map(|(k, v)| JsonEntry { key: k.clone(), value: conv(v) })
                .collect(),
        ),
    }
}

fn j(text: &str) -> Json {
    conv(&serde_json::from_str::<serde_json::Value>(text).unwrap())
}

#[test]
fn parse_eq() {
    let p = MatchPredicate::parse("with.command = upload").unwrap();
    assert_eq!(p.scope, None);
    assert_eq!(p.rel_path, "with.command");
    assert_eq!(p.op, Op::Eq);
    assert_eq!(p.literal, "upload");
}

#[test]
fn parse_not_eq() {
    let p = MatchPredicate::parse("with.command != upload").unwrap();
    assert_eq!(p.op, Op::NotEq);
    assert_eq!(p.literal, "upload");
}

#[test]
fn parse_starts_with() {
    let p = MatchPredicate::parse("uses ^= PyO3/maturin-action@").unwrap();
    assert_eq!(p.op, Op::StartsWith);
    assert_eq!(p.literal, "PyO3/maturin-action@");
}

#[test]
fn parse_ends_with() {
    let p = MatchPredicate::parse("path $= .yml").unwrap();
    assert_eq!(p.op, Op::EndsWith);
    assert_eq!(p.literal, ".yml");
}

#[test]
fn parse_contains() {
    let p = MatchPredicate::parse("uses *= maturin").unwrap();
    assert_eq!(p.op, Op::Contains);
    assert_eq!(p.literal, "maturin");
}

#[test]
fn parse_no_spaces_around_op() {
    let p = MatchPredicate::parse("uses^=PyO3/").unwrap();
    assert_eq!(p.op, Op::StartsWith);
    assert_eq!(p.rel_path, "uses");
    assert_eq!(p.literal, "PyO3/");
}

#[test]
fn parse_with_scope() {
    let p = MatchPredicate::parse("workflow:with.command = upload").unwrap();
    assert_eq!(p.scope.as_deref(), Some("workflow"));
    assert_eq!(p.rel_path, "with.command");
    assert_eq!(p.op, Op::Eq);
}

#[test]
fn parse_scope_with_two_char_op() {
    let p = MatchPredicate::parse("workflow:uses ^= PyO3/").unwrap();
    assert_eq!(p.scope.as_deref(), Some("workflow"));
    assert_eq!(p.op, Op::StartsWith);
    assert_eq!(p.literal, "PyO3/");
}

#[test]
fn parse_quoted_literal() {
    let p = MatchPredicate::parse(r#"name = "Publish to PyPI""#).unwrap();
    assert_eq!(p.op, Op::Eq);
    assert_eq!(p.literal, "Publish to PyPI");
}

#[test]
fn parse_quoted_literal_with_op_char_inside() {
    let p = MatchPredicate::parse(r#"uses *= "a=b""#).unwrap();
    assert_eq!(p.op, Op::Contains);
    assert_eq!(p.literal, "a=b");
}

#[test]
fn parse_presence() {
    let p = MatchPredicate::parse("tool.maturin").unwrap();
    assert_eq!(p.op, Op::Present);
    assert_eq!(p.rel_path, "tool.maturin");
    assert_eq!(p.literal, "");
}

#[test]
fn parse_presence_with_scope() {
    let p = MatchPredicate::parse("pyproject:tool.maturin").unwrap();
    assert_eq!(p.scope.as_deref(), Some("pyproject"));
    assert_eq!(p.op, Op::Present);
    assert_eq!(p.rel_path, "tool.maturin");
}

#[test]
fn parse_absence() {
    let p = MatchPredicate::parse("!tool.maturin").unwrap();
    assert_eq!(p.op, Op::Absent);
    assert_eq!(p.rel_path, "tool.maturin");
}

#[test]
fn parse_absence_with_scope() {
    let p = MatchPredicate::parse("workflow:!jobs.test").unwrap();
    assert_eq!(p.scope.as_deref(), Some("workflow"));
    assert_eq!(p.op, Op::Absent);
    assert_eq!(p.rel_path, "jobs.test");
}

#[test]
fn parse_absence_with_op_errors() {
    let err = MatchPredicate::parse("!foo = bar").unwrap_err();
    assert!(err.message().contains("takes no operator"));
}

#[test]
fn parse_empty_path_errors() {
    let err = MatchPredicate::parse("").unwrap_err();
    assert!(err.message().contains("empty path"));
}

#[test]
fn parse_bang_only_errors() {
    let err = MatchPredicate::parse("!").unwrap_err();
    assert!(err.message().contains("empty path"));
}

fn step_tree() -> Json {
    j(r#"{
        "jobs": {
            "release": {
                "steps": [
                    {"uses": "actions/checkout@v4"},
                    {"uses": "PyO3/maturin-action@v1", "with": {"command": "upload", "args": "--skip-existing"}},
                    {"uses": "pypa/gh-action-pypi-publish@release/v1", "with": {"packages-dir": "dist/"}}
                ]
            }
        }
    }"#)
}

#[test]
fn eval_eq_emits_concrete_scalar_address() {
    let tree = step_tree();
    let p = MatchPredicate::parse("with.command = upload").unwrap();
    let addrs = find_match_addresses(&tree, &p);
    assert_eq!(addrs, vec!["jobs.release.steps[1].with.command".to_string()]);
}

#[test]
fn eval_starts_with_concrete_address() {
    let tree = step_tree();
    let p = MatchPredicate::parse("uses ^= PyO3/").unwrap();
    let addrs = find_match_addresses(&tree, &p);
    assert_eq!(addrs, vec!["jobs.release.steps[1].uses".to_string()]);
}

#[test]
fn eval_ends_with_concrete_address() {
    let tree = step_tree();
    let p = MatchPredicate::parse("uses $= @v4").unwrap();
    let addrs = find_match_addresses(&tree, &p);
    assert_eq!(addrs, vec!["jobs.release.steps[0].uses".to_string()]);
}

#[test]
fn eval_contains_concrete_address() {
    let tree = step_tree();
    let p = MatchPredicate::parse("uses *= maturin").unwrap();
    let addrs = find_match_addresses(&tree, &p);
    assert_eq!(addrs, vec!["jobs.release.steps[1].uses".to_string()]);
}

#[test]
fn eval_contains_misses_when_absent() {
    let tree = step_tree();
    let p = MatchPredicate::parse("uses *= zzz-nothing").unwrap();
    let addrs = find_match_addresses(&tree, &p);
    assert!(addrs.is_empty());
}

fn dependabot_tree() -> Json {
    j(r#"{
        "version": 2,
        "updates": [
            {"package-ecosystem": "github-actions", "schedule": {"interval": "weekly"}},
            {"package-ecosystem": "cargo", "schedule": {"interval": "monthly"}},
            {"package-ecosystem": "pip", "schedule": {"interval": "weekly"}}
        ]
    }"#)
}

#[test]
fn eval_any_wildcard_in_rel_path() {
    let tree = dependabot_tree();
    let p = MatchPredicate::parse("updates[].schedule.interval = weekly").unwrap();
    let addrs = find_match_addresses(&tree, &p);
    assert_eq!(
        addrs,
        vec!["updates[0].schedule.interval".to_string(), "updates[2].schedule.interval".to_string()]
    );
}

#[test]
fn eval_not_eq_via_any_wildcard() {
    let tree = dependabot_tree();
    let p = MatchPredicate::parse("updates[].schedule.interval != weekly").unwrap();
    let addrs = find_match_addresses(&tree, &p);
    assert_eq!(addrs, vec!["updates[1].schedule.interval".to_string()]);
}

#[test]
fn eval_concrete_index_still_works() {
    let tree = dependabot_tree();
    let p = MatchPredicate::parse("updates[1].schedule.interval = monthly").unwrap();
    let addrs = find_match_addresses(&tree, &p);
    assert_eq!(addrs, vec!["updates[1].schedule.interval".to_string()]);
}

#[test]
fn eval_presence_finds_existing_field() {
    let tree = j(r#"{"tool": {"maturin": {"bindings": "pyo3"}}, "project": {"name": "foo"}}"#);
    let p = MatchPredicate::parse("tool.maturin").unwrap();
    let addrs = find_match_addresses(&tree, &p);
    assert!(addrs.contains(&"tool.maturin".to_string()));
}

#[test]
fn eval_presence_misses_when_absent() {
    let tree = j(r#"{"project": {"name": "foo"}}"#);
    let p = MatchPredicate::parse("tool.maturin").unwrap();
    let addrs = find_match_addresses(&tree, &p);
    assert!(addrs.is_empty());
}

#[test]
fn eval_presence_expands_through_any() {
    let tree = j(r#"{"updates": [{"cooldown": {"default-days": 7}}, {}, {"cooldown": {"default-days": 14}}]}"#);
    let p = MatchPredicate::parse("updates[].cooldown").unwrap();
    let addrs = find_match_addresses(&tree, &p);
    assert_eq!(addrs, vec!["updates[0].cooldown".to_string(), "updates[2].cooldown".to_string()]);
}

#[test]
fn eval_absence_finds_anchor_missing_field() {
    let tree = j(r#"{
        "jobs": {
            "release": {
                "steps": [
                    {"uses": "actions/checkout@v4"},
                    {"uses": "PyO3/maturin-action@v1", "with": {"command": "upload"}}
                ]
            }
        }
    }"#);
    let p = MatchPredicate::parse("!name").unwrap();
    let addrs = find_match_addresses(&tree, &p);
    assert!(addrs.contains(&"jobs.release.steps[0]".to_string()));
    assert!(addrs.contains(&"jobs.release.steps[1]".to_string()));
}

#[test]
fn eval_absence_shape_filter() {
    let tree = j(r#"{"items": [1, 2, 3]}"#);
    let p = MatchPredicate::parse("!name").unwrap();
    let addrs = find_match_addresses(&tree, &p);
    assert_eq!(addrs, vec![String::new()]);
}

#[test]
fn match_addresses_have_no_duplicates() {
    let tree = j(r#"{"a": {"b": 1}, "c": [{"b": 1}, {"b": 2}]}"#);
    let p = MatchPredicate::parse("b").unwrap();
    let addrs = find_match_addresses(&tree, &p);
    let mut dedup = addrs.clone();
    dedup.sort();
    dedup.dedup();
    assert_eq!(dedup.len(), addrs.len());
}

#[test]
fn scope_restricts_patterns() {
    let p = MatchPredicate::parse("workflow:uses ^= x").unwrap();
    assert!(p.applies_to_pattern(".github/workflows/*.yml"));
    assert!(!p.applies_to_pattern("pyproject.toml"));
    let q = MatchPredicate::parse("uses ^= x").unwrap();
    assert!(q.applies_to_pattern("pyproject.toml"));
}

#[test]
fn predicate_error_messages() {
    let err = MatchPredicate::parse("!foo = bar").unwrap_err();
    assert_eq!(err.message(), "absence predicate `!path` takes no operator (got =): \"!foo = bar\"");
    let err = MatchPredicate::parse("  ").unwrap_err();
    assert_eq!(err.message(), "match predicate has empty path: \"  \"");
}

#[test]
fn absent_index_anchors_at_arrays() {
    let tree = j(r#"{"a": [], "b": [1], "c": {"d": 1}}"#);
    let p = MatchPredicate::parse("![0]").unwrap();
    assert_eq!(find_match_addresses(&tree, &p), vec!["a".to_string()]);
    let p = MatchPredicate::parse("[0] = 1").unwrap();
    assert!(find_match_addresses(&tree, &p).is_empty());
    let p = MatchPredicate::parse("b[0] = 1").unwrap();
    assert_eq!(find_match_addresses(&tree, &p), vec!["b[0]".to_string()]);
}

#[test]
fn printed_operators_parse_back() {
    for op in [Op::Eq, Op::NotEq, Op::StartsWith, Op::EndsWith, Op::Contains] {
        let p = MatchPredicate::parse(&format!("a {} b", op.as_str())).unwrap();
        assert_eq!(p.op, op);
        assert_eq!(p.rel_path, "a");
        assert_eq!(p.literal, "b");
    }
    assert_eq!(Op::Present.as_str(), "");
    assert_eq!(Op::Absent.as_str(), "");
}

#[test]
fn scope_prefix_only_adds_scope() {
    let p1 = MatchPredicate::parse("workflows:with.command = upload").unwrap();
    let p2 = MatchPredicate::parse("with.command = upload").unwrap();
    assert_eq!(p1.scope.as_deref(), Some("workflows"));
    assert_eq!(p2.scope, None);
    assert_eq!((p1.rel_path, p1.op, p1.literal), (p2.rel_path, p2.op, p2.literal));
    assert_eq!(p1.raw, "workflows:with.command = upload");
}
