use nave::address::subtree_at;
use nave::json::{Json, JsonEntry, JsonNumber};
use nave::parse::Format;
use nave::rewrite::{apply_at, plan_rewrite, Action, ApplyError, OpOutcome, OpStatus, RewriteOp, Selector};

fn from_toml(v: &toml::Value) -> Json {
    match v {
        toml::Value::String(s) => Json::Str(s.clone()),
        toml::Value::Integer(i) => Json::Number(JsonNumber { text: i.to_string(), is_integer: true }),
        toml::Value::Float(f) => Json::Number(JsonNumber { text: f.to_string(), is_integer: false }),
        toml::Value::Boolean(b) => Json::Bool(*b),
        toml::Value::Datetime(d) => Json::Str(d.to_string()),
        toml::Value::Array(a) => Json::Array(a.iter().map(from_toml).collect()),
        toml::Value::Table(t) => Json::Object(
            t.iter().map(|(k, v)| JsonEntry { key: k.clone(), value: from_toml(v) }).collect(),
        ),
    }
}

fn from_yaml(v: &serde_norway::Value) -> Json {
    match v {
        serde_norway::Value::Null => Json::Null,
        serde_norway::Value::Bool(b) => Json::Bool(*b),
        serde_norway::Value::Number(n) => Json::Number(JsonNumber {
            text: n.to_string(),
            is_integer: n.is_i64() || n.is_u64(),
        }),
        serde_norway::Value::String(s) => Json::Str(s.clone()),
        serde_norway::Value::Sequence(s) => Json::Array(s.iter().map(from_yaml).collect()),
        serde_norway::Value::Mapping(m) => Json::Object(
            m.iter()
                .map(|(k, v)| JsonEntry {
                    key: match k {
                        serde_norway::Value::String(s) => s.clone(),
                        other => serde_norway::to_string(other).unwrap().trim().to_string(),
                    },
                    value: from_yaml(v),
                })
                .collect(),
        ),
        serde_norway::Value::Tagged(t) => from_yaml(&t.value),
    }
}

fn toml_doc(s: &str) -> Json {
    from_toml(&toml::from_str::<toml::Value>(s).unwrap())
}

fn yaml_doc(s: &str) -> Json {
    from_yaml(&serde_norway::from_str::<serde_norway::Value>(s).unwrap())
}

fn get<'a>(v: &'a Json, key: &str) -> Option<&'a Json> {
    match v {
        Json::Object(es) => es.iter().find(|e| e.key == key).map(|e| &e.value),
        _ => None,
    }
}

fn keys(v: &Json) -> Vec<String> {
    match v {
        Json::Object(es) => es.iter().map(|e| e.key.clone()).collect(),
        _ => vec![],
    }
}

fn s(x: &str) -> Json {
    Json::Str(x.to_string())
}

#[test]
fn toml_set_string() {
    let mut doc = toml_doc("[project]\nname = \"old\"");
    apply_at(&mut doc, Format::Toml, "project.name", &Action::SetValue { value: s("new") }).unwrap();
    assert_eq!(get(get(&doc, "project").unwrap(), "name"), Some(&s("new")));
}

#[test]
fn toml_delete_key() {
    let mut doc = toml_doc("[tool.maturin]\nbindings = \"pyo3\"");
    apply_at(&mut doc, Format::Toml, "tool.maturin.bindings", &Action::Delete).unwrap();
    let maturin = get(get(&doc, "tool").unwrap(), "maturin").unwrap();
    assert!(keys(maturin).is_empty());
}

#[test]
fn toml_rename_key() {
    let mut doc = toml_doc("[a]\nold = 1");
    apply_at(&mut doc, Format::Toml, "a.old", &Action::RenameKey { to: "renamed".into() }).unwrap();
    let a = get(&doc, "a").unwrap();
    assert_eq!(
        get(a, "renamed"),
        Some(&Json::Number(JsonNumber { text: "1".to_string(), is_integer: true }))
    );
    assert!(get(a, "old").is_none());
}

#[test]
fn yaml_set_string_in_array() {
    let mut doc = yaml_doc("updates:\n  - schedule:\n      interval: weekly\n");
    apply_at(&mut doc, Format::Yaml, "updates[0].schedule.interval", &Action::SetValue { value: s("monthly") })
        .unwrap();
    let interval = subtree_at(&doc, "updates[0].schedule.interval").unwrap();
    assert_eq!(interval, s("monthly"));
}

#[test]
fn missing_address_errors() {
    let mut doc = toml_doc("[project]\nname = \"x\"");
    let err = apply_at(&mut doc, Format::Toml, "project.absent", &Action::Delete).unwrap_err();
    assert!(matches!(err, ApplyError::AddressNotFound { .. }));
}

#[test]
fn set_then_read_back() {
    let mut doc = toml_doc("[a]\nb = [1, 2, 3]\n");
    apply_at(&mut doc, Format::Toml, "a.b[1]", &Action::SetValue { value: s("two") }).unwrap();
    assert_eq!(subtree_at(&doc, "a.b[1]").unwrap(), s("two"));
    apply_at(&mut doc, Format::Toml, "a.c", &Action::SetValue { value: s("new") }).unwrap();
    assert_eq!(subtree_at(&doc, "a.c").unwrap(), s("new"));
}

#[test]
fn toml_keeps_keys_sorted_and_yaml_appends() {
    let mut t = toml_doc("[a]\nx = 1\nz = 2\n");
    apply_at(&mut t, Format::Toml, "a.x", &Action::InsertSibling { key: "y".into(), value: s("v") }).unwrap();
    assert_eq!(keys(get(&t, "a").unwrap()), vec!["x", "y", "z"]);
    let mut y = yaml_doc("a:\n  x: 1\n  z: 2\n");
    apply_at(&mut y, Format::Yaml, "a.x", &Action::InsertSibling { key: "y".into(), value: s("v") }).unwrap();
    assert_eq!(keys(get(&y, "a").unwrap()), vec!["x", "z", "y"]);
}

#[test]
fn yaml_delete_moves_last_key_into_the_gap() {
    let mut y = yaml_doc("a:\n  p: 1\n  q: 2\n  r: 3\n");
    apply_at(&mut y, Format::Yaml, "a.p", &Action::Delete).unwrap();
    assert_eq!(keys(get(&y, "a").unwrap()), vec!["r", "q"]);
    let mut t = toml_doc("[a]\np = 1\nq = 2\nr = 3\n");
    apply_at(&mut t, Format::Toml, "a.p", &Action::Delete).unwrap();
    assert_eq!(keys(get(&t, "a").unwrap()), vec!["q", "r"]);
}

#[test]
fn toml_refuses_null() {
    let mut doc = toml_doc("[a]\nb = 1\n");
    let before = toml_doc("[a]\nb = 1\n");
    let err = apply_at(&mut doc, Format::Toml, "a.b", &Action::SetValue { value: Json::Null }).unwrap_err();
    assert_eq!(err, ApplyError::ValueConversion("TOML has no null type; cannot set null".to_string()));
    assert_eq!(doc, before);
    let nested = Json::Array(vec![Json::Null]);
    let err = apply_at(&mut doc, Format::Toml, "a.b", &Action::SetValue { value: nested }).unwrap_err();
    match err {
        ApplyError::ValueConversion(m) => assert!(m.starts_with("json → toml: ")),
        other => panic!("unexpected {other:?}"),
    }
    let mut y = yaml_doc("a:\n  b: 1\n");
    apply_at(&mut y, Format::Yaml, "a.b", &Action::SetValue { value: Json::Null }).unwrap();
    assert_eq!(subtree_at(&y, "a.b").unwrap(), Json::Null);
}

#[test]
fn refusals_name_the_action() {
    let mut doc = toml_doc("[a]\nb = [1]\n");
    let err = apply_at(&mut doc, Format::Toml, "", &Action::Delete).unwrap_err();
    assert_eq!(
        err.message(),
        "action delete not valid at address \"\": empty address (root); rewriting the entire document is not supported"
    );
    let err = apply_at(&mut doc, Format::Toml, "a.b[0]", &Action::RenameKey { to: "x".into() }).unwrap_err();
    assert_eq!(err.message(), "action rename_key not valid at address \"a.b[0]\": address must end in an object key");
    let err = apply_at(&mut doc, Format::Toml, "a.b[]", &Action::Delete).unwrap_err();
    assert_eq!(
        err.message(),
        "action delete not valid at address \"a.b[]\": wildcard in concrete address (planning bug)"
    );
    let err = apply_at(&mut doc, Format::Toml, "a.b.c", &Action::Delete).unwrap_err();
    assert_eq!(err.message(), "action delete not valid at address \"a.b.c\": parent is not a table");
    let err = apply_at(&mut doc, Format::Toml, "a[", &Action::Delete).unwrap_err();
    assert_eq!(err.message(), "address \"a[\" parse failed: unclosed `[` in address: \"a[\"");
    let err = apply_at(&mut doc, Format::Toml, "a.b[5]", &Action::Delete).unwrap_err();
    assert_eq!(err.message(), "address \"a.b[5]\" did not resolve in document");
}

#[test]
fn plan_resolves_predicate_addresses() {
    let tree = toml_doc("[tool.maturin]\nbindings = \"pyo3\"\n");
    let op = RewriteOp {
        id: "drop-bindings".into(),
        selector: Selector::Predicate { predicate: "tool.maturin.bindings = pyo3".into() },
        action: Action::Delete,
        status: OpStatus::default(),
    };
    let plan = plan_rewrite(&op, &tree).unwrap();
    assert_eq!(plan.addresses, vec!["tool.maturin.bindings".to_string()]);
    assert!(!plan.is_empty());
    let bad = RewriteOp {
        id: "bad".into(),
        selector: Selector::Predicate { predicate: "!x = y".into() },
        action: Action::Delete,
        status: OpStatus::Pending,
    };
    let err = plan_rewrite(&bad, &tree).unwrap_err();
    assert!(err.message().starts_with("parsing selector predicate \"!x = y\": absence predicate"));
}

#[test]
fn outcome_success() {
    assert!(OpOutcome::Applied.is_success());
    assert!(OpOutcome::NoTargets.is_success());
    assert!(!OpOutcome::Failed { reason: "x".into() }.is_success());
    assert!(!OpOutcome::ValidationFailed { errors: vec![] }.is_success());
}
