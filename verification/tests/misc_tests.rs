use nave::matcher::PathMatcher;
use nave::config::{default_tracked_paths, resolve_pen_root, NaveConfig, PenConfig, SchemasConfig};
use nave::fleet::{
    choose_auth, decide_pull, gh_token_of, is_incremental, keep_repo, later_push, merge_tracked, reconcile_shas,
    record_pull, split_full_name, tracked_blobs, AuthMode, PullAction, PullReport, TrackedFiles, TreeEntry,
};
use nave::json::{Json, JsonEntry};
use nave::parse::{parse_bytes, render, render_outcome, round_trip, Format, RoundTrip};
use nave::paths::{
    checkout_dir, join, logs_dir, meta_path, ops_toml_path, pen_dir, pen_repo_clone_dir, pen_repos_dir, pen_state_dir,
    pen_toml_path, repo_dir, repo_state_dir, run_log_path,
};
use nave::schemas::{
    check_with_block, looks_like_sha, schema_for_path, schemas_for_tracked, step_findings, workflow_action_steps,
    ActionInput, ActionManifest, SchemaId,
};
use nave::validate::{record_file, split_outcome, FileCheck, ValidationReport};

fn s(x: &str) -> Json {
    Json::Str(x.to_string())
}

fn obj(es: Vec<(&str, Json)>) -> Json {
    Json::Object(es.into_iter().map(|(k, v)| JsonEntry { key: k.to_string(), value: v }).collect())
}

#[test]
fn path_layout() {
    assert_eq!(join("a", "b"), "a/b");
    assert_eq!(join("a/", "b"), "a/b");
    assert_eq!(join("a", "/b"), "/b");
    assert_eq!(join("", "b"), "b");
    assert_eq!(meta_path("/c"), "/c/meta.toml");
    assert_eq!(repo_dir("/c", "o", "r"), "/c/repos/o/r");
    assert_eq!(checkout_dir("/c", "o", "r"), "/c/repos/o/r/checkout");
    assert_eq!(pen_dir("/p", "nave/x"), "/p/x");
    assert_eq!(pen_dir("/p", "y"), "/p/y");
    assert_eq!(pen_repos_dir("/p", "nave/x"), "/p/x/repos");
    assert_eq!(pen_toml_path("/p", "nave/x"), "/p/x/pen.toml");
    assert_eq!(pen_repo_clone_dir("/p", "nave/x", "o", "r"), "/p/x/repos/o__r");
    assert_eq!(pen_state_dir("/p", "nave/x"), "/p/x/state");
    assert_eq!(repo_state_dir("/p", "nave/x", "o", "r"), "/p/x/state/o__r");
    assert_eq!(ops_toml_path("/p", "nave/x", "o", "r"), "/p/x/state/o__r/ops.toml");
    assert_eq!(run_log_path("/p", "nave/x", "o", "r"), "/p/x/state/o__r/run-log.toml");
    assert_eq!(logs_dir("/p", "nave/x", "o", "r", "R1"), "/p/x/state/o__r/logs/R1");
}

#[test]
fn formats_from_paths() {
    assert_eq!(Format::from_path("a/b/pyproject.toml"), Some(Format::Toml));
    assert_eq!(Format::from_path("x.YML"), Some(Format::Yaml));
    assert_eq!(Format::from_path("x.yaml/"), Some(Format::Yaml));
    assert_eq!(Format::from_path(".toml"), None);
    assert_eq!(Format::from_path("README"), None);
    assert_eq!(Format::from_path("a.json"), None);
    assert_eq!(Format::from_path("a/.."), None);
}

#[test]
fn round_trips() {
    assert!(round_trip(b"[a]\nb = 1\n", Format::Toml).is_ok());
    assert!(round_trip(b"a:\n  b: 1\n", Format::Yaml).is_ok());
    match round_trip(b"[a\n", Format::Toml) {
        RoundTrip::ParseFailed(e) => assert!(e.starts_with("TOML parse error: ")),
        other => panic!("unexpected {other:?}"),
    }
    match round_trip(&[0xff, 0xfe], Format::Toml) {
        RoundTrip::ParseFailed(e) => assert!(e.starts_with("io error: ")),
        other => panic!("unexpected {other:?}"),
    }
    assert_eq!(RoundTrip::SemanticDrift.label(), "drift");
    assert_eq!(RoundTrip::ReparseFailed("x".into()).label(), "reparse_failed");
    assert!(parse_bytes(b"a: [", Format::Yaml).unwrap_err().starts_with("YAML parse error: "));
}

#[test]
fn validation_tally() {
    let mut report = ValidationReport::default();
    record_file(&mut report, "o", "r", "a.toml", FileCheck::Checked(Format::Toml, RoundTrip::Passed));
    record_file(&mut report, "o", "r", "b", FileCheck::UnknownFormat);
    record_file(&mut report, "o", "r", "c.yml", FileCheck::Missing);
    record_file(&mut report, "o", "r", "d.yml", FileCheck::Checked(Format::Yaml, RoundTrip::ParseFailed("bad".into())));
    assert_eq!(report.totals.ok, 1);
    assert_eq!(report.totals.unknown_format, 1);
    assert_eq!(report.totals.missing, 1);
    assert_eq!(report.totals.parse_failed, 1);
    assert_eq!(report.results.len(), 4);
    assert_eq!(report.results[0].format.as_deref(), Some("toml"));
    assert_eq!(report.results[3].outcome, "parse_failed");
    assert_eq!(report.results[3].detail.as_deref(), Some("bad"));
    assert_eq!(split_outcome(&RoundTrip::SemanticDrift), ("drift", None));
}

#[test]
fn schema_mapping() {
    assert_eq!(schema_for_path(".github/dependabot.yml"), Some(SchemaId::Dependabot));
    assert_eq!(schema_for_path("Dependabot.YAML"), Some(SchemaId::Dependabot));
    assert_eq!(schema_for_path(".github/workflows/ci.yml"), Some(SchemaId::GithubWorkflow));
    assert_eq!(schema_for_path("sub/action.yaml"), Some(SchemaId::GithubAction));
    assert_eq!(schema_for_path("pkg/pyproject.toml"), Some(SchemaId::Pyproject));
    assert_eq!(schema_for_path("Cargo.toml"), None);
    let all = schemas_for_tracked(&default_tracked_paths());
    assert_eq!(all, vec![SchemaId::Dependabot, SchemaId::GithubWorkflow, SchemaId::GithubAction, SchemaId::Pyproject]);
    assert_eq!(schemas_for_tracked(&vec!["Cargo.toml".to_string()]), vec![]);
    assert_eq!(SchemaId::GithubWorkflow.as_str(), "github-workflow");
    assert_eq!(SchemaId::all().len(), 4);
}

fn manifest() -> ActionManifest {
    ActionManifest {
        name: Some("a".into()),
        description: None,
        inputs: vec![
            ("command".into(), ActionInput { description: None, required: true, default: None, deprecation_message: None }),
            (
                "old".into(),
                ActionInput { description: None, required: false, default: None, deprecation_message: Some("use new".into()) },
            ),
            ("target".into(), ActionInput { description: None, required: true, default: Some("x".into()), deprecation_message: None }),
        ],
    }
}

#[test]
fn with_block_checks() {
    let c = check_with_block(&manifest(), &obj(vec![("old", s("1")), ("zzz", s("2"))])).unwrap();
    assert_eq!(c.missing_required, vec!["command".to_string()]);
    assert_eq!(c.unknown, vec!["zzz".to_string()]);
    assert_eq!(c.deprecated_used, vec![("old".to_string(), "use new".to_string())]);
    assert!(!c.is_ok());
    let ok = check_with_block(&manifest(), &obj(vec![("command", s("build"))])).unwrap();
    assert!(ok.is_ok());
    assert_eq!(check_with_block(&manifest(), &s("x")).unwrap_err(), "`with` block must be a mapping");
    assert!(looks_like_sha("0123456789abcdef0123456789ABCDEF01234567"));
    assert!(!looks_like_sha("v1"));
}

#[test]
fn workflow_steps_and_findings() {
    let wf = obj(vec![(
        "jobs",
        obj(vec![(
            "build",
            obj(vec![(
                "steps",
                Json::Array(vec![
                    obj(vec![("run", s("ls"))]),
                    obj(vec![("uses", s("owner/repo@v1")), ("with", obj(vec![("zzz", s("1"))]))]),
                    obj(vec![("uses", s("owner/repo/sub@v1"))]),
                    obj(vec![("uses", s("./local"))]),
                ]),
            )]),
        )]),
    )]);
    let steps = workflow_action_steps(&wf);
    assert_eq!(steps.len(), 1);
    assert_eq!(steps[0].index, 1);
    assert_eq!(steps[0].owner, "owner");
    assert_eq!(steps[0].repo, "repo");
    assert_eq!(steps[0].git_ref, "v1");
    let found = step_findings(&steps[0], &Ok(manifest()));
    assert_eq!(
        found,
        vec![
            "jobs.build.steps[1] uses=owner/repo@v1: missing required input `command`".to_string(),
            "jobs.build.steps[1] uses=owner/repo@v1: unknown input `zzz`".to_string(),
        ]
    );
    let failed = step_findings(&steps[0], &Err("boom".into()));
    assert_eq!(failed, vec!["jobs.build.steps[1] uses=owner/repo@v1: fetch failed: boom".to_string()]);
}

#[test]
fn discovery_helpers() {
    assert_eq!(split_full_name("o/r"), ("o".to_string(), "r".to_string()));
    assert_eq!(split_full_name("r"), (String::new(), "r".to_string()));
    assert!(keep_repo(false, true, false));
    assert!(!keep_repo(false, true, true));
    assert!(!keep_repo(true, false, false));
    assert!(is_incremental(true, &Some("me".into()), "me"));
    assert!(!is_incremental(true, &Some("you".into()), "me"));
    assert!(!is_incremental(false, &Some("me".into()), "me"));
    assert_eq!(later_push(Some(3), Some(5)), Some(5));
    assert_eq!(later_push(Some(7), Some(5)), Some(7));
    assert_eq!(later_push(None, None), None);
    let tree = vec![
        TreeEntry { path: "pyproject.toml".into(), entry_type: "blob".into(), sha: "s1".into() },
        TreeEntry { path: ".github".into(), entry_type: "tree".into(), sha: "s2".into() },
        TreeEntry { path: "Cargo.toml".into(), entry_type: "blob".into(), sha: "s3".into() },
        TreeEntry { path: "README".into(), entry_type: "blob".into(), sha: "s4".into() },
    ];
    let matcher = PathMatcher::new(&default_tracked_paths(), true).unwrap();
    let t = tracked_blobs(&tree, &matcher);
    assert_eq!(t.files, vec![("Cargo.toml".to_string(), "s3".to_string()), ("pyproject.toml".to_string(), "s1".to_string())]);
    let old = TrackedFiles { files: vec![("gone.yml".to_string(), "g".to_string()), ("pyproject.toml".to_string(), "old".to_string())] };
    let merged = merge_tracked(old, t);
    assert_eq!(
        merged.files,
        vec![
            ("Cargo.toml".to_string(), "s3".to_string()),
            ("gone.yml".to_string(), "g".to_string()),
            ("pyproject.toml".to_string(), "s1".to_string()),
        ]
    );
    let (mismatches, updated) = reconcile_shas(&merged, &vec![Some("s3".into()), None, Some("new".into())]);
    assert_eq!(mismatches, 2);
    assert_eq!(updated.unwrap().files[2], ("pyproject.toml".to_string(), "new".to_string()));
}

#[test]
fn auth_and_pull() {
    match choose_auth(Some("tok".into()), true, Some("gh".into())) {
        AuthMode::Token { token, source } => {
            assert_eq!(token, "tok");
            assert_eq!(source, "token_env");
        },
        other => panic!("unexpected {other:?}"),
    }
    assert_eq!(choose_auth(Some(String::new()), true, Some("g".into())).label(), "gh");
    assert_eq!(choose_auth(None, false, Some("g".into())).label(), "anonymous");
    assert_eq!(choose_auth(None, true, Some("g".into())).token(), Some("g"));
    assert_eq!(gh_token_of(true, b"  abc\n"), Some("abc".to_string()));
    assert_eq!(gh_token_of(true, b" \n"), None);
    assert_eq!(gh_token_of(false, b"abc"), None);
    assert_eq!(decide_pull(false, false), PullAction::FreshClone);
    assert_eq!(decide_pull(true, false), PullAction::Reclone);
    assert_eq!(decide_pull(true, true), PullAction::Update);
    let mut r = PullReport::default();
    record_pull(&mut r, Some((PullAction::Update, 2)));
    record_pull(&mut r, None);
    assert_eq!((r.updated, r.failed, r.sha_mismatches), (1, 1, 2));
}

#[test]
fn config_defaults() {
    let c = NaveConfig::default();
    assert_eq!(c.github.per_page, 100);
    assert_eq!(c.github.api_base, "https://api.github.com");
    assert_eq!(c.scan.tracked_paths.len(), 8);
    assert!(c.scan.case_insensitive);
    let sc = SchemasConfig::default();
    let keys: Vec<&str> = sc.sources.iter().map(|(k, _)| k.as_str()).collect();
    assert_eq!(keys, vec!["dependabot", "github-action", "github-workflow", "pyproject"]);
    let pc = PenConfig { root: None, branch_prefix: None };
    assert_eq!(resolve_pen_root(&pc, Some("/home/u".into())).unwrap(), "/home/u/.local/share/nave/pens");
    assert!(resolve_pen_root(&pc, None).is_err());
    let pc = PenConfig { root: Some("/x".into()), branch_prefix: None };
    assert_eq!(resolve_pen_root(&pc, None).unwrap(), "/x");
}

#[test]
fn render_outcome_prefixes_errors_only() {
    assert_eq!(render_outcome(Format::Toml, Ok("a = 1\n".to_string())), Ok("a = 1\n".to_string()));
    assert_eq!(
        render_outcome(Format::Toml, Err("bad".to_string())),
        Err("TOML serialize error: bad".to_string())
    );
    assert_eq!(
        render_outcome(Format::Yaml, Err("bad".to_string())),
        Err("YAML serialize error: bad".to_string())
    );
}

#[test]
fn render_writes_parsed_documents() {
    let doc = parse_bytes(b"a = 1\n", Format::Toml).unwrap();
    assert_eq!(render(&doc), Ok("a = 1\n".to_string()));
    let doc = parse_bytes(b"a: 1\n", Format::Yaml).unwrap();
    assert_eq!(render(&doc), Ok("a: 1\n".to_string()));
}

#[test]
fn schemas_for_pattern_lists_unite() {
    let all = schemas_for_tracked(&default_tracked_paths());
    assert_eq!(all, vec![SchemaId::Dependabot, SchemaId::GithubWorkflow, SchemaId::GithubAction, SchemaId::Pyproject]);
    assert!(schemas_for_tracked(&vec![]).is_empty());
    let a = vec!["pyproject.toml".to_string()];
    let b = vec![".github/dependabot.yml".to_string()];
    let ab: Vec<String> = a.iter().chain(b.iter()).cloned().collect();
    assert_eq!(schemas_for_tracked(&ab), vec![SchemaId::Dependabot, SchemaId::Pyproject]);
}

#[test]
fn schema_detection_ignores_case() {
    for p in [".github/workflows/ci.yml", "sub/Action.YAML", "PyProject.toml", ".github/dependabot.yml"] {
        assert_eq!(schema_for_path(p), schema_for_path(&p.to_ascii_lowercase()));
        assert_eq!(schema_for_path(p), schema_for_path(&p.to_ascii_uppercase()));
    }
}
