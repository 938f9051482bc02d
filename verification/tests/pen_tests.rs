use nave::json::{Json, JsonEntry, JsonNumber};
use nave::parse::Format;
use nave::pen::{
    aggregate_op_statuses, blame_validation, derive_name, divergence_of, ensure_name_unique, freshness_of,
    ledger_after_run, local_ahead, parse_filters, preflight, repo_matches_only, run_state_of, slugify, stage_ops,
    staging_log_items, working_tree_of, AppliedRecord, Divergence, FailedRecord, FileLoad, Freshness, ListFilters,
    PenRepo, RepoOpsState, RepoState, RewriteRefusal, RunOutcome, RunState, Staged, TrackedLoad, WorkTree,
    validation_step, write_decision, FileCheckOutcome, WriteDecision,
};
use nave::rewrite::{Action, OpOutcome, OpStatus, RewriteOp, Selector};

fn n(i: i64) -> Json {
    Json::Number(JsonNumber { text: i.to_string(), is_integer: true })
}

fn obj(es: Vec<(&str, Json)>) -> Json {
    Json::Object(es.into_iter().map(|(k, v)| JsonEntry { key: k.to_string(), value: v }).collect())
}

fn op(id: &str, pred: &str, action: Action) -> RewriteOp {
    RewriteOp {
        id: id.to_string(),
        selector: Selector::Predicate { predicate: pred.to_string() },
        action,
        status: OpStatus::Pending,
    }
}

#[test]
fn working_tree_from_porcelain() {
    assert_eq!(working_tree_of(false, b""), WorkTree::Missing);
    assert_eq!(working_tree_of(true, b"\n \n"), WorkTree::Clean);
    assert_eq!(working_tree_of(true, b" M file.toml\n"), WorkTree::Dirty);
}

#[test]
fn freshness_against_cache() {
    assert_eq!(freshness_of(None, 5), Freshness::Stale);
    assert_eq!(freshness_of(Some(None), 5), Freshness::Unknown);
    assert_eq!(freshness_of(Some(Some(6)), 5), Freshness::Stale);
    assert_eq!(freshness_of(Some(Some(5)), 5), Freshness::Fresh);
}

#[test]
fn run_state_and_divergence() {
    assert_eq!(local_ahead(true, b" 3\n"), 3);
    assert_eq!(local_ahead(true, b"x"), 0);
    assert_eq!(local_ahead(false, b"3"), 0);
    assert_eq!(run_state_of(0, true, true), RunState::NotRun);
    assert_eq!(run_state_of(2, true, true), RunState::RunPushed);
    assert_eq!(run_state_of(2, true, false), RunState::RunLocal);
    assert_eq!(divergence_of(false, b"1 2"), (Divergence::UpToDate, 0, 0));
    assert_eq!(divergence_of(true, b"0\t0\n"), (Divergence::UpToDate, 0, 0));
    assert_eq!(divergence_of(true, b"2\t0\n"), (Divergence::Ahead, 2, 0));
    assert_eq!(divergence_of(true, b"0\t4\n"), (Divergence::Behind, 0, 4));
    assert_eq!(divergence_of(true, b"1\t4\n"), (Divergence::Diverged, 1, 4));
    assert_eq!(divergence_of(true, b"x 4"), (Divergence::Behind, 0, 4));
}

#[test]
fn slugs_and_names() {
    assert_eq!(slugify("Hello, World!"), "hello-world");
    assert_eq!(slugify("--"), "pen");
    assert_eq!(slugify("a__b"), "a-b");
    assert_eq!(derive_name(&vec!["workflow:PyO3/maturin-action".to_string()]), "nave/pyo3-maturin-action");
    assert_eq!(derive_name(&vec![]), "nave/pen");
    assert_eq!(derive_name(&vec!["abcdefghijklmnopqrstuvwxyz".to_string()]), "nave/abcdefghijklmnopqrst");
    let existing = vec!["maturin".to_string(), "maturin-2".to_string()];
    assert_eq!(ensure_name_unique(&"nave/maturin".to_string(), &existing).unwrap(), "nave/maturin-3");
    assert_eq!(ensure_name_unique(&"nave/other".to_string(), &existing).unwrap(), "nave/other");
}

#[test]
fn only_selects_by_full_or_bare_name() {
    assert!(repo_matches_only(&"o".to_string(), &"r".to_string(), &None));
    assert!(repo_matches_only(&"o".to_string(), &"r".to_string(), &Some("o/r".to_string())));
    assert!(repo_matches_only(&"o".to_string(), &"r".to_string(), &Some("r".to_string())));
    assert!(!repo_matches_only(&"o".to_string(), &"r".to_string(), &Some("o".to_string())));
}

#[test]
fn preflight_refusals() {
    let repos = vec![PenRepo {
        owner: "o".into(),
        name: "r".into(),
        default_branch: "main".into(),
        clone_url: "u".into(),
        synced_at: 0,
    }];
    let err = preflight(&"nave/p".to_string(), &vec![], &repos, &None).unwrap_err();
    assert_eq!(err.message(), "pen nave/p has no ops defined; nothing to rewrite");
    let ops = vec![op("bad", "!x = 1", Action::Delete)];
    let err = preflight(&"nave/p".to_string(), &ops, &repos, &None).unwrap_err();
    assert!(matches!(err, RewriteRefusal::MalformedSelector { .. }));
    let ops = vec![op("ok", "x", Action::Delete)];
    assert_eq!(preflight(&"nave/p".to_string(), &ops, &repos, &None).unwrap(), vec![0]);
    let err = preflight(&"nave/p".to_string(), &ops, &repos, &Some("zzz".to_string())).unwrap_err();
    assert_eq!(err.message(), "no repos selected (check --only)");
    let dirty = RewriteRefusal::Dirty { repos: vec!["o/r".to_string(), "o/s".to_string()] };
    assert_eq!(
        dirty.message(),
        "refusing to rewrite: 2 repo(s) have uncommitted changes; resolve via `pen clean`, commit, or pass --allow-dirty:\n  o/r\n  o/s"
    );
}

#[test]
fn staging_applies_skips_and_rolls_back() {
    let files = vec![
        TrackedLoad { relpath: "a.toml".into(), load: FileLoad::Loaded(Format::Toml, obj(vec![("x", n(1)), ("y", n(2))])) },
        TrackedLoad { relpath: "notes.txt".into(), load: FileLoad::UnknownFormat },
    ];
    let set = op("set-x", "x = 1", Action::SetValue { value: n(5) });
    let skip = op("done", "y", Action::Delete);
    let ops = vec![&set, &skip];
    let out = stage_ops(&files, &ops, &vec!["done".to_string()], false);
    assert_eq!(out.ops.len(), 2);
    assert!(matches!(out.ops[0].outcome, OpOutcome::Applied));
    assert_eq!(out.ops[0].files, vec!["a.toml".to_string()]);
    assert_eq!(out.ops[0].addresses, vec!["x".to_string()]);
    assert!(matches!(out.ops[1].outcome, OpOutcome::NoTargets));
    assert_eq!(out.skipped, vec![false, true]);
    assert!(out.rollback_trigger.is_none());
    match &out.staged[0] {
        Some(Staged::Tree(Format::Toml, t)) => assert_eq!(t, &obj(vec![("x", n(5)), ("y", n(2))])),
        other => panic!("unexpected {other:?}"),
    }
    assert!(out.staged[1].is_none());
    let log = staging_log_items(&out, false);
    assert_eq!(log.len(), 1);
    assert_eq!(log[0].outcome, RunOutcome::Skipped);

    let broken = vec![TrackedLoad { relpath: "b.toml".into(), load: FileLoad::Unparsable("bad".into()) }];
    let del = op("del", "x", Action::Delete);
    let out = stage_ops(&broken, &vec![&del, &set], &vec![], false);
    assert_eq!(out.ops.len(), 1);
    match &out.ops[0].outcome {
        OpOutcome::Failed { reason } => assert_eq!(reason, "parse b.toml: bad"),
        other => panic!("unexpected {other:?}"),
    }
    assert_eq!(out.rollback_trigger.as_deref(), Some("del"));
    let log = staging_log_items(&out, true);
    assert_eq!(log[0].outcome, RunOutcome::FailedNoRollback);
}

#[test]
fn deletes_run_in_descending_address_order() {
    let files = vec![TrackedLoad {
        relpath: "c.yaml".into(),
        load: FileLoad::Loaded(Format::Yaml, obj(vec![("xs", Json::Array(vec![n(1), n(2), n(1)]))])),
    }];
    let del = op("drop-ones", "xs[] = 1", Action::Delete);
    let out = stage_ops(&files, &vec![&del], &vec![], false);
    assert_eq!(out.ops[0].addresses, vec!["xs[2]".to_string(), "xs[0]".to_string()]);
    match &out.staged[0] {
        Some(Staged::Tree(_, t)) => assert_eq!(t, &obj(vec![("xs", Json::Array(vec![n(2)]))])),
        other => panic!("unexpected {other:?}"),
    }
}

#[test]
fn ledger_and_statuses() {
    let prior = RepoOpsState {
        ops: vec![],
        failed: vec![("a".to_string(), FailedRecord { failed_at: 1, reason: "old".into() })],
    };
    let outcomes = vec![
        nave::pen::RewriteOpOutcome { op_id: "a".into(), outcome: OpOutcome::Applied, files: vec!["f".into()], addresses: vec!["x".into()] },
        nave::pen::RewriteOpOutcome { op_id: "b".into(), outcome: OpOutcome::NoTargets, files: vec![], addresses: vec![] },
        nave::pen::RewriteOpOutcome { op_id: "c".into(), outcome: OpOutcome::Failed { reason: "boom".into() }, files: vec![], addresses: vec![] },
    ];
    let (state, log) = ledger_after_run(&prior, &outcomes, 9, true);
    assert_eq!(state.ops.len(), 1);
    assert_eq!(state.ops[0].0, "a");
    assert_eq!(state.ops[0].1.applied_at, 9);
    assert_eq!(state.failed.len(), 1);
    assert_eq!(state.failed[0].0, "c");
    assert_eq!(state.failed[0].1.reason, "boom");
    assert_eq!(log.len(), 2);
    assert_eq!(log[0].outcome, RunOutcome::Applied);
    assert_eq!(log[1].outcome, RunOutcome::NoTargets);

    let other = RepoOpsState { ops: vec![], failed: vec![] };
    let statuses = aggregate_op_statuses(&vec!["c".to_string(), "a".to_string(), "z".to_string()], &vec![state.clone(), other.clone()]);
    assert_eq!(
        statuses,
        vec![("a".to_string(), OpStatus::Partial), ("c".to_string(), OpStatus::Failed), ("z".to_string(), OpStatus::Pending)]
    );
    let done = RepoOpsState { ops: vec![("a".to_string(), AppliedRecord { applied_at: 3 })], failed: vec![] };
    let statuses = aggregate_op_statuses(&vec!["a".to_string()], &vec![done.clone(), done]);
    assert_eq!(statuses, vec![("a".to_string(), OpStatus::Applied)]);
}

#[test]
fn validation_blames_last_applied_op() {
    let mut ops = vec![
        nave::pen::RewriteOpOutcome { op_id: "a".into(), outcome: OpOutcome::Applied, files: vec!["f".into()], addresses: vec![] },
        nave::pen::RewriteOpOutcome { op_id: "b".into(), outcome: OpOutcome::Applied, files: vec!["f".into()], addresses: vec![] },
    ];
    let t = blame_validation(&mut ops, &"f".to_string(), vec!["bad".into()]);
    assert_eq!(t, "b");
    assert!(matches!(ops[1].outcome, OpOutcome::ValidationFailed { .. }));
    let t = blame_validation(&mut ops, &"g".to_string(), vec!["bad".into()]);
    assert_eq!(t, "validation@g");
}

#[test]
fn list_filters() {
    let f = parse_filters(&vec!["working-tree=dirty".to_string(), "run-state=run-local".to_string()]).unwrap();
    assert_eq!(f.working_tree, Some(WorkTree::Dirty));
    assert_eq!(f.run_state, Some(RunState::RunLocal));
    assert_eq!(parse_filters(&vec!["x".to_string()]).unwrap_err(), "filter must be key=value: \"x\"");
    assert_eq!(parse_filters(&vec!["freshness=unknown".to_string()]).unwrap().freshness, Some(Freshness::Unknown));
    assert_eq!(parse_filters(&vec!["freshness=old".to_string()]).unwrap_err(), "unknown freshness value \"old\"");
    assert_eq!(parse_filters(&vec!["k=v".to_string()]).unwrap_err(), "unknown filter key \"k\"");
    let mut st = RepoState::missing("o", "r");
    st.working_tree = WorkTree::Dirty;
    st.run_state = RunState::RunLocal;
    assert!(f.all_match(&vec![st.clone()]));
    let none = ListFilters { working_tree: None, freshness: None, run_state: None };
    assert!(none.all_match(&vec![]));
    assert!(!f.all_match(&vec![]));
    let g = parse_filters(&vec!["freshness=fresh".to_string()]).unwrap();
    assert!(!g.all_match(&vec![st]));
}

#[test]
fn write_decisions() {
    assert_eq!(write_decision(true, false, false, false), WriteDecision::Preview);
    assert_eq!(write_decision(false, true, true, true), WriteDecision::Preview);
    assert_eq!(write_decision(false, false, false, false), WriteDecision::Commit);
    assert_eq!(write_decision(false, false, true, true), WriteDecision::CommitPartial);
    assert_eq!(write_decision(false, false, true, false), WriteDecision::RollBack);
    assert!(WriteDecision::CommitPartial.writes_files());
    assert!(!WriteDecision::CommitPartial.committed());
    assert!(WriteDecision::Commit.committed());
    assert!(!WriteDecision::RollBack.writes_files());
}

#[test]
fn validation_steps_set_triggers() {
    let mut ops = vec![nave::pen::RewriteOpOutcome {
        op_id: "a".into(),
        outcome: OpOutcome::Applied,
        files: vec!["f".into()],
        addresses: vec![],
    }];
    let path = "f".to_string();
    assert_eq!(validation_step(&mut ops, &path, FileCheckOutcome::Valid), None);
    assert_eq!(validation_step(&mut ops, &path, FileCheckOutcome::Invalid(vec![])), None);
    assert!(matches!(ops[0].outcome, OpOutcome::Applied));
    assert_eq!(
        validation_step(&mut ops, &path, FileCheckOutcome::ValidatorFailed("boom".into())),
        Some("validator@f: boom".to_string())
    );
    assert_eq!(
        validation_step(&mut ops, &path, FileCheckOutcome::NotTree("opaque".into())),
        Some("to_json f: opaque".to_string())
    );
    assert_eq!(
        validation_step(&mut ops, &path, FileCheckOutcome::Invalid(vec!["bad".into()])),
        Some("a".to_string())
    );
    assert!(matches!(ops[0].outcome, OpOutcome::ValidationFailed { .. }));
}
