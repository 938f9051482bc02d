use nave::antiunify::{anti_unify, Observations, Template};
use nave::factor::{factor_group, find_factors, optional_key_presences, sorted_set};
use nave::fleet::{
    choose_auth, decide_pull, gh_token_of, keep_repo, later_push, link_is_sliceable, merge_tracked, next_link,
    reconcile_shas, split_full_name, tracked_blobs, AuthMode, PullAction, TrackedFiles, TreeEntry,
};
use nave::holes::{enrich_checked, short_snippet, snippet_text_fits, snippets_fit, MatchedFile};
use nave::json::{json_eq, to_text, Json, JsonEntry, JsonNumber};
use nave::matcher::PathMatcher;
use nave::order::{stable_order_by_count_desc, stable_order_by_pair, stable_order_by_stamp_desc, stable_order_by_text};
use nave::paths::{checkout_dir, join, pen_dir, pen_repo_clone_dir};
use nave::pen::diff_for;
use nave::refs::{ls_remote_sha, RefLookupError};
use nave::report::{classify_hole, pep503_eq, render_template, tally_values, HoleKind};
use nave::search::{repo_order, FileMatch, MatchFileHit, MatchHit, RepoMatch, SortKey, TermHit};
use nave::sources::collect_matched;
use nave::term::Term;
use nave::text::{chars_of, decimal_exec, parse_usize_exec, string_of, trim_exec};

fn num(n: i64) -> Json {
    Json::Number(JsonNumber { text: n.to_string(), is_integer: true })
}

fn s(x: &str) -> Json {
    Json::Str(x.to_string())
}

fn obj(entries: Vec<(&str, Json)>) -> Json {
    Json::Object(entries.into_iter().map(|(k, v)| JsonEntry { key: k.to_string(), value: v }).collect())
}

fn repo(owner: &str, name: &str, pushed: Option<i128>) -> RepoMatch {
    RepoMatch { owner: owner.to_string(), repo: name.to_string(), pushed_at: pushed, hits: vec![], match_hits: vec![] }
}

// --- pagination -----------------------------------------------------------

#[test]
fn next_link_takes_the_next_page() {
    let h = r#"<https://api.github.com/user/repos?page=2>; rel="next", <https://api.github.com/user/repos?page=5>; rel="last""#;
    assert!(link_is_sliceable(h));
    assert_eq!(next_link(h), Some("https://api.github.com/user/repos?page=2".to_string()));
}

#[test]
fn next_link_none_without_next_part() {
    let h = r#"<https://x/?page=1>; rel="prev", <https://x/?page=5>; rel="last""#;
    assert!(link_is_sliceable(h));
    assert_eq!(next_link(h), None);
    assert_eq!(next_link(""), None);
}

#[test]
fn next_link_part_order_does_not_matter() {
    let h = r#"<https://x/?page=1>; rel="prev",  <https://x/?page=3>; rel="next""#;
    assert_eq!(next_link(h), Some("https://x/?page=3".to_string()));
}

#[test]
fn misordered_brackets_cannot_be_cut() {
    assert!(!link_is_sliceable(r#">https://x<; rel="next""#));
}

// --- discovery -----------------------------------------------------------

#[test]
fn full_names_split_at_the_first_slash() {
    assert_eq!(split_full_name("octo/cat"), ("octo".to_string(), "cat".to_string()));
    assert_eq!(split_full_name("lonely"), (String::new(), "lonely".to_string()));
    assert_eq!(split_full_name("a/b/c"), ("a".to_string(), "b/c".to_string()));
}

#[test]
fn archived_and_excluded_forks_are_dropped() {
    assert!(keep_repo(false, false, true));
    assert!(!keep_repo(true, false, false));
    assert!(!keep_repo(false, true, true));
    assert!(keep_repo(false, true, false));
}

#[test]
fn later_push_keeps_the_latest() {
    assert_eq!(later_push(None, Some(5)), Some(5));
    assert_eq!(later_push(Some(7), Some(5)), Some(7));
    assert_eq!(later_push(Some(3), Some(5)), Some(5));
    assert_eq!(later_push(Some(3), None), Some(3));
}

#[test]
fn tracked_blobs_keep_tracked_paths_only() {
    let tree = vec![
        TreeEntry { path: "pyproject.toml".into(), entry_type: "blob".into(), sha: "a1".into() },
        TreeEntry { path: "README.md".into(), entry_type: "blob".into(), sha: "b2".into() },
        TreeEntry { path: ".github".into(), entry_type: "tree".into(), sha: "c3".into() },
    ];
    let paths = vec!["pyproject.toml".to_string(), ".github".to_string()];
    let matcher = PathMatcher::new(&paths, false).unwrap();
    let t = tracked_blobs(&tree, &matcher);
    assert_eq!(t.files, vec![("pyproject.toml".to_string(), "a1".to_string())]);
}

#[test]
fn tracked_blobs_follow_globs() {
    let tree = vec![
        TreeEntry { path: ".github/workflows/ci.yml".into(), entry_type: "blob".into(), sha: "s".into() },
        TreeEntry { path: ".github/workflows/CI.YML".into(), entry_type: "blob".into(), sha: "u".into() },
        TreeEntry { path: ".github/workflows".into(), entry_type: "tree".into(), sha: "t".into() },
        TreeEntry { path: "docs/ci.yml".into(), entry_type: "blob".into(), sha: "d".into() },
    ];
    let paths = vec![".github/workflows/*.yml".to_string()];
    let matcher = PathMatcher::new(&paths, true).unwrap();
    let t = tracked_blobs(&tree, &matcher);
    assert_eq!(
        t.files,
        vec![
            (".github/workflows/CI.YML".to_string(), "u".to_string()),
            (".github/workflows/ci.yml".to_string(), "s".to_string()),
        ]
    );
    let exact = PathMatcher::new(&paths, false).unwrap();
    let t = tracked_blobs(&tree, &exact);
    assert_eq!(t.files, vec![(".github/workflows/ci.yml".to_string(), "s".to_string())]);
}

#[test]
fn merge_keeps_old_keys_and_new_values_win() {
    let old = TrackedFiles { files: vec![("a".into(), "1".into()), ("b".into(), "2".into())] };
    let new = TrackedFiles { files: vec![("b".into(), "9".into()), ("c".into(), "3".into())] };
    let m = merge_tracked(old, new);
    assert_eq!(
        m.files,
        vec![("a".to_string(), "1".to_string()), ("b".to_string(), "9".to_string()), ("c".to_string(), "3".to_string())]
    );
}

#[test]
fn auth_prefers_env_then_gh() {
    match choose_auth(Some("tok".into()), true, Some("ghtok".into())) {
        AuthMode::Token { token, source } => {
            assert_eq!(token, "tok");
            assert_eq!(source, "token_env");
        }
        AuthMode::Anonymous => panic!("expected a token"),
    }
    match choose_auth(Some(String::new()), true, Some("ghtok".into())) {
        AuthMode::Token { token, source } => {
            assert_eq!(token, "ghtok");
            assert_eq!(source, "gh");
        }
        AuthMode::Anonymous => panic!("expected a token"),
    }
    assert!(matches!(choose_auth(None, false, Some("ghtok".into())), AuthMode::Anonymous));
    assert_eq!(gh_token_of(true, b"  abc\n"), Some("abc".to_string()));
    assert_eq!(gh_token_of(true, b" \n"), None);
    assert_eq!(gh_token_of(false, b"abc"), None);
}

#[test]
fn pull_plans() {
    assert_eq!(decide_pull(false, false), PullAction::FreshClone);
    assert_eq!(decide_pull(true, true), PullAction::Update);
    assert_eq!(decide_pull(true, false), PullAction::Reclone);
}

#[test]
fn drifted_shas_are_counted_and_recorded() {
    let known = TrackedFiles { files: vec![("a".into(), "1".into()), ("b".into(), "2".into()), ("c".into(), "3".into())] };
    let seen = vec![Some("1".to_string()), Some("7".to_string()), None];
    let (n, updated) = reconcile_shas(&known, &seen);
    assert_eq!(n, 2);
    let m = updated.expect("a drifted file");
    assert_eq!(
        m.files,
        vec![("a".to_string(), "1".to_string()), ("b".to_string(), "7".to_string()), ("c".to_string(), "3".to_string())]
    );
    let (n, updated) = reconcile_shas(&known, &vec![Some("1".into()), Some("2".into()), Some("3".into())]);
    assert_eq!(n, 0);
    assert!(updated.is_none());
}

// --- ls-remote -----------------------------------------------------------

#[test]
fn ls_remote_prefers_the_peeled_commit() {
    let out = "1111111111111111111111111111111111111111\trefs/tags/v1\n2222222222222222222222222222222222222222\trefs/tags/v1^{}\n";
    assert_eq!(ls_remote_sha(out), Ok("2222222222222222222222222222222222222222".to_string()));
}

#[test]
fn ls_remote_falls_back_to_the_first_line() {
    let out = "abc123\trefs/heads/main\r\ndef456\trefs/heads/other\n";
    assert_eq!(ls_remote_sha(out), Ok("abc123".to_string()));
}

#[test]
fn ls_remote_errors() {
    assert_eq!(ls_remote_sha(""), Err(RefLookupError::NoRef));
    assert_eq!(ls_remote_sha("   \n"), Err(RefLookupError::Malformed));
}

// --- ordering -------------------------------------------------------------

#[test]
fn repos_ordered_by_name_and_push() {
    let repos = vec![repo("b", "x", Some(10)), repo("a", "z", None), repo("a", "y", Some(30)), repo("c", "w", Some(10))];
    assert_eq!(repo_order(&repos, SortKey::Name), vec![2, 1, 0, 3]);
    assert_eq!(repo_order(&repos, SortKey::PushedAt), vec![2, 0, 3, 1]);
}

#[test]
fn stable_orders() {
    let keys: Vec<Vec<char>> = ["b", "a", "b", "0"].iter().map(|k| k.chars().collect()).collect();
    assert_eq!(stable_order_by_text(&keys), vec![3, 1, 0, 2]);
    assert_eq!(stable_order_by_count_desc(&vec![1, 3, 1, 5]), vec![3, 1, 0, 2]);
    let pairs: Vec<(Vec<char>, Vec<char>)> =
        vec![("a".chars().collect(), "b".chars().collect()), ("a".chars().collect(), "a".chars().collect())];
    assert_eq!(stable_order_by_pair(&pairs), vec![1, 0]);
    assert_eq!(stable_order_by_stamp_desc(&vec![None, Some(-4), Some(2)]), vec![2, 1, 0]);
}

// --- evidence per file ----------------------------------------------------

#[test]
fn matched_files_are_gathered_by_key() {
    let mut r1 = repo("o", "r", None);
    r1.hits = vec![
        TermHit {
            term: "t1".into(),
            files: vec![
                FileMatch { path: "b.toml".into(), matched_needle: "n1".into() },
                FileMatch { path: "a.toml".into(), matched_needle: "n2".into() },
            ],
        },
        TermHit { term: "t2".into(), files: vec![FileMatch { path: "b.toml".into(), matched_needle: "n3".into() }] },
    ];
    r1.match_hits = vec![MatchHit {
        predicate: "p".into(),
        files: vec![
            MatchFileHit { path: "b.toml".into(), addresses: vec!["x.y".into()] },
            MatchFileHit { path: "c.toml".into(), addresses: vec![] },
        ],
    }];
    let out = collect_matched(&vec![r1]);
    let keys: Vec<&str> = out.iter().map(|f| f.path.as_str()).collect();
    assert_eq!(keys, vec!["a.toml", "b.toml", "c.toml"]);
    assert_eq!(out[1].needles, vec![("t1".to_string(), "n1".to_string()), ("t2".to_string(), "n3".to_string())]);
    assert_eq!(out[1].addresses, vec![("p".to_string(), "x.y".to_string())]);
    assert!(out[2].needles.is_empty() && out[2].addresses.is_empty());
}

// --- snippets and holes ---------------------------------------------------

#[test]
fn snippets_cut_at_eighty_bytes() {
    let long = "x".repeat(100);
    let cut = short_snippet(&long);
    assert_eq!(cut, format!("{}…", "x".repeat(80)));
    assert_eq!(short_snippet("short"), "short");
    let tricky = format!("{}é{}", "x".repeat(79), "y".repeat(10));
    assert!(!snippet_text_fits(&tricky));
    assert!(snippet_text_fits(&long));
}

#[test]
fn enrichment_refuses_uncuttable_snippets() {
    let tricky = format!("{}é{}", "x".repeat(79), "y".repeat(10));
    let m = MatchedFile {
        owner: "o".into(),
        repo: "r".into(),
        file_path: "f.toml".into(),
        pattern: "*.toml".into(),
        bytes: tricky.clone().into_bytes(),
        needle_sources: vec![("t".into(), "é".into())],
        predicate_sources: vec![],
    };
    assert!(!snippets_fit(&m, &None));
    assert!(enrich_checked(&vec![m.clone()], &vec![None]).is_none());
    let tree = obj(vec![("k", s("plain é value"))]);
    assert!(snippets_fit(&m, &Some(tree.clone())));
    let hits = enrich_checked(&vec![m], &vec![Some(tree)]).expect("fits");
    assert_eq!(hits.len(), 1);
    assert_eq!(hits[0].address, "k");
    assert_eq!(hits[0].snippet, "plain é value");
}

// --- diffs ----------------------------------------------------------------

#[test]
fn diffs_only_where_text_changed() {
    let path = "a.toml".to_string();
    assert!(diff_for(&path, b"a = 1\n", &"a = 1\n".to_string()).is_none());
    let d = diff_for(&path, b"a = 1\n", &"a = 2\n".to_string()).expect("a diff");
    assert_eq!(d.path, "a.toml");
    assert!(d.diff.starts_with("--- a.toml\n+++ a.toml\n"));
    assert!(d.diff.contains("-a = 1\n+a = 2\n"));
}

// --- templates --------------------------------------------------------------

#[test]
fn anti_unify_two_objects() {
    let a = obj(vec![("a", num(1)), ("b", s("x"))]);
    let b = obj(vec![("a", num(2)), ("b", s("x")), ("c", Json::Bool(true))]);
    let (t, obs) = anti_unify(&vec![a, b]);
    assert_eq!(obs.len(), 1);
    assert_eq!(obs[0].instance_indices, vec![0, 1]);
    assert!(json_eq(&obs[0].values[0], &num(1)) && json_eq(&obs[0].values[1], &num(2)));
    match &t {
        Template::Object(fields) => {
            let keys: Vec<&str> = fields.iter().map(|(k, _)| k.as_str()).collect();
            assert_eq!(keys, vec!["a", "b", "c"]);
            assert!(matches!(fields[0].1.value, Template::Hole { id: 0 }));
            assert_eq!((fields[2].1.present_in, fields[2].1.total), (1, 2));
        }
        _ => panic!("expected an object"),
    }
    assert_eq!(render_template(&t, 0), "a: ⟨?0⟩\nb: \"x\"\nc?: true");
}

#[test]
fn hole_kinds_and_tallies() {
    assert_eq!(classify_hole(&vec![num(1), num(2)], 2, 2), HoleKind::Integer);
    assert_eq!(classify_hole(&vec![num(1), s("x")], 2, 2), HoleKind::Mixed);
    assert_eq!(classify_hole(&vec![num(1)], 1, 2), HoleKind::OptionalKey);
    assert_eq!(classify_hole(&vec![], 0, 0), HoleKind::String);
    let t = tally_values(&vec![s("b"), s("a"), s("b")]);
    assert_eq!(t.len(), 2);
    assert!(json_eq(&t[0].0, &s("b")) && t[0].1 == 2);
    assert!(pep503_eq("My_Pkg", "my-pkg"));
    assert!(!pep503_eq("a", "b"));
}

// --- text, json, terms, matchers, paths -----------------------------------

#[test]
fn text_helpers() {
    assert_eq!(string_of(&trim_exec(&chars_of("  a b \n"))), "a b");
    assert_eq!(string_of(&decimal_exec(1203)), "1203");
    assert_eq!(parse_usize_exec(&chars_of("42")), Some(42));
    assert_eq!(parse_usize_exec(&chars_of("4x")), None);
}

#[test]
fn json_text_is_compact() {
    let v = obj(vec![("a", Json::Array(vec![num(1), Json::Null])), ("b", s("q\"t"))]);
    assert_eq!(to_text(&v), r#"{"a":[1,null],"b":"q\"t"}"#);
}

#[test]
fn terms_scope_and_match() {
    let t = Term::parse("workflow:pytest|nox").unwrap();
    assert_eq!(t.scope.as_deref(), Some("workflow"));
    assert_eq!(t.needles, vec!["pytest".to_string(), "nox".to_string()]);
    assert!(t.applies_to_pattern(".github/workflows/*.yml"));
    assert!(!t.applies_to_pattern("pyproject.toml"));
    assert_eq!(t.matches_content(b"run: NOX -s tests", true), Some("nox"));
    assert_eq!(t.matches_content(b"run: NOX -s tests", false), None);
    assert_eq!(t.display(), "workflow:pytest|nox");
}

#[test]
fn terms_refuse_empty_alternatives() {
    assert!(Term::parse("a|").is_err());
    assert!(Term::parse("scope:a|b|").is_err());
    assert!(Term::parse("a||b").is_err());
    assert!(Term::parse("|a").is_err());
    assert_eq!(Term::parse("a|\"b\"").unwrap().needles, vec!["a".to_string(), "b".to_string()]);
}

#[test]
fn matchers_glob_paths() {
    let m = PathMatcher::new(&[".github/workflows/*.yml".to_string()], true).unwrap();
    assert!(m.is_match(".github/workflows/CI.YML"));
    assert!(!m.is_match(".github/dependabot.yml"));
    let exact = PathMatcher::new(&["Cargo.toml".to_string()], false).unwrap();
    assert!(!exact.is_match("cargo.toml"));
}

#[test]
fn path_joins() {
    assert_eq!(join("/c", "repos"), "/c/repos");
    assert_eq!(checkout_dir("/c", "o", "r"), "/c/repos/o/r/checkout");
    assert_eq!(pen_dir("/p", "nave/foo"), "/p/foo");
    assert_eq!(pen_repo_clone_dir("/p", "nave/foo", "o", "r"), "/p/foo/repos/o__r");
}

#[test]
fn factors_of_exclusive_keys() {
    let obs = vec![
        Observations { instance_indices: vec![0, 1], values: vec![Json::Null, Json::Null] },
        Observations { instance_indices: vec![3, 2, 2], values: vec![Json::Null, Json::Null, Json::Null] },
        Observations { instance_indices: vec![0, 1, 2, 3, 4], values: vec![] },
        Observations { instance_indices: vec![1, 4], values: vec![Json::Null, Json::Null] },
    ];
    let addrs = vec![
        (0usize, "a.x".to_string()),
        (1usize, "a.y".to_string()),
        (2usize, "a.z".to_string()),
        (3usize, "a.w".to_string()),
    ];
    let pres = optional_key_presences(&obs, &addrs, 5);
    assert_eq!(
        pres,
        vec![
            ("a.w".to_string(), vec![1, 4]),
            ("a.x".to_string(), vec![0, 1]),
            ("a.y".to_string(), vec![2, 3]),
        ]
    );
    let groups = find_factors(&pres);
    assert_eq!(groups, vec![vec!["a.w".to_string(), "a.y".to_string()]]);
    let g = factor_group(&groups[0], &pres, 5);
    assert_eq!(g.member_instances, vec![vec![1, 4], vec![2, 3]]);
    assert_eq!(g.none_cohort, vec![0]);
    assert_eq!(
        g.cohorts(),
        vec![
            ("a.w".to_string(), vec![1, 4]),
            ("a.y".to_string(), vec![2, 3]),
            ("(none of the above)".to_string(), vec![0]),
        ]
    );
    assert_eq!(sorted_set(&vec![3, 1, 3, 2]), vec![1, 2, 3]);
}

#[test]
fn matchers_build_or_name_the_bad_glob() {
    assert!(PathMatcher::new(&[], false).is_ok());
    assert!(PathMatcher::new(&["*.yml".to_string(), "a/**/b".to_string()], true).is_ok());
    match PathMatcher::new(&["ok.yml".to_string(), "a[".to_string()], false) {
        Err(nave::matcher::PathMatcherError::InvalidGlob { pattern, .. }) => assert_eq!(pattern, "a["),
        _ => panic!("expected an invalid glob"),
    }
}
