use bit_set::BitSet;
use nave::antiunify::Observations;
use nave::fca::{analyse, build_context, filter_profiles_by_predicates, Profile, ProfileBinding};
use nave::json::{Json, JsonEntry};
use nave::match_pred::MatchPredicate;
use nave::report::{HoleKind, HoleReport, SourceHint};

fn make_hole(address: &str, present_in: usize, total: usize) -> HoleReport {
    HoleReport {
        address: address.to_string(),
        present_in,
        total,
        distinct_values: vec![],
        kind: HoleKind::String,
        source_hint: SourceHint::Free,
    }
}

fn make_obs(indices: Vec<usize>, values: Vec<&str>) -> Observations {
    Observations {
        instance_indices: indices,
        values: values.into_iter().map(|s| Json::Str(s.to_string())).collect(),
    }
}

#[test]
fn context_construction_shape() {
    let obs = vec![
        make_obs(vec![0, 1, 2], vec!["a", "a", "b"]),
        make_obs(vec![0, 1, 2], vec!["x", "y", "x"]),
    ];
    let holes = vec![make_hole("h0", 3, 3), make_hole("h1", 3, 3)];
    let (attrs, ctx) = build_context(&obs, 3, &holes);

    assert_eq!(attrs.len(), 4);
    assert_eq!(ctx.objects.len(), 3);
    assert_eq!(ctx.attributes.len(), 4);

    let inst_0: BitSet = [0].into_iter().collect();
    assert_eq!(ctx.index_intent(&inst_0).len(), 2);
}

#[test]
fn optional_key_produces_absent_attribute() {
    let obs = vec![make_obs(vec![0, 1, 2], vec!["v", "v", "v"])];
    let holes = vec![make_hole("opt", 3, 4)];
    let (attrs, ctx) = build_context(&obs, 4, &holes);

    assert_eq!(attrs.len(), 2);
    assert_eq!(ctx.attributes.len(), 2);

    let absent_idx = attrs.iter().position(|a| a.value.is_none()).unwrap();
    assert!(ctx.incidence.contains(&(3, absent_idx)));
    assert!(!ctx.incidence.contains(&(0, absent_idx)));
}

#[test]
fn dependabot_finds_co_occurrence() {
    let obs = vec![
        make_obs(
            (0..9).collect(),
            vec![
                "github-actions",
                "github-actions",
                "github-actions",
                "github-actions",
                "github-actions",
                "github-actions",
                "github-actions",
                "github-actions",
                "cargo",
            ],
        ),
        make_obs(
            (0..9).collect(),
            vec!["weekly", "weekly", "weekly", "weekly", "weekly", "weekly", "monthly", "monthly", "monthly"],
        ),
    ];
    let holes = vec![make_hole("package-ecosystem", 9, 9), make_hole("schedule.interval", 9, 9)];

    let result = analyse(&obs, 9, &holes);

    let has_ga_weekly = result.profiles.iter().any(|p| {
        p.support == 6
            && p.bindings.iter().any(|b| {
                b.address == "package-ecosystem" && b.value == Some(Json::Str("github-actions".into()))
            })
            && p.bindings.iter().any(|b| b.address == "schedule.interval" && b.value == Some(Json::Str("weekly".into())))
    });
    assert!(has_ga_weekly, "expected a profile for 6x github-actions+weekly, got: {:#?}", result.profiles);
}

#[test]
fn uniform_single_hole_no_profiles() {
    let obs = vec![make_obs(vec![0, 1, 2, 3, 4], vec!["same", "same", "same", "same", "same"])];
    let holes = vec![make_hole("h0", 5, 5)];

    let result = analyse(&obs, 5, &holes);

    assert!(result.profiles.is_empty(), "expected no profiles for single uniform hole, got: {:#?}", result.profiles);
}

#[test]
fn profiles_hold_on_their_instances() {
    let obs = vec![
        make_obs((0..6).collect(), vec!["a", "a", "a", "b", "b", "a"]),
        make_obs((0..6).collect(), vec!["x", "x", "x", "y", "y", "y"]),
    ];
    let holes = vec![make_hole("h0", 6, 6), make_hole("h1", 6, 6)];
    let result = analyse(&obs, 6, &holes);
    for p in &result.profiles {
        assert_eq!(p.support, p.instances.len());
        for b in &p.bindings {
            for &i in &p.instances {
                let o = &obs[b.hole_index];
                let pos = o.instance_indices.iter().position(|&x| x == i);
                match &b.value {
                    Some(v) => assert_eq!(pos.map(|k| &o.values[k]), Some(v)),
                    None => assert!(pos.is_none()),
                }
            }
        }
    }
    for w in result.profiles.windows(2) {
        assert!(w[0].support >= w[1].support);
    }
}

#[test]
fn profiles_filtered_by_predicates() {
    let bind = |address: &str, value: Option<Json>| ProfileBinding { address: address.to_string(), hole_index: 0, value };
    let obj = |k: &str, v: &str| Json::Object(vec![JsonEntry { key: k.to_string(), value: Json::Str(v.to_string()) }]);
    let profiles = vec![
        Profile { instances: vec![0], bindings: vec![bind("x", Some(obj("uses", "actions/checkout@v4")))], support: 1 },
        Profile { instances: vec![1], bindings: vec![bind("x", None), bind("y", Some(obj("uses", "other")))], support: 1 },
        Profile { instances: vec![2], bindings: vec![bind("x", None)], support: 1 },
    ];
    let preds = vec![MatchPredicate::parse("uses ^= actions/").unwrap()];
    let kept = filter_profiles_by_predicates(&profiles, &preds);
    assert_eq!(kept.len(), 1);
    assert_eq!(kept[0].instances, vec![0]);
    let any = vec![MatchPredicate::parse("uses").unwrap()];
    let kept = filter_profiles_by_predicates(&profiles, &any);
    assert_eq!(kept.iter().map(|p| p.instances[0]).collect::<Vec<_>>(), vec![0, 1]);
    assert!(filter_profiles_by_predicates(&profiles, &vec![]).is_empty());
}
