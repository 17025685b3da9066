use winch::combinations::CandidateList;
use winch::diagnostics::ProblemKind;
use winch::manifest::apply_combination;
use winch::resolution::{combination_count, AbortReason, Action, Phase, Resolver};
use winch::versions::RegistryEntry;

fn entries(nums: &[&str]) -> Option<Vec<RegistryEntry>> {
    Some(nums.iter().map(|n| RegistryEntry { num: n.to_string(), yanked: false }).collect())
}

fn picks(r: &Resolver, k: usize) -> Vec<(String, String)> {
    r.combinations[k].iter().map(|a| (a.package.clone(), a.version.clone())).collect()
}

#[test]
fn successful_first_build_stops_without_changes() {
    let mut r = Resolver::new();
    let a = r.on_initial_build(true, "").unwrap();
    assert_eq!(a, Action::Stop);
    assert_eq!(r.phase, Phase::Succeeded);
    assert!(r.combinations.is_empty());
    assert!(r.problems.is_empty());
}

#[test]
fn unparseable_failure_stops_before_fetching() {
    let mut r = Resolver::new();
    let a = r.on_initial_build(false, "error[E0425]: cannot find value `x` in this scope").unwrap();
    assert_eq!(a, Action::Stop);
    assert_eq!(r.phase, Phase::Aborted(AbortReason::NoParseableIssue));
    assert!(r.problems.is_empty());
    assert!(r.candidates.is_empty());
    assert!(r.combinations.is_empty());
}

#[test]
fn conflict_resolved_by_first_candidate() {
    let manifest = "[dependencies]\nfoo = \"0.9\"\n";
    let mut r = Resolver::new();
    let a = r.on_initial_build(false, "error: failed to select a version for `foo`.").unwrap();
    assert_eq!(a, Action::Fetch(0));
    assert_eq!(r.problems[0].name, "foo");
    let a = r.on_fetched(entries(&["1.2.0", "1.1.0", "1.0.0"])).unwrap();
    assert_eq!(a, Action::Trial(0));
    assert_eq!(picks(&r, 0), vec![("foo".to_string(), "1.2.0".to_string())]);
    let a = r.on_trial(true);
    assert_eq!(a, Action::Persist(0));
    assert_eq!(r.phase, Phase::Succeeded);
    let written = apply_combination(manifest, &r.combinations[0]).unwrap();
    assert_eq!(written, "[dependencies]\nfoo = \"1.2.0\"\n");
}

#[test]
fn two_packages_two_candidates_give_four_trials() {
    let text = "failed to select a version for `a`\ncan't find crate for `b`";
    let mut r = Resolver::new();
    assert_eq!(r.on_initial_build(false, text).unwrap(), Action::Fetch(0));
    assert_eq!(r.on_fetched(entries(&["1.0.0", "2.0.0"])).unwrap(), Action::Fetch(1));
    assert_eq!(r.on_fetched(entries(&["0.1.0", "0.2.0"])).unwrap(), Action::Trial(0));
    let mut tried = vec![picks(&r, 0)];
    let mut action = r.on_trial(false);
    while let Action::Trial(k) = action {
        tried.push(picks(&r, k));
        action = r.on_trial(false);
    }
    assert_eq!(action, Action::Stop);
    assert_eq!(r.phase, Phase::Exhausted);
    let s = |x: &str, y: &str| (x.to_string(), y.to_string());
    assert_eq!(
        tried,
        vec![
            vec![s("a", "1.0.0"), s("b", "0.2.0")],
            vec![s("a", "2.0.0"), s("b", "0.2.0")],
            vec![s("a", "1.0.0"), s("b", "0.1.0")],
            vec![s("a", "2.0.0"), s("b", "0.1.0")],
        ]
    );
}

#[test]
fn missing_package_tries_newest_first() {
    let mut r = Resolver::new();
    r.on_initial_build(false, "error[E0463]: can't find crate for `bar`").unwrap();
    assert_eq!(r.problems[0].kind, ProblemKind::Missing);
    r.on_fetched(entries(&["1.0.0", "2.0.0", "1.5.0"])).unwrap();
    assert_eq!(r.candidates[0].versions, vec!["2.0.0", "1.5.0", "1.0.0"]);
    assert_eq!(picks(&r, 0), vec![("bar".to_string(), "2.0.0".to_string())]);
}

#[test]
fn conflict_package_keeps_registry_order() {
    let mut r = Resolver::new();
    r.on_initial_build(false, "failed to select a version for `baz`").unwrap();
    r.on_fetched(entries(&["1.0.0", "2.0.0", "1.5.0"])).unwrap();
    assert_eq!(r.candidates[0].versions, vec!["1.0.0", "2.0.0", "1.5.0"]);
}

#[test]
fn failed_fetch_aborts() {
    let mut r = Resolver::new();
    r.on_initial_build(false, "failed to select a version for `foo`").unwrap();
    assert_eq!(r.on_fetched(None).unwrap(), Action::Stop);
    assert_eq!(r.phase, Phase::Aborted(AbortReason::FetchFailed));
}

#[test]
fn fully_withdrawn_package_aborts() {
    let mut r = Resolver::new();
    r.on_initial_build(false, "failed to select a version for `foo`").unwrap();
    let e = Some(vec![RegistryEntry { num: "1.0.0".to_string(), yanked: true }]);
    assert_eq!(r.on_fetched(e).unwrap(), Action::Stop);
    assert_eq!(r.phase, Phase::Aborted(AbortReason::NoCandidates));
}

#[test]
fn unparsable_version_of_missing_package_fails() {
    let mut r = Resolver::new();
    r.on_initial_build(false, "could not find `qux` in registry").unwrap();
    assert_eq!(
        r.on_fetched(entries(&["1.0.0", "one"])),
        Err(winch::error::ResolveError::UnparsableVersion)
    );
}

#[test]
fn counting_combinations() {
    let c = vec![
        CandidateList { package: "a".to_string(), versions: vec!["1".to_string(), "2".to_string()] },
        CandidateList { package: "b".to_string(), versions: vec!["1".to_string(); 3] },
    ];
    assert_eq!(combination_count(&c), Some(6));
}

#[test]
fn counting_overflowing_combinations() {
    let versions: Vec<String> = (0..5).map(|i| i.to_string()).collect();
    let c: Vec<CandidateList> = (0..40)
        .map(|i| CandidateList { package: format!("p{}", i), versions: versions.clone() })
        .collect();
    assert_eq!(combination_count(&c), None);
}
