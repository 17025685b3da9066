use winch::diagnostics::{collect_problems, distinct_names, parse_conflicts, parse_missing_crates, ProblemKind};

fn strings(v: &[&str]) -> Vec<String> {
    v.iter().map(|s| s.to_string()).collect()
}

#[test]
fn conflicts_are_found_in_order() {
    let text = "error: failed to select a version for `foo`.\n... failed to select a version for `bar` which could resolve";
    assert_eq!(parse_conflicts(text).unwrap(), strings(&["foo", "bar"]));
}

#[test]
fn missing_crates_list_compiler_then_registry() {
    let text = "error: could not find `zed` in registry `crates-io`\nerror[E0463]: can't find crate for `alpha`";
    assert_eq!(parse_missing_crates(text).unwrap(), strings(&["alpha", "zed"]));
}

#[test]
fn unrelated_text_matches_nothing() {
    let text = "error[E0308]: mismatched types";
    assert!(parse_conflicts(text).unwrap().is_empty());
    assert!(parse_missing_crates(text).unwrap().is_empty());
}

#[test]
fn distinct_names_give_one_package_each() {
    let problems = collect_problems(&strings(&["a", "b"]), &strings(&["c", "d", "e"]));
    assert_eq!(problems.len(), 5);
    let names: Vec<&str> = problems.iter().map(|p| p.name.as_str()).collect();
    assert_eq!(names, vec!["a", "b", "c", "d", "e"]);
    assert_eq!(problems[1].kind, ProblemKind::Conflict);
    assert_eq!(problems[2].kind, ProblemKind::Missing);
}

#[test]
fn conflict_wins_over_missing_for_same_name() {
    let problems = collect_problems(&strings(&["foo", "foo"]), &strings(&["bar", "foo"]));
    let got: Vec<(&str, ProblemKind)> = problems.iter().map(|p| (p.name.as_str(), p.kind)).collect();
    assert_eq!(got, vec![("foo", ProblemKind::Conflict), ("bar", ProblemKind::Missing)]);
}

#[test]
fn repeated_conflict_is_reported_once() {
    let text = "error: failed to select a version for `foo`\nerror: failed to select a version for `foo`";
    assert_eq!(parse_conflicts(text).unwrap(), strings(&["foo"]));
}

#[test]
fn name_matched_by_both_missing_phrases_is_reported_once() {
    let text = "error[E0463]: can't find crate for `x`\nerror: could not find `x` in registry";
    assert_eq!(parse_missing_crates(text).unwrap(), strings(&["x"]));
}

#[test]
fn distinct_names_keeps_first_appearances() {
    assert_eq!(distinct_names(&strings(&["b", "a", "b", "c", "a"])), strings(&["b", "a", "c"]));
}
