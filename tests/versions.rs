use winch::error::ResolveError;
use winch::versions::{order_newest_first, select_candidates, RegistryEntry, MAX_ROLLBACKS};

fn entry(num: &str, yanked: bool) -> RegistryEntry {
    RegistryEntry { num: num.to_string(), yanked }
}

fn strings(v: &[&str]) -> Vec<String> {
    v.iter().map(|s| s.to_string()).collect()
}

#[test]
fn withdrawn_versions_are_dropped() {
    let e = vec![entry("1.2.0", false), entry("1.1.0", true), entry("1.0.0", false)];
    assert_eq!(select_candidates(&e), strings(&["1.2.0", "1.0.0"]));
}

#[test]
fn at_most_five_candidates_are_kept() {
    let e: Vec<RegistryEntry> = (0..9).map(|i| entry(&format!("1.{}.0", i), i == 2)).collect();
    let c = select_candidates(&e);
    assert_eq!(c.len(), MAX_ROLLBACKS);
    assert_eq!(c, strings(&["1.0.0", "1.1.0", "1.3.0", "1.4.0", "1.5.0"]));
}

#[test]
fn all_withdrawn_gives_no_candidates() {
    let e = vec![entry("0.1.0", true)];
    assert!(select_candidates(&e).is_empty());
}

#[test]
fn newest_version_comes_first() {
    let ordered = order_newest_first(&strings(&["1.0.0", "1.10.0", "1.2.0"])).unwrap();
    assert_eq!(ordered, strings(&["1.10.0", "1.2.0", "1.0.0"]));
}

#[test]
fn prerelease_is_older_than_release() {
    let ordered = order_newest_first(&strings(&["2.0.0-alpha.1", "2.0.0", "1.9.9"])).unwrap();
    assert_eq!(ordered, strings(&["2.0.0", "2.0.0-alpha.1", "1.9.9"]));
}

#[test]
fn invalid_version_is_rejected() {
    assert_eq!(
        order_newest_first(&strings(&["1.0.0", "not-a-version"])),
        Err(ResolveError::UnparsableVersion)
    );
}
