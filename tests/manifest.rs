use winch::combinations::Assignment;
use winch::error::ResolveError;
use winch::manifest::apply_combination;

fn assign(package: &str, version: &str) -> Assignment {
    Assignment { package: package.to_string(), version: version.to_string() }
}

#[test]
fn assignment_rewrites_only_the_named_dependency() {
    let text = "[package]\nname = \"demo\" # keep me\n\n[dependencies]\nfoo = \"1.0\"\nbar = \"2\"\n";
    let out = apply_combination(text, &vec![assign("foo", "1.2.0")]).unwrap();
    assert_eq!(out, "[package]\nname = \"demo\" # keep me\n\n[dependencies]\nfoo = \"1.2.0\"\nbar = \"2\"\n");
}

#[test]
fn every_assignment_is_written() {
    let text = "[dependencies]\na = \"1\"\nb = \"1\"\n";
    let out = apply_combination(text, &vec![assign("a", "0.9.0"), assign("b", "0.8.0")]).unwrap();
    assert!(out.contains("a = \"0.9.0\""));
    assert!(out.contains("b = \"0.8.0\""));
}

#[test]
fn empty_combination_keeps_the_text() {
    let text = "[dependencies]\nfoo = \"1\"\n";
    assert_eq!(apply_combination(text, &vec![]).unwrap(), text);
}

#[test]
fn malformed_manifest_is_rejected() {
    assert_eq!(
        apply_combination("[dependencies\nfoo = 1", &vec![assign("foo", "1.0.0")]),
        Err(ResolveError::ManifestEdit)
    );
}

#[test]
fn non_table_dependencies_is_rejected() {
    assert_eq!(
        apply_combination("dependencies = 5\n", &vec![assign("foo", "1.0.0")]),
        Err(ResolveError::ManifestEdit)
    );
}
