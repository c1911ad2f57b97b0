use cargo_machete_nk::manifest::{remove_dependencies, try_remove_dependencies, FixError};

fn list(names: &[&str]) -> Vec<String> {
    names.iter().map(|name| name.to_string()).collect()
}

fn fix(manifest: &str, unused: &[&str], ignored_used: &[&str]) -> Result<String, FixError> {
    try_remove_dependencies(manifest, &list(unused), &list(ignored_used)).unwrap()
}

const MANIFEST: &str = "[package]
name = \"a\" # the name

[package.metadata.cargo-machete]
ignored = [\"log\", \"rand\"]

[dependencies]
anyhow = \"1\"
serde_json = { version = \"1\" } # kept
tokio-util = \"0.7\"
log = \"0.4\"
";

#[test]
fn unused_dependencies_are_taken_out() {
    let fixed = remove_dependencies(MANIFEST, &list(&["anyhow", "log"]), &[]).unwrap();
    assert_eq!(
        fixed,
        "[package]
name = \"a\" # the name

[package.metadata.cargo-machete]
ignored = [\"log\", \"rand\"]

[dependencies]
serde_json = { version = \"1\" } # kept
tokio-util = \"0.7\"
"
    );
}

#[test]
fn dependencies_go_by_both_of_their_names() {
    let fixed = fix(MANIFEST, &["serde-json", "tokio_util"], &[]).unwrap();
    assert!(fixed.ends_with("[dependencies]\nanyhow = \"1\"\nlog = \"0.4\"\n"));
    // A name with both signs has its underscores replaced.
    let manifest = "[package]\n[package.metadata]\n[dependencies]\na-b-c = \"1\"\n";
    assert!(fix(manifest, &["a-b_c"], &[]).is_ok());
    let manifest = "[package]\n[package.metadata]\n[dependencies]\na_b_c = \"1\"\n";
    assert!(matches!(fix(manifest, &["a-b_c"], &[]), Err(FixError::NotFound(name)) if name == "a-b_c"));
}

#[test]
fn ignored_dependencies_that_are_used_are_taken_out() {
    let fixed = fix(MANIFEST, &[], &["log", "other"]).unwrap();
    assert!(fixed.contains("ignored = [ \"rand\"]"));
    let fixed = fix(MANIFEST, &[], &["rand"]).unwrap();
    assert!(fixed.contains("ignored = [\"log\"]"));
    let fixed = fix(MANIFEST, &["anyhow"], &["rand", "log"]).unwrap();
    assert!(fixed.contains("ignored = []"));
    assert!(!fixed.contains("anyhow"));
}

#[test]
fn looking_settings_up_adds_an_empty_table() {
    let fixed = fix("[package]\nname = \"a\"\n\n[dependencies]\nlog = \"0.4\"\n", &["log"], &[]);
    assert_eq!(fixed.unwrap(), "[package]\nname = \"a\"\nmetadata = {}\n\n[dependencies]\n");
    let fixed = fix("[package]\n[package.metadata]\n[dependencies]\nlog = \"0.4\"\n", &["log"], &[]);
    assert_eq!(fixed.unwrap(), "[package]\n[package.metadata]\n[dependencies]\n");
    let fixed = fix("[dependencies]\nlog = \"0.4\"\n", &["log"], &[]);
    assert_eq!(fixed.unwrap(), "package = { metadata = {} }\n[dependencies]\n");
}

#[test]
fn a_dependency_that_is_not_there_is_refused() {
    let error = fix(MANIFEST, &["anyhow", "left_pad"], &[]).unwrap_err();
    assert_eq!(error.message(), "Dependency left_pad not found");
    let error = fix(MANIFEST, &["rand"], &[]).unwrap_err();
    assert_eq!(error.message(), "Dependency rand not found");
    let error = fix(MANIFEST, &["anyhow", "anyhow"], &[]).unwrap_err();
    assert!(matches!(error, FixError::NotFound(name) if name == "anyhow"));
}

#[test]
fn a_manifest_without_a_table_of_dependencies_is_refused() {
    for manifest in ["", "[package]\nname = \"a\"\n", "dependencies = 3\n", "[[dependencies]]\n"] {
        let error = fix(manifest, &["log"], &[]).unwrap_err();
        assert!(matches!(error, FixError::MissingTable));
        assert_eq!(error.message(), "dependencies table is missing or empty");
    }
    let error = fix("dependencies = { log = \"0.4\" }\n", &["log"], &[]).unwrap_err();
    assert!(matches!(error, FixError::InlineTable));
    assert_eq!(
        error.message(),
        "unexpected missing table, please report with a test case on https://github.com/arsenron/cargo-machete-nk"
    );
}

#[test]
fn a_manifest_that_is_no_toml_is_refused() {
    let error = fix("[dependencies\n", &[], &[]).unwrap_err();
    assert!(matches!(&error, FixError::Unparsable(message) if !message.is_empty()));
    assert!(error.message().contains("TOML parse error"));
}

#[test]
fn settings_that_cannot_be_read_are_not_touched() {
    let empty: Vec<String> = Vec::new();
    let stuck = |manifest: &str, used: &[&str]| {
        try_remove_dependencies(manifest, &empty, &list(used)).is_none()
    };
    assert!(stuck("package = 3\n[dependencies]\n", &[]));
    assert!(stuck("[package]\nmetadata = \"a\"\n[dependencies]\n", &[]));
    let settings = "[dependencies]\n[package.metadata.cargo-machete]\nignored = ";
    assert!(stuck(&format!("{settings}\"log\"\n"), &[]));
    assert!(stuck(&format!("{settings}[\"log\", 3]\n"), &["log"]));
    assert!(!stuck(&format!("{settings}[\"log\", 3]\n"), &[]));
    assert!(!stuck("[dependencies]\n[package.metadata]\ncargo-machete = 3\n", &["log"]));
    assert!(!stuck("[dependencies]\n[package.metadata.cargo-machete]\n", &["log"]));
    // A dependency that is missing is noticed first.
    assert!(try_remove_dependencies("package = 3\n[dependencies]\n", &list(&["log"]), &empty)
        .unwrap()
        .is_err());
}

#[test]
fn a_table_of_one_dependency_counts() {
    let manifest = "[package]\n[package.metadata]\n[dependencies.log]\nversion = \"0.4\"\n[dependencies.rand]\nversion = \"0.8\"\n";
    let fixed = fix(manifest, &["log"], &[]).unwrap();
    assert_eq!(fixed, "[package]\n[package.metadata]\n[dependencies.rand]\nversion = \"0.8\"\n");
}

#[test]
fn the_rest_keeps_its_order() {
    let manifest = "[package]\n[package.metadata]\n[dependencies]\nz = \"1\"\na-b = \"1\"\nm = \"1\"\nb = \"1\"\na = \"1\"\n";
    let fixed = fix(manifest, &["m", "a_b"], &[]).unwrap();
    assert_eq!(
        fixed,
        "[package]\n[package.metadata]\n[dependencies]\nz = \"1\"\nb = \"1\"\na = \"1\"\n"
    );
}

#[test]
fn two_fixes_are_one() {
    let once = fix(MANIFEST, &["anyhow"], &["log"]).unwrap();
    let twice = fix(&once, &["serde-json", "log"], &["rand"]).unwrap();
    let at_once = fix(MANIFEST, &["anyhow", "serde-json", "log"], &["log", "rand"]).unwrap();
    assert_eq!(twice, at_once);
    let manifest = "[dependencies]\nlog = \"0.4\"\nrand = \"0.8\"\nanyhow = \"1\"\n";
    let once = fix(manifest, &["log"], &[]).unwrap();
    let twice = fix(&once, &["anyhow"], &["x"]).unwrap();
    assert_eq!(twice, fix(manifest, &["log", "anyhow"], &["x"]).unwrap());
}

#[test]
fn a_table_without_a_header_vanishes_with_its_last_entry() {
    let once = fix("[package]\n[package.metadata]\n[dependencies.log]\nversion = \"0.4\"\n", &["log"], &[]);
    let once = once.unwrap();
    assert_eq!(once, "[package]\n[package.metadata]\n");
    assert!(matches!(fix(&once, &[], &[]), Err(FixError::MissingTable)));
}
