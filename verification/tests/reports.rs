use cargo_machete_nk::db::{CargoDep, Db, Deps, Visit};
use cargo_machete_nk::fix::{finish_fix, fix_of};
use cargo_machete_nk::path::FilePath;
use cargo_machete_nk::report::{
    analysis_error_line, closing_lines, exit_code, report, Line, Report,
};

const PATHS: &str = "[\"/w\"]";

fn path(text: &str) -> FilePath {
    FilePath::new(text.as_bytes().to_vec())
}

fn list(names: &[&str]) -> Vec<String> {
    names.iter().map(|name| name.to_string()).collect()
}

fn dep(package_name: &str, unused: &[&str], ignored_used: &[&str]) -> CargoDep {
    CargoDep {
        checksum: "1".to_string(),
        deps: Some(Deps {
            unused: list(unused),
            ignored_used: list(ignored_used),
            package_name: package_name.to_string(),
        }),
        unique_run_id: "run".to_string(),
    }
}

fn database() -> Db {
    let mut db = Db::with_paths(vec![path("/w")]);
    db.insert(path("/w/a/Cargo.toml"), dep("a", &[], &[]));
    db.insert(path("/w/b/Cargo.toml"), dep("b", &["log", "rand"], &["serde"]));
    db.insert(
        path("/w/c/Cargo.toml"),
        CargoDep { checksum: String::new(), deps: None, unique_run_id: "run".to_string() },
    );
    db.insert(path("/w/d/Cargo.toml"), dep("d", &[], &["toml"]));
    db
}

fn shown(lines: &[Line]) -> Vec<(bool, String)> {
    lines.iter().map(|line| (line.to_stderr, line.text.clone())).collect()
}

#[test]
fn findings_are_told_in_order() {
    let (lines, end) = report(&database(), PATHS);
    let expected = vec![
        (false, "cargo-machete-nk found unused or ignored_used dependencies in [\"/w\"]:"),
        (false, "b -- /w/b/Cargo.toml:"),
        (false, "    ❗ log"),
        (false, "    ❗ rand"),
        (true, "    ⚠️  serde was marked as ignored, but is actually used!"),
        (false, "d -- /w/d/Cargo.toml:"),
        (true, "    ⚠️  toml was marked as ignored, but is actually used!"),
    ];
    let expected: Vec<(bool, String)> =
        expected.into_iter().map(|(err, text)| (err, text.to_string())).collect();
    assert_eq!(shown(&lines), expected);
    assert!(end.has_unused_dependencies && end.has_ignored_used && end.found());
}

#[test]
fn without_findings_nothing_is_told() {
    let mut db = Db::with_paths(vec![path("/w")]);
    db.insert(path("/w/a/Cargo.toml"), dep("a", &[], &[]));
    let (lines, end) = report(&db, PATHS);
    assert!(lines.is_empty());
    assert!(!end.found());
    assert!(!end.header_shown);
}

#[test]
fn a_run_that_fixes_says_what_it_found() {
    let mut db = database();
    let mut state = Report::new();
    let mut told: Vec<usize> = Vec::new();
    while let Some(finding) = state.next_finding(&db, PATHS) {
        assert_eq!(finding.lines.len(), if told.is_empty() { 5 } else { 2 });
        told.push(finding.index);
        finish_fix(&mut db, &mut state, finding.index, format!("fixed {}", finding.index));
        assert!(!state.has_unused_dependencies);
        assert!(state.found());
    }
    assert_eq!(told, vec![1, 3]);
    assert_eq!(db.dep_at(0).checksum, "1");
    assert_eq!(db.dep_at(1).checksum, "fixed 1");
    assert_eq!(db.dep_at(3).checksum, "fixed 3");
    assert!(db.dep_at(2).deps.is_none());
    let (lines, left) = report(&db, PATHS);
    assert_eq!(lines.len(), 5);
    assert!(!left.has_unused_dependencies && left.has_ignored_used);
    assert!(closing_lines(&state, true, false).is_empty());
    assert_eq!(exit_code::<String>(&Ok(state.found())), 1);
}

#[test]
fn a_run_that_fixes_everything_still_exits_with_findings() {
    let mut db = Db::with_paths(vec![path("/w")]);
    db.insert(path("/w/a/Cargo.toml"), dep("a", &["log"], &[]));
    let mut state = Report::new();
    let finding = state.next_finding(&db, PATHS).unwrap();
    finish_fix(&mut db, &mut state, finding.index, "fixed".to_string());
    assert!(state.next_finding(&db, PATHS).is_none());
    assert_eq!(
        shown(&closing_lines(&state, true, false)),
        vec![(false, "All unused/ignored_used dependencies has been fixed!".to_string())]
    );
    assert_eq!(exit_code::<String>(&Ok(state.found())), 1);
    assert!(report(&db, PATHS).0.is_empty());
}

#[test]
fn a_fix_takes_out_what_is_unused_and_nothing_else() {
    let db = database();
    let manifest = "[package]\nname = \"b\"\n[package.metadata.cargo-machete]\nignored = [\"serde\"]\n[dependencies]\nrand = \"0.8\"\nserde = \"1\"\nanyhow = \"1\"\nlog = \"0.4\"\n";
    assert_eq!(
        fix_of(&db, 1, manifest).unwrap().unwrap(),
        "[package]\nname = \"b\"\n[package.metadata.cargo-machete]\nignored = [\"serde\"]\n[dependencies]\nserde = \"1\"\nanyhow = \"1\"\n"
    );
    let error = fix_of(&db, 1, "[dependencies]\nlog = \"0.4\"\n").unwrap().unwrap_err();
    assert_eq!(error.message(), "Dependency rand not found");
    let manifest = "[dependencies]\nlog = \"0.4\"\nrand = \"0.8\"\n[package]\nmetadata = 3\n";
    assert!(fix_of(&db, 1, manifest).is_none());
}

#[test]
fn a_fixed_package_is_not_analysed_again() {
    let mut db = database();
    db.mark_fixed(1, "fixed".to_string());
    let visits = vec![Visit {
        path: path("/w/b/Cargo.toml"),
        checksum: Some("fixed".to_string()),
    }];
    db.refresh(visits, &"next".to_string());
    assert_eq!(db.len(), 1);
    assert!(db.unchecked_packages().is_empty());
    let (_, end) = report(&db, PATHS);
    assert!(!end.has_unused_dependencies && end.has_ignored_used);
}

#[test]
fn paths_that_are_no_text_are_shown_with_replacements() {
    let mut db = Db::with_paths(Vec::new());
    db.insert(
        FilePath::new(vec![b'a', 0xff, b'/', b'C']),
        dep("a", &["log"], &[]),
    );
    let (lines, _) = report(&db, "[]");
    assert_eq!(lines[1].text, "a -- a\u{fffd}/C:");
}

#[test]
fn closing_words() {
    let quiet = Report::new();
    let unused = Report { has_unused_dependencies: true, ..quiet };
    let ignored = Report { has_ignored_used: true, ..quiet };
    let hint = "\nIf you believe cargo-machete-nk has detected an unused dependency incorrectly,\nyou can add the dependency to the list of dependencies to ignore in the\n`[package.metadata.cargo-machete]` section of the appropriate Cargo.toml.\nFor example:\n\n[package.metadata.cargo-machete]\nignored = [\"prost\"]";
    let metadata = "\nYou can also try running it with the `--with-metadata` flag for better accuracy,\nthough this may modify your Cargo.lock files.";
    let line = |text: &str| (false, text.to_string());
    assert_eq!(
        shown(&closing_lines(&unused, false, false)),
        vec![line(hint), line(metadata), line("")]
    );
    assert_eq!(shown(&closing_lines(&unused, true, true)), vec![line(hint), line("")]);
    assert!(closing_lines(&ignored, false, false).is_empty());
    assert_eq!(
        shown(&closing_lines(&quiet, false, true)),
        vec![line("cargo-machete-nk didn't find any unused or ignored used dependencies. Good job!")]
    );
}

#[test]
fn exit_codes() {
    assert_eq!(exit_code::<String>(&Ok(false)), 0);
    assert_eq!(exit_code::<String>(&Ok(true)), 1);
    assert_eq!(exit_code(&Err("no such file".to_string())), 2);
}

#[test]
fn a_failed_analysis_is_reported() {
    let line = analysis_error_line(&path("/w/Cargo.toml"), "no package");
    assert!(line.to_stderr);
    assert_eq!(line.text, "error when handling /w/Cargo.toml: no package");
}
