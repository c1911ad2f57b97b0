use cargo_machete_nk::db::{init_db, CargoDep, Db, Deps, Visit};
use cargo_machete_nk::path::FilePath;

fn path(text: &str) -> FilePath {
    FilePath::new(text.as_bytes().to_vec())
}

fn paths(texts: &[&str]) -> Vec<FilePath> {
    texts.iter().map(|text| path(text)).collect()
}

fn texts(list: &[FilePath]) -> Vec<String> {
    list.iter()
        .map(|p| String::from_utf8(p.text().clone()).unwrap())
        .collect()
}

fn deps(package_name: &str, unused: &[&str]) -> Deps {
    Deps {
        unused: unused.iter().map(|name| name.to_string()).collect(),
        ignored_used: Vec::new(),
        package_name: package_name.to_string(),
    }
}

fn record(checksum: &str, deps: Option<Deps>, run_id: &str) -> CargoDep {
    CargoDep {
        checksum: checksum.to_string(),
        deps,
        unique_run_id: run_id.to_string(),
    }
}

fn visit(text: &str, checksum: Option<&str>) -> Visit {
    Visit {
        path: path(text),
        checksum: checksum.map(|sum| sum.to_string()),
    }
}

fn listed(db: &Db) -> Vec<String> {
    (0..db.len())
        .map(|i| String::from_utf8(db.path_at(i).text().clone()).unwrap())
        .collect()
}

/// Three packages, all analysed by an earlier run.
fn earlier() -> Db {
    let mut db = Db::with_paths(paths(&["/w"]));
    db.insert(path("/w/c/Cargo.toml"), record("3", Some(deps("c", &[])), "old"));
    db.insert(path("/w/a/Cargo.toml"), record("1", Some(deps("a", &["log"])), "old"));
    db.insert(path("/w/b/Cargo.toml"), record("2", Some(deps("b", &[])), "old"));
    db
}

#[test]
fn a_new_database_is_empty() {
    let db = Db::with_paths(paths(&["b", "a"]));
    assert_eq!(db.len(), 0);
    assert_eq!(texts(db.paths()), vec!["b", "a"]);
    assert!(!db.contains(&path("a")));
    assert!(db.unchecked_packages().is_empty());
}

#[test]
fn records_stand_in_the_order_of_their_paths() {
    let db = earlier();
    assert_eq!(listed(&db), vec!["/w/a/Cargo.toml", "/w/b/Cargo.toml", "/w/c/Cargo.toml"]);
    assert!(db.contains(&path("/w//b/./Cargo.toml")));
    assert!(!db.contains(&path("/w/b")));
}

#[test]
fn a_record_replaces_the_one_for_the_same_path() {
    let mut db = earlier();
    db.insert(path("/w/./b/Cargo.toml"), record("9", None, "new"));
    assert_eq!(db.len(), 3);
    assert_eq!(db.path_at(1).text(), &b"/w/b/Cargo.toml".to_vec());
    assert_eq!(db.dep_at(1).checksum, "9");
    assert!(db.dep_at(1).deps.is_none());
}

#[test]
fn an_unchanged_package_keeps_its_findings() {
    let mut db = earlier();
    db.refresh(vec![visit("/w/a/Cargo.toml", Some("1"))], &"new".to_string());
    assert_eq!(listed(&db), vec!["/w/a/Cargo.toml"]);
    assert_eq!(db.dep_at(0).unique_run_id, "new");
    assert_eq!(db.dep_at(0).checksum, "1");
    assert_eq!(db.dep_at(0).deps.as_ref().unwrap().unused, vec!["log"]);
    assert!(db.unchecked_packages().is_empty());
}

#[test]
fn changed_and_new_packages_are_to_be_analysed() {
    let mut db = earlier();
    let visits = vec![
        visit("/w/z/Cargo.toml", None),
        visit("/w/c/Cargo.toml", Some("3")),
        visit("/w/b/Cargo.toml", Some("22")),
    ];
    db.refresh(visits, &"new".to_string());
    assert_eq!(listed(&db), vec!["/w/b/Cargo.toml", "/w/c/Cargo.toml", "/w/z/Cargo.toml"]);
    assert_eq!(texts(&db.unchecked_packages()), vec!["/w/b/Cargo.toml", "/w/z/Cargo.toml"]);
    assert_eq!(db.dep_at(0).checksum, "22");
    assert_eq!(db.dep_at(2).checksum, "");
}

#[test]
fn a_package_that_changes_back_during_a_run_still_waits() {
    let mut db = earlier();
    let visits = vec![
        visit("/w/a/Cargo.toml", Some("other")),
        visit("/w/a/Cargo.toml", Some("1")),
    ];
    db.refresh(visits, &"new".to_string());
    assert_eq!(db.dep_at(0).checksum, "1");
    assert!(db.dep_at(0).deps.is_none());
}

#[test]
fn records_of_an_identifier_that_is_not_new_stay() {
    let mut db = earlier();
    db.refresh(Vec::new(), &"old".to_string());
    assert_eq!(db.len(), 3);
    db.refresh(Vec::new(), &"new".to_string());
    assert_eq!(db.len(), 0);
}

#[test]
fn a_run_has_an_identifier_of_its_own() {
    let mut db = earlier();
    let first = db.start_run(vec![visit("/w/a/Cargo.toml", Some("1"))]);
    assert_eq!(first.len(), 36);
    for (i, c) in first.chars().enumerate() {
        if i == 8 || i == 13 || i == 18 || i == 23 {
            assert_eq!(c, '-');
        } else {
            assert!(c.is_ascii_digit() || ('a'..='f').contains(&c));
        }
    }
    assert_eq!(first.as_bytes()[14], b'4');
    assert!(b"89ab".contains(&first.as_bytes()[19]));
    assert_eq!(listed(&db), vec!["/w/a/Cargo.toml"]);
    assert_eq!(db.dep_at(0).unique_run_id, first);
    let second = db.start_run(Vec::new());
    assert_ne!(first, second);
    assert_eq!(db.len(), 0);
}

#[test]
fn checksums_are_taken_where_they_count() {
    let db = earlier();
    let found = paths(&["/w/z/Cargo.toml", "/w/b/Cargo.toml", "/w/./z/Cargo.toml", "/w/y/Cargo.toml"]);
    assert_eq!(db.checksum_plan(&found, true), vec![true; 4]);
    assert_eq!(db.checksum_plan(&found, false), vec![false, true, true, false]);
}

#[test]
fn findings_are_noted_in_any_order() {
    let visits = || vec![visit("/w/a/Cargo.toml", None), visit("/w/b/Cargo.toml", None)];
    let mut one = Db::with_paths(paths(&["/w"]));
    one.refresh(visits(), &"run".to_string());
    let mut two = one.clone();
    one.record_deps(&path("/w/a/Cargo.toml"), deps("a", &["log"]));
    one.record_deps(&path("/w/b/Cargo.toml"), deps("b", &["rand"]));
    two.record_deps(&path("/w/b/Cargo.toml"), deps("b", &["rand"]));
    two.record_deps(&path("/w//a/Cargo.toml"), deps("a", &["log"]));
    assert_eq!(format!("{one:?}"), format!("{two:?}"));
    assert!(one.unchecked_packages().is_empty());
    assert_eq!(one.dep_at(0).deps.as_ref().unwrap().unused, vec!["log"]);
    assert_eq!(one.dep_at(1).deps.as_ref().unwrap().unused, vec!["rand"]);
}

#[test]
fn a_fixed_package_has_nothing_unused() {
    let mut db = earlier();
    let mut found = deps("a", &["log"]);
    found.ignored_used = vec!["rand".to_string()];
    db.record_deps(&path("/w/a/Cargo.toml"), found);
    db.mark_fixed(0, "11".to_string());
    let dep = db.dep_at(0);
    assert_eq!(dep.checksum, "11");
    assert_eq!(dep.unique_run_id, "old");
    let left = dep.deps.as_ref().unwrap();
    assert!(left.unused.is_empty());
    assert_eq!(left.ignored_used, vec!["rand"]);
    assert_eq!(left.package_name, "a");
    assert_eq!(db.dep_at(1).checksum, "2");
}

#[test]
fn a_kept_database_is_used_again_for_the_same_paths() {
    let db = init_db(Some(earlier()), &paths(&["/w/"]));
    assert_eq!(db.len(), 3);
    assert_eq!(texts(db.paths()), vec!["/w"]);
    let db = init_db(Some(earlier()), &paths(&["/w", "/v"]));
    assert_eq!(db.len(), 0);
    assert_eq!(texts(db.paths()), vec!["/w", "/v"]);
    let db = init_db(None, &paths(&["/w"]));
    assert_eq!(db.len(), 0);
    assert_eq!(texts(db.paths()), vec!["/w"]);
}

#[test]
fn paths_that_are_not_in_order_clear_a_kept_database() {
    let given = paths(&["b", "a"]);
    let mut db = Db::with_paths(given.clone());
    db.insert(path("a/Cargo.toml"), record("1", None, "old"));
    assert!(db.is_for(&given));
    db.sort_paths();
    assert!(!db.is_for(&given));
    assert!(db.is_for(&paths(&["a", "b"])));
    assert_eq!(init_db(Some(db.clone()), &given).len(), 0);
    assert_eq!(init_db(Some(db), &paths(&["a", "b"])).len(), 1);
}

#[test]
fn sorting_keeps_the_order_of_equal_paths() {
    let mut db = Db::with_paths(paths(&["b", "a//x", "a-x", "a/x", "a/./x", "a"]));
    db.sort_paths();
    assert_eq!(texts(db.paths()), vec!["a", "a//x", "a/x", "a/./x", "a-x", "b"]);
}
