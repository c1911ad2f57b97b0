use cargo_machete_nk::args::{init_args, MacheteArgs, Startup};
use cargo_machete_nk::path::FilePath;
use cargo_machete_nk::walk::{collect_paths, is_hidden, is_included, is_walked, name_of};

const TOP_LEVEL: &str = "/home/user/cargo-machete-nk";

fn path(text: &str) -> FilePath {
    FilePath::new(text.as_bytes().to_vec())
}

/// Walks a tree, given by its entries below `root`, parents before children, and goes into
/// no directory that is not to be walked.
fn walk(root: &FilePath, tree: &[&str], skip_target_dir: bool, exclude: &[FilePath]) -> Vec<FilePath> {
    let mut entries: Vec<Result<FilePath, String>> = Vec::new();
    let mut left_out: Vec<FilePath> = Vec::new();
    let mut all = vec![root.clone()];
    all.extend(tree.iter().map(|text| root.join(&path(text))));
    for entry in all {
        if is_included(&entry, &left_out) {
            continue;
        }
        if is_walked(&entry, &path("/work"), skip_target_dir, exclude) {
            entries.push(Ok(entry));
        } else {
            left_out.push(entry);
        }
    }
    collect_paths(entries).unwrap()
}

#[test]
fn test_ignore_target() {
    let root = path(TOP_LEVEL).join(&path("./integration-tests/with-target/"));
    let tree = vec!["target", "target/package", "target/package/Cargo.toml"];
    let entries = walk(&root, &tree, true, &[]);
    assert!(entries.is_empty());

    let entries = walk(&root, &tree, false, &[]);
    assert!(!entries.is_empty());
}

#[test]
fn names_of_entries() {
    assert_eq!(name_of(&path("a/b/")), b"b".to_vec());
    assert_eq!(name_of(&path("..")), b"..".to_vec());
    assert_eq!(name_of(&path("/")), b"/".to_vec());
    assert_eq!(name_of(&path("a/..")), b"a/..".to_vec());
}

#[test]
fn hidden_entries() {
    assert!(is_hidden(&path("a/.git")));
    assert!(is_hidden(&path(".")));
    assert!(is_hidden(&path("../..")));
    assert!(!is_hidden(&path("a/..")));
    assert!(!is_hidden(&path(".git/a")));
    assert!(!is_hidden(&path("")));
    assert!(!is_hidden(&FilePath::new(vec![b'a', b'/', b'.', 0xff])));
    assert!(is_hidden(&FilePath::new(vec![b'a', b'/', b'.', 0xc3, 0xa9])));
}

#[test]
fn included_entries() {
    let into = vec![path("/a/b"), path("c")];
    assert!(is_included(&path("/a/b"), &into));
    assert!(is_included(&path("/a//b/c"), &into));
    assert!(is_included(&path("c/d"), &into));
    assert!(!is_included(&path("/a/bc"), &into));
    assert!(!is_included(&path("/c"), &into));
    assert!(!is_included(&path("a"), &[]));
}

#[test]
fn a_walk_stays_out_of_hidden_and_excluded_directories() {
    let tree = vec![
        "Cargo.toml",
        ".git",
        ".git/Cargo.toml",
        "one",
        "one/Cargo.toml",
        "one/Cargo.lock",
        "target",
        "target/Cargo.toml",
        "two",
        "two/Cargo.toml",
    ];
    let root = path("/work");
    let found = walk(&root, &tree, true, &[path("/work/one")]);
    let texts: Vec<Vec<u8>> = found.into_iter().map(|p| p.into_text()).collect();
    assert_eq!(texts, vec![b"/work/Cargo.toml".to_vec(), b"/work/two/Cargo.toml".to_vec()]);

    assert_eq!(walk(&root, &tree, false, &[]).len(), 4);
    assert_eq!(walk(&root, &tree, false, &[path("/work")]).len(), 0);
    assert_eq!(walk(&path("."), &["Cargo.toml"], false, &[]).len(), 0);
}

#[test]
fn build_directories_are_named_target_exactly() {
    let dir = path("/work");
    assert!(!is_walked(&path("a/target"), &dir, true, &[]));
    assert!(!is_walked(&path("a/target/."), &dir, true, &[]));
    assert!(is_walked(&path("a/target"), &dir, false, &[]));
    assert!(is_walked(&path("a/my-target"), &dir, true, &[]));
    assert!(is_walked(&path("target/a"), &dir, true, &[]));
}

#[test]
fn relative_excludes_hold_for_relative_searches() {
    let dir = path("/w");
    let args = MacheteArgs {
        with_metadata: false,
        skip_target_dir: false,
        fix: false,
        version: false,
        paths: vec![path("sub"), path("/w/sub")],
        exclude: vec![path("sub/x")],
        db_path: None,
    };
    let args = match init_args(args, &dir) {
        Startup::Analyze { args, .. } => args,
        Startup::ShowVersion => panic!("nobody asked for the version"),
    };
    let walked = |text: &str| is_walked(&path(text), &dir, false, &args.exclude);
    assert!(walked("sub"));
    assert!(walked("sub/y"));
    assert!(walked("x"));
    assert!(!walked("sub/x"));
    assert!(!walked("./sub/x"));
    assert!(!walked("sub/x/Cargo.toml"));
    assert!(!walked("/w/sub/x"));
    assert!(walked("/v/sub/x"));
}

#[test]
fn more_excludes_only_take_entries_away() {
    let tree = vec!["a", "a/Cargo.toml", "b", "b/Cargo.toml", "b/target", "b/target/Cargo.toml"];
    let texts = |skip: bool, exclude: &[FilePath]| -> Vec<Vec<u8>> {
        walk(&path("sub"), &tree, skip, exclude).into_iter().map(|p| p.into_text()).collect()
    };
    let few = vec![path("/work/other")];
    let many = vec![path("/work/sub/a"), path("/work/other/.")];
    assert_eq!(texts(false, &few).len(), 3);
    assert_eq!(
        texts(false, &many),
        vec![b"sub/b/Cargo.toml".to_vec(), b"sub/b/target/Cargo.toml".to_vec()]
    );
    assert_eq!(texts(true, &many), vec![b"sub/b/Cargo.toml".to_vec()]);
}

#[test]
fn the_first_entry_that_cannot_be_read_is_reported() {
    let entries = vec![
        Ok(path("Cargo.toml")),
        Err("first".to_string()),
        Ok(path("a/Cargo.toml")),
        Err("second".to_string()),
    ];
    assert_eq!(collect_paths(entries).unwrap_err(), "first");
    let none: Vec<Result<FilePath, String>> = Vec::new();
    assert!(collect_paths(none).unwrap().is_empty());
}

#[test]
fn manifests_are_kept_in_the_order_of_the_walk() {
    let entries: Vec<Result<FilePath, String>> = vec![
        Ok(path("b/Cargo.toml")),
        Ok(path("b/cargo.toml")),
        Ok(path("a/Cargo.toml")),
        Ok(path("a/Cargo.toml/src")),
    ];
    let texts: Vec<Vec<u8>> = collect_paths(entries)
        .unwrap()
        .into_iter()
        .map(|p| p.into_text())
        .collect();
    assert_eq!(texts, vec![b"b/Cargo.toml".to_vec(), b"a/Cargo.toml".to_vec()]);
}
