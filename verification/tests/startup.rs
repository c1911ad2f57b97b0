use cargo_machete_nk::args::{
    init_args, missing_exclude, running_as_cargo_cmd, MacheteArgs, Startup,
};
use cargo_machete_nk::checksum::{checksum, source_dir, Sources};
use cargo_machete_nk::path::FilePath;
use cargo_machete_nk::text::{contains_char, contains_string, join_strings, replace_char};

fn path(text: &str) -> FilePath {
    FilePath::new(text.as_bytes().to_vec())
}

fn texts(list: &[FilePath]) -> Vec<String> {
    list.iter()
        .map(|p| String::from_utf8(p.text().clone()).unwrap())
        .collect()
}

fn arguments(paths: Vec<FilePath>, exclude: &[&str]) -> MacheteArgs {
    MacheteArgs {
        with_metadata: true,
        skip_target_dir: false,
        fix: true,
        version: false,
        paths,
        exclude: exclude.iter().map(|text| path(text)).collect(),
        db_path: Some(path("db.json")),
    }
}

fn start(args: MacheteArgs) -> (MacheteArgs, String) {
    match init_args(args, &path("/work")) {
        Startup::Analyze { args, banner } => (args, banner),
        Startup::ShowVersion => panic!("nobody asked for the version"),
    }
}

#[test]
fn the_current_directory_is_searched_by_default() {
    let (args, banner) = start(arguments(Vec::new(), &[]));
    assert_eq!(banner, "Analyzing dependencies of crates in this directory...");
    assert_eq!(texts(&args.paths), vec!["/work"]);
    assert!(args.with_metadata && args.fix && !args.skip_target_dir);
    assert!(args.db_path.unwrap().same_path(&path("db.json")));
}

#[test]
fn given_directories_are_named() {
    let given = vec![path("one"), FilePath::new(vec![b'/', 0xfe]), path("two")];
    let (args, banner) = start(arguments(given, &["one/x", "/abs"]));
    assert_eq!(banner, "Analyzing dependencies of crates in one,/\u{fffd},two...");
    assert_eq!(args.paths.len(), 3);
    assert_eq!(args.paths[0].text(), &b"one".to_vec());
    assert_eq!(texts(&args.exclude), vec!["/work/one/x", "/abs"]);
}

#[test]
fn the_version_is_shown_and_nothing_else() {
    let mut args = arguments(Vec::new(), &[]);
    args.version = true;
    assert!(matches!(init_args(args, &path("/work")), Startup::ShowVersion));
}

#[test]
fn directories_to_leave_out_have_to_exist() {
    assert_eq!(missing_exclude(&vec![true, false, false]), Some(1));
    assert_eq!(missing_exclude(&vec![true, true]), None);
    assert_eq!(missing_exclude(&Vec::new()), None);
}

#[test]
fn subcommands_of_cargo() {
    assert!(running_as_cargo_cmd(true, false));
    assert!(!running_as_cargo_cmd(true, true));
    assert!(!running_as_cargo_cmd(false, false));
    assert!(!running_as_cargo_cmd(false, true));
}

#[test]
fn checksums_of_packages() {
    assert_eq!(checksum(None), "");
    assert_eq!(
        checksum(Some(Sources { tree_hash: vec![1, 2, 3], manifest: b"[package]\n".to_vec() })),
        "f8bd4034fc727ad26c1d74df058136f98d07b8f89b6bfce72083d6169770709f"
    );
    assert_eq!(
        checksum(Some(Sources { tree_hash: Vec::new(), manifest: Vec::new() })),
        "82878ed8a480ee41775636820e05a934ca5c747223ca64306658ee5982e6c227"
    );
}

#[test]
fn checksums_tell_packages_apart() {
    let sum = |tree: &[u8], manifest: &[u8]| {
        checksum(Some(Sources { tree_hash: tree.to_vec(), manifest: manifest.to_vec() }))
    };
    assert_eq!(sum(b"tree", b"manifest"), sum(b"tree", b"manifest"));
    assert_ne!(sum(b"tree", b"manifest"), sum(b"tree", b"manifesto"));
    assert_ne!(sum(b"tree", b"manifest"), sum(b"eert", b"manifest"));
    assert_ne!(sum(b"tree", b"manifest"), sum(b"manifest", b"tree"));
}

#[test]
fn sources_lie_beside_the_manifest() {
    assert_eq!(source_dir(&path("/a/Cargo.toml")).text(), &b"/a/src".to_vec());
    assert_eq!(source_dir(&path("Cargo.toml")).text(), &b"src".to_vec());
    assert_eq!(source_dir(&path("/Cargo.toml")).text(), &b"/src".to_vec());
}

#[test]
fn strings_are_searched_replaced_and_joined() {
    let names = vec!["é".to_string(), "b".to_string()];
    assert!(contains_string(&names, &"é".to_string()));
    assert!(!contains_string(&names, &"c".to_string()));
    assert!(contains_char("aé_", '_'));
    assert!(!contains_char("", '_'));
    assert_eq!(replace_char("_é__b-", '_', "-"), "-é--b-");
    assert_eq!(join_strings(&names, ", "), "é, b");
    assert_eq!(join_strings(&[], ","), "");
}
