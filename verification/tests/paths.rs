use cargo_machete_nk::path::FilePath;

fn path(text: &str) -> FilePath {
    FilePath::new(text.as_bytes().to_vec())
}

fn parts(text: &str) -> Vec<String> {
    path(text)
        .components()
        .into_iter()
        .map(|part| String::from_utf8(part).unwrap())
        .collect()
}

#[test]
fn components_of_paths() {
    assert_eq!(parts(""), Vec::<String>::new());
    assert_eq!(parts("/"), vec!["/"]);
    assert_eq!(parts("."), vec!["."]);
    assert_eq!(parts(".."), vec![".."]);
    assert_eq!(parts("a/b"), vec!["a", "b"]);
    assert_eq!(parts("a//b/./c/"), vec!["a", "b", "c"]);
    assert_eq!(parts("./a/.."), vec![".", "a", ".."]);
    assert_eq!(parts("/./a"), vec!["/", "a"]);
    assert_eq!(parts(".a/..b"), vec![".a", "..b"]);
}

#[test]
fn components_agree_with_std() {
    let texts = vec![
        "", "/", "//", ".", "./", "..", "../", "a", "a/", "/a", "//a//b", "a/./b", "./a", "././a",
        "a/..", "a/../b", "/.", "/..", "...", ".a", "a.", "a/.b/c.", " ", "a b/c",
    ];
    for a in &texts {
        let std_a = std::path::Path::new(a);
        let ours: Vec<Vec<u8>> = path(a).components();
        let theirs: Vec<Vec<u8>> = std_a
            .components()
            .map(|c| c.as_os_str().as_encoded_bytes().to_vec())
            .collect();
        assert_eq!(ours, theirs, "{a:?}");
        assert_eq!(
            path(a).parent().map(|p| p.into_text()),
            std_a.parent().map(|p| p.as_os_str().as_encoded_bytes().to_vec()),
            "{a:?}"
        );
        assert_eq!(
            path(a).file_name(),
            std_a.file_name().map(|n| n.as_encoded_bytes().to_vec()),
            "{a:?}"
        );
        for b in &texts {
            let std_b = std::path::Path::new(b);
            assert_eq!(path(a).same_path(&path(b)), std_a == std_b, "{a:?} {b:?}");
            assert_eq!(path(a).precedes(&path(b)), std_a < std_b, "{a:?} {b:?}");
            assert_eq!(path(a).starts_with(&path(b)), std_a.starts_with(std_b), "{a:?} {b:?}");
            assert_eq!(path(a).ends_with(&path(b)), std_a.ends_with(std_b), "{a:?} {b:?}");
            assert_eq!(
                path(a).join(&path(b)).into_text(),
                std_a.join(std_b).as_os_str().as_encoded_bytes().to_vec(),
                "{a:?} {b:?}"
            );
        }
    }
}

#[test]
fn a_joined_path_lies_in_its_directory() {
    let joined = path("/home/me").join(&path("./work//crate"));
    assert_eq!(joined.text(), &b"/home/me/./work//crate".to_vec());
    assert!(joined.same_path(&path("/home/me/work/crate")));
    assert!(joined.starts_with(&path("/home/me")));
    assert!(path("/home/me").join(&path("/etc")).same_path(&path("/etc")));
}

#[test]
fn a_directory_comes_before_what_lies_in_it() {
    assert!(path("a").precedes(&path("a/b")));
    assert!(path("a/b").precedes(&path("a-b")));
    assert!(!path("a").precedes(&path("a/.")));
    assert!(path("/z").precedes(&path("./a")));
    assert!(path("./z").precedes(&path("../a")));
    assert!(path("../z").precedes(&path("a")));
}

#[test]
fn a_parent_keeps_the_text_up_to_its_end() {
    assert_eq!(path("a//b///c").parent().unwrap().into_text(), b"a//b".to_vec());
    assert_eq!(path("/a").parent().unwrap().into_text(), b"/".to_vec());
    assert_eq!(path("Cargo.toml").parent().unwrap().into_text(), b"".to_vec());
    assert!(path("/").parent().is_none());
    assert!(path("").parent().is_none());
}
