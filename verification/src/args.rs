//! The command line, once it is parsed.

use vstd::prelude::*;
use vstd::string::*;

use crate::path::{
    components, join_text, law_join_inside, law_joined_text, path_texts, FilePath,
};
use crate::text::{
    join_strings, joined, law_joined_lists, lossy_text, strings, to_string_lossy,
};

verus! {

/// What the command line asks for.
#[derive(Debug)]
pub struct MacheteArgs {
    /// Whether the names of dependencies are taken from cargo's metadata.
    pub with_metadata: bool,
    /// Whether build directories are left out of the search.
    pub skip_target_dir: bool,
    /// Whether manifests are rewritten without unused dependencies.
    pub fix: bool,
    /// Whether the version is asked for.
    pub version: bool,
    /// The directories to search.
    pub paths: Vec<FilePath>,
    /// The directories to leave out.
    pub exclude: Vec<FilePath>,
    /// Where the database is kept, if it is.
    pub db_path: Option<FilePath>,
}

/// What a program does with its command line.
pub enum Startup {
    /// Shows its version, and nothing else.
    ShowVersion,
    /// Analyses packages, after it has shown a line that says so.
    Analyze { args: MacheteArgs, banner: String },
}

/// The texts in which paths are shown.
pub open spec fn shown_paths(paths: Seq<Seq<u8>>) -> Seq<Seq<char>> {
    paths.map_values(|path: Seq<u8>| lossy_text(path))
}

/// The line that says what is analysed.
pub open spec fn banner_text(paths: Seq<Seq<u8>>) -> Seq<char> {
    if paths.len() == 0 {
        "Analyzing dependencies of crates in this directory..."@
    } else {
        "Analyzing dependencies of crates in "@ + joined(shown_paths(paths), ","@) + "..."@
    }
}

/// The directories to search: the current one if none is given.
pub open spec fn searched(paths: Seq<Seq<u8>>, current_dir: Seq<u8>) -> Seq<Seq<u8>> {
    if paths.len() == 0 {
        seq![current_dir]
    } else {
        paths
    }
}

/// The directories to leave out, taken from the current one.
pub open spec fn excluded(exclude: Seq<Seq<u8>>, current_dir: Seq<u8>) -> Seq<Seq<u8>> {
    exclude.map_values(|path: Seq<u8>| join_text(current_dir, path))
}

/// Whether the program runs as a subcommand of cargo. Cargo sets one environment variable for
/// everything that it runs, and another, the name of the package, only for what it runs of a
/// package.
pub fn running_as_cargo_cmd(cargo_is_set: bool, cargo_pkg_name_is_set: bool) -> (r: bool)
    ensures
        r == (cargo_is_set && !cargo_pkg_name_is_set),
{
    cargo_is_set && !cargo_pkg_name_is_set
}

/// The texts in which paths are shown.
fn show_paths(paths: &Vec<FilePath>) -> (r: Vec<String>)
    ensures
        strings(r@) == shown_paths(path_texts(paths@)),
{
    let mut r: Vec<String> = Vec::new();
    let mut i: usize = 0;
    while i < paths.len()
        invariant
            i <= paths@.len(),
            r@.len() == i,
            forall|j: int| 0 <= j < i ==> (#[trigger] r@[j])@ == lossy_text(paths@[j]@),
        decreases paths@.len() - i,
    {
        r.push(to_string_lossy(paths[i].text().as_slice()));
        i += 1;
    }
    assert(strings(r@) =~= shown_paths(path_texts(paths@)));
    r
}

/// The line that says what is analysed.
fn banner(paths: &Vec<FilePath>) -> (r: String)
    ensures
        r@ == banner_text(path_texts(paths@)),
{
    if paths.len() == 0 {
        return "Analyzing dependencies of crates in this directory...".to_owned();
    }
    let shown: Vec<String> = show_paths(paths);
    let mut r: String = "Analyzing dependencies of crates in ".to_owned();
    r.append(join_strings(shown.as_slice(), ",").as_str());
    r.append("...");
    r
}

/// The directories to leave out, taken from the current one.
fn exclude_from(exclude: &Vec<FilePath>, current_dir: &FilePath) -> (r: Vec<FilePath>)
    ensures
        path_texts(r@) == excluded(path_texts(exclude@), current_dir@),
{
    let mut r: Vec<FilePath> = Vec::new();
    let mut i: usize = 0;
    while i < exclude.len()
        invariant
            i <= exclude@.len(),
            r@.len() == i,
            forall|j: int|
                0 <= j < i ==> (#[trigger] r@[j])@ == join_text(current_dir@, exclude@[j]@),
        decreases exclude@.len() - i,
    {
        r.push(current_dir.join(&exclude[i]));
        i += 1;
    }
    assert(path_texts(r@) =~= excluded(path_texts(exclude@), current_dir@));
    r
}

/// What the program does with its command line, in the directory `current_dir`.
pub fn init_args(args: MacheteArgs, current_dir: &FilePath) -> (r: Startup)
    ensures
        match r {
            Startup::ShowVersion => args.version,
            Startup::Analyze { args: resolved, banner } => {
                &&& !args.version
                &&& banner@ == banner_text(path_texts(args.paths@))
                &&& path_texts(resolved.paths@) == searched(path_texts(args.paths@), current_dir@)
                &&& path_texts(resolved.exclude@) == excluded(
                    path_texts(args.exclude@),
                    current_dir@,
                )
                &&& resolved.with_metadata == args.with_metadata
                &&& resolved.skip_target_dir == args.skip_target_dir
                &&& resolved.fix == args.fix
                &&& !resolved.version
                &&& resolved.db_path == args.db_path
            },
        },
{
    if args.version {
        return Startup::ShowVersion;
    }
    let banner: String = banner(&args.paths);
    let exclude: Vec<FilePath> = exclude_from(&args.exclude, current_dir);
    let mut paths: Vec<FilePath> = args.paths;
    let ghost given = paths@;
    if paths.len() == 0 {
        paths.push(current_dir.clone());
    }
    assert(path_texts(paths@) =~= searched(path_texts(given), current_dir@));
    Startup::Analyze {
        args: MacheteArgs {
            with_metadata: args.with_metadata,
            skip_target_dir: args.skip_target_dir,
            fix: args.fix,
            version: false,
            paths,
            exclude,
            db_path: args.db_path,
        },
        banner,
    }
}

/// The place of the first directory to leave out that does not exist. `found` says of each
/// whether it does.
pub fn missing_exclude(found: &Vec<bool>) -> (r: Option<usize>)
    ensures
        match r {
            Some(i) => {
                &&& i < found@.len()
                &&& !found@[i as int]
                &&& forall|j: int| 0 <= j < i ==> found@[j]
            },
            None => forall|j: int| 0 <= j < found@.len() ==> found@[j],
        },
{
    let mut i: usize = 0;
    while i < found.len()
        invariant
            i <= found@.len(),
            forall|j: int| 0 <= j < i ==> found@[j],
        decreases found@.len() - i,
    {
        if !found[i] {
            return Some(i);
        }
        i += 1;
    }
    None
}

/// The directories to search are those given, or the current one if none is.
pub proof fn law_searched_directories(paths: Seq<Seq<u8>>, current_dir: Seq<u8>)
    ensures
        searched(paths, current_dir).len() > 0,
        paths.len() > 0 ==> searched(paths, current_dir) == paths,
        paths.len() == 0 ==> searched(paths, current_dir).len() == 1 && searched(
            paths,
            current_dir,
        )[0] == current_dir,
{
}

/// Every directory to leave out is taken from the current one, in order: one that begins with a
/// separator is left as it is, and any other has the current directory put before it.
pub proof fn law_excluded_directories(exclude: Seq<Seq<u8>>, current_dir: Seq<u8>, i: int)
    requires
        0 <= i < exclude.len(),
    ensures
        excluded(exclude, current_dir).len() == exclude.len(),
        ({
            let given = exclude[i];
            let taken = excluded(exclude, current_dir)[i];
            &&& given.len() > 0 && given[0] == 0x2f ==> taken == given
            &&& !(given.len() > 0 && given[0] == 0x2f) ==> {
                &&& taken.len() >= current_dir.len() + given.len()
                &&& taken.take(current_dir.len() as int) == current_dir
                &&& taken.skip(taken.len() - given.len()) == given
                &&& components(current_dir).is_prefix_of(components(taken))
            }
        }),
{
    law_joined_text(current_dir, exclude[i]);
    if !(exclude[i].len() > 0 && exclude[i][0] == 0x2f) {
        law_join_inside(current_dir, exclude[i]);
    }
}

/// The line that says what is analysed names every directory that was given, in order and with
/// commas between them.
pub proof fn law_banner_names_the_directories(
    a: Seq<Seq<u8>>,
    b: Seq<Seq<u8>>,
    path: Seq<u8>,
    inside: Seq<char>,
)
    ensures
        banner_text(Seq::empty()) == "Analyzing dependencies of crates in this directory..."@,
        banner_text(seq![path]) == "Analyzing dependencies of crates in "@ + lossy_text(path)
            + "..."@,
        a.len() > 0 && b.len() > 0 && banner_text(a) == "Analyzing dependencies of crates in "@
            + inside + "..."@ ==> banner_text(a + b) == "Analyzing dependencies of crates in "@
            + inside + ","@ + joined(shown_paths(b), ","@) + "..."@,
        shown_paths(a).len() == a.len(),
        forall|i: int| 0 <= i < a.len() ==> #[trigger] shown_paths(a)[i] == lossy_text(a[i]),
{
    let head = "Analyzing dependencies of crates in "@;
    let tail = "..."@;
    law_joined_lists(shown_paths(seq![path]), Seq::empty(), ","@);
    assert(shown_paths(seq![path])[0] == lossy_text(path));
    law_joined_lists(shown_paths(a), shown_paths(b), ","@);
    assert(shown_paths(a + b) =~= shown_paths(a) + shown_paths(b));
    if a.len() > 0 && b.len() > 0 && banner_text(a) == head + inside + tail {
        let names = joined(shown_paths(a), ","@);
        let more = joined(shown_paths(b), ","@);
        assert((head + names + tail).len() == (head + inside + tail).len());
        assert(names =~= (head + names + tail).subrange(
            head.len() as int,
            (head.len() + names.len()) as int,
        ));
        assert(inside =~= (head + inside + tail).subrange(
            head.len() as int,
            (head.len() + inside.len()) as int,
        ));
        assert(banner_text(a + b) == head + (names + ","@ + more) + tail);
        assert(banner_text(a + b) =~= head + inside + ","@ + more + tail);
    }
}

} // verus!
