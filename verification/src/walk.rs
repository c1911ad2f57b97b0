//! Which files and directories a search for manifests visits, and which of them it keeps.

use vstd::prelude::*;
use vstd::string::*;
use vstd::utf8::*;

use crate::args::excluded;
use crate::path::{
    components, current_component, file_name, is_name, join_text, law_join_keeps_inside,
    lemma_components_of_empty, lemma_components_of_name, parent_component, path_texts,
    root_component, same_bytes, FilePath, DOT, SEPARATOR,
};
use crate::text::is_utf8;

verus! {

/// The name by which an entry of a walk goes: the file name of its path, or the whole path
/// where that has none.
pub open spec fn entry_name(path: Seq<u8>) -> Seq<u8> {
    match file_name(path) {
        Some(name) => name,
        None => path,
    }
}

/// Whether an entry is hidden: its name is UTF-8 and begins with `.`.
pub open spec fn hidden(path: Seq<u8>) -> bool {
    valid_utf8(entry_name(path)) && entry_name(path).len() > 0 && entry_name(path)[0] == DOT
}

/// Whether an entry is one of the paths of `into`, or lies in one.
pub open spec fn included(path: Seq<u8>, into: Seq<FilePath>) -> bool {
    exists|i: int|
        0 <= i < into.len() && components((#[trigger] into[i])@).is_prefix_of(components(path))
}

/// Whether an entry is a build directory: its path ends in `target`.
pub open spec fn is_target(path: Seq<u8>) -> bool {
    components(encode_utf8("target"@)).is_suffix_of(components(path))
}

/// Whether a walk goes to an entry, and into it if it is a directory. Whether an entry is
/// excluded goes by where it lies, so its path is taken from the current directory.
pub open spec fn walked(
    path: Seq<u8>,
    current_dir: Seq<u8>,
    skip_target_dir: bool,
    to_exclude: Seq<FilePath>,
) -> bool {
    &&& !included(join_text(current_dir, path), to_exclude)
    &&& !hidden(path)
    &&& skip_target_dir ==> !is_target(path)
}

/// Whether an entry is a manifest.
pub open spec fn is_manifest(path: Seq<u8>) -> bool {
    entry_name(path) == encode_utf8("Cargo.toml"@)
}

/// The manifests among the entries of a walk, in the order of the walk.
pub open spec fn manifests<E>(entries: Seq<Result<FilePath, E>>) -> Seq<Seq<u8>>
    decreases entries.len(),
{
    if entries.len() == 0 {
        Seq::empty()
    } else {
        let front = manifests(entries.drop_last());
        match entries.last() {
            Ok(path) => if is_manifest(path@) {
                front.push(path@)
            } else {
                front
            },
            Err(_) => front,
        }
    }
}

/// The name by which an entry of a walk goes.
pub fn name_of(path: &FilePath) -> (r: Vec<u8>)
    ensures
        r@ == entry_name(path@),
{
    match path.file_name() {
        Some(name) => name,
        None => path.clone().into_text(),
    }
}

/// Whether an entry is hidden.
pub fn is_hidden(entry: &FilePath) -> (r: bool)
    ensures
        r == hidden(entry@),
{
    let name: Vec<u8> = name_of(entry);
    is_utf8(name.as_slice()) && name.len() > 0 && name[0] == DOT
}

/// Whether an entry is one of the paths of `into`, or lies in one.
pub fn is_included(entry: &FilePath, into: &[FilePath]) -> (r: bool)
    ensures
        r == included(entry@, into@),
{
    let mut i: usize = 0;
    while i < into.len()
        invariant
            i <= into@.len(),
            forall|j: int|
                0 <= j < i ==> !components((#[trigger] into@[j])@).is_prefix_of(
                    components(entry@),
                ),
        decreases into@.len() - i,
    {
        if entry.starts_with(&into[i]) {
            assert(components(into@[i as int]@).is_prefix_of(components(entry@)));
            return true;
        }
        i += 1;
    }
    false
}

/// Whether a walk goes to an entry, and into it if it is a directory. The paths of
/// `to_exclude` are to be taken from the current directory already.
pub fn is_walked(
    entry: &FilePath,
    current_dir: &FilePath,
    skip_target_dir: bool,
    to_exclude: &[FilePath],
) -> (r: bool)
    ensures
        r == walked(entry@, current_dir@, skip_target_dir, to_exclude@),
{
    !is_included(&current_dir.join(entry), to_exclude) && !is_hidden(entry) && !(skip_target_dir
        && entry.ends_with(&FilePath::new("target".as_bytes_vec())))
}

/// The manifests among the entries of a walk, or the first entry that could not be read.
pub fn collect_paths<E>(entries: Vec<Result<FilePath, E>>) -> (r: Result<Vec<FilePath>, E>)
    ensures
        match r {
            Ok(paths) => {
                &&& forall|i: int| 0 <= i < entries@.len() ==> (#[trigger] entries@[i]) is Ok
                &&& path_texts(paths@) == manifests(entries@)
            },
            Err(e) => exists|i: int|
                {
                    &&& 0 <= i < entries@.len()
                    &&& #[trigger] entries@[i] == Err::<FilePath, E>(e)
                    &&& forall|j: int| 0 <= j < i ==> (#[trigger] entries@[j]) is Ok
                },
        },
{
    let ghost all = entries@;
    let mut paths: Vec<FilePath> = Vec::new();
    for entry in iter: entries
        invariant
            all == entries@,
            iter.seq() == all,
            forall|i: int| 0 <= i < iter.index() ==> (#[trigger] all[i]) is Ok,
            path_texts(paths@) == manifests(all.take(iter.index())),
    {
        let ghost k = iter.index();
        assert(all.take(k + 1).drop_last() =~= all.take(k));
        match entry {
            Ok(path) => {
                let ghost before = paths@;
                if same_bytes(&name_of(&path), &"Cargo.toml".as_bytes_vec()) {
                    paths.push(path);
                    assert(path_texts(paths@) =~= path_texts(before).push(
                        path@,
                    ));
                }
            },
            Err(e) => {
                assert(all[k] == Err::<FilePath, E>(e));
                return Err(e);
            },
        }
    }
    assert(all.take(all.len() as int) =~= all);
    Ok(paths)
}

/// A path ends in `target` exactly if `target` is its last component.
pub proof fn law_target_is_last(path: Seq<u8>)
    ensures
        is_target(path) <==> components(path).len() > 0 && components(path).last() == encode_utf8(
            "target"@,
        ),
{
    let target = encode_utf8("target"@);
    reveal_strlit("target");
    assert(is_ascii_chars("target"@));
    is_ascii_chars_encode_utf8("target"@);
    assert(target.len() == 6 && current_component().len() == 1);
    lemma_components_of_name(target);
    let all = components(path);
    let n = all.len() as int;
    assert(components(target).len() == 1);
    if n > 0 {
        assert(all.subrange(n - 1, n)[0] == all.last());
        if all.last() == target {
            assert(components(target) =~= all.subrange(n - 1, n));
        } else if is_target(path) {
            assert(components(target)[0] == target);
        }
    }
}

/// An entry that is at or below a path that was given to be excluded is not walked, whether
/// that is seen once both are taken from the current directory or from the paths as given.
pub proof fn law_excluded_is_not_walked(
    exclude: Seq<Seq<u8>>,
    resolved: Seq<FilePath>,
    current_dir: Seq<u8>,
    entry: Seq<u8>,
    skip_target_dir: bool,
    i: int,
)
    requires
        path_texts(resolved) == excluded(exclude, current_dir),
        0 <= i < exclude.len(),
        ({
            ||| components(join_text(current_dir, exclude[i])).is_prefix_of(
                components(join_text(current_dir, entry)),
            )
            ||| {
                &&& components(exclude[i]).is_prefix_of(components(entry))
                &&& exclude[i].len() > 0 || !(entry.len() > 0 && entry[0] == SEPARATOR)
            }
        }),
    ensures
        !walked(entry, current_dir, skip_target_dir, resolved),
{
    assert(path_texts(resolved).len() == exclude.len());
    assert(path_texts(resolved)[i] == resolved[i]@);
    assert(resolved[i]@ == join_text(current_dir, exclude[i]));
    if !components(join_text(current_dir, exclude[i])).is_prefix_of(
        components(join_text(current_dir, entry)),
    ) {
        law_join_keeps_inside(current_dir, exclude[i], entry);
    }
}

/// Whether a trail goes down from a directory, one name at a time.
pub open spec fn descends(trail: Seq<Seq<u8>>) -> bool {
    forall|i: int|
        0 < i < trail.len() ==> {
            &&& components(#[trigger] trail[i]).len() == components(trail[i - 1]).len() + 1
            &&& components(trail[i]).drop_last() == components(trail[i - 1])
            &&& is_name(components(trail[i]).last())
        }
}

/// Whether a walk goes down a trail to its end: it goes to every entry on it.
pub open spec fn reached(
    trail: Seq<Seq<u8>>,
    current_dir: Seq<u8>,
    skip_target_dir: bool,
    to_exclude: Seq<FilePath>,
) -> bool {
    forall|i: int|
        0 <= i < trail.len() ==> walked(
            #[trigger] trail[i],
            current_dir,
            skip_target_dir,
            to_exclude,
        )
}

/// A walk passes through nothing hidden below the directory that it starts at, through no
/// excluded path and, if it skips them, through no build directory.
pub proof fn law_walk_stays_out(
    trail: Seq<Seq<u8>>,
    current_dir: Seq<u8>,
    skip_target_dir: bool,
    to_exclude: Seq<FilePath>,
    k: int,
)
    requires
        0 < k < trail.len(),
        descends(trail),
        reached(trail, current_dir, skip_target_dir, to_exclude),
    ensures
        ({
            let name = components(trail.last())[components(trail[0]).len() + k - 1];
            &&& name == components(trail[k]).last()
            &&& valid_utf8(name) && name.len() > 0 ==> name[0] != DOT
            &&& skip_target_dir ==> name != encode_utf8("target"@)
            &&& !included(join_text(current_dir, trail[k]), to_exclude)
        }),
{
    lemma_trail(trail, k, trail.len() - 1);
    lemma_trail(trail, 0, k);
    law_target_is_last(trail[k]);
    assert(walked(trail[k], current_dir, skip_target_dir, to_exclude));
}

/// Along a trail down, components already passed stay where they are.
proof fn lemma_trail(trail: Seq<Seq<u8>>, from: int, to: int)
    requires
        0 <= from <= to < trail.len(),
        descends(trail),
    ensures
        components(trail[to]).len() == components(trail[from]).len() + to - from,
        forall|j: int|
            0 <= j < components(trail[from]).len() ==> components(trail[to])[j] == components(
                trail[from],
            )[j],
        components(trail[from]).is_prefix_of(components(trail[to])),
    decreases to - from,
{
    if from < to {
        lemma_trail(trail, from, to - 1);
        assert(components(trail[to]).drop_last() == components(trail[to - 1]));
        assert forall|j: int| 0 <= j < components(trail[from]).len() implies components(
            trail[to],
        )[j] == components(trail[from])[j] by {
            assert(components(trail[to]).drop_last()[j] == components(trail[to])[j]);
        }
    }
    assert(components(trail[from]) =~= components(trail[to]).subrange(
        0,
        components(trail[from]).len() as int,
    ));
}

/// Everything on a trail lies where its end lies, or above.
proof fn lemma_trail_joined(trail: Seq<Seq<u8>>, current_dir: Seq<u8>, k: int)
    requires
        0 <= k < trail.len(),
        descends(trail),
    ensures
        components(join_text(current_dir, trail[k])).is_prefix_of(
            components(join_text(current_dir, trail.last())),
        ),
{
    let last = trail.len() - 1;
    lemma_trail(trail, k, last);
    if k < last {
        if trail[k].len() == 0 {
            lemma_components_of_empty(trail[k]);
            lemma_trail(trail, k + 1, last);
            assert(components(trail[k + 1]).last() == components(trail[last])[0]);
            assert(is_name(components(trail[last])[0]));
            if trail[last].len() > 0 && trail[last][0] == SEPARATOR {
                assert(components(trail[last])[0] == root_component());
            }
        }
        law_join_keeps_inside(current_dir, trail[k], trail[last]);
    } else {
        let all = components(join_text(current_dir, trail[k]));
        assert(all =~= all.subrange(0, all.len() as int));
    }
}

/// Whether every path of `few` is one of `many`.
pub open spec fn contained(few: Seq<FilePath>, many: Seq<FilePath>) -> bool {
    forall|i: int| 0 <= i < few.len() ==> is_one_of(#[trigger] few[i], many)
}

/// Whether a path is one of a list.
pub open spec fn is_one_of(path: FilePath, list: Seq<FilePath>) -> bool {
    exists|j: int| 0 <= j < list.len() && components((#[trigger] list[j])@) == components(path@)
}

/// More excluded paths, or skipping build directories, only take entries away from a walk;
/// and what more excluded paths alone take away is exactly what lies in one of them.
pub proof fn law_more_excludes_take_away(
    trail: Seq<Seq<u8>>,
    current_dir: Seq<u8>,
    skip_target_dir: bool,
    few: Seq<FilePath>,
    many: Seq<FilePath>,
)
    requires
        trail.len() > 0,
        descends(trail),
        contained(few, many),
    ensures
        reached(trail, current_dir, skip_target_dir, many) ==> reached(
            trail,
            current_dir,
            false,
            few,
        ),
        reached(trail, current_dir, false, few) ==> (reached(trail, current_dir, false, many)
            <==> !included(join_text(current_dir, trail.last()), many)),
{
    assert forall|path: Seq<u8>| #[trigger] included(path, few) implies included(path, many) by {
        let i = choose|i: int|
            0 <= i < few.len() && components((#[trigger] few[i])@).is_prefix_of(components(path));
        assert(is_one_of(few[i], many));
        let j = choose|j: int|
            0 <= j < many.len() && components((#[trigger] many[j])@) == components(few[i]@);
        assert(components(many[j]@).is_prefix_of(components(path)));
    }
    if reached(trail, current_dir, skip_target_dir, many) {
        assert forall|i: int| 0 <= i < trail.len() implies walked(
            #[trigger] trail[i],
            current_dir,
            false,
            few,
        ) by {
            assert(walked(trail[i], current_dir, skip_target_dir, many));
        }
    }
    if reached(trail, current_dir, false, few) {
        let end = join_text(current_dir, trail.last());
        assert forall|i: int| 0 <= i < trail.len() && !included(end, many) implies walked(
            #[trigger] trail[i],
            current_dir,
            false,
            many,
        ) by {
            let here = join_text(current_dir, trail[i]);
            assert(walked(trail[i], current_dir, false, few));
            lemma_trail_joined(trail, current_dir, i);
            if included(here, many) {
                let j = choose|j: int|
                    0 <= j < many.len() && components((#[trigger] many[j])@).is_prefix_of(
                        components(here),
                    );
                lemma_prefix_of_prefix(components(many[j]@), components(here), components(end));
            }
        }
        if reached(trail, current_dir, false, many) {
            assert(walked(trail[trail.len() - 1], current_dir, false, many));
        }
    }
}

proof fn lemma_prefix_of_prefix(a: Seq<Seq<u8>>, b: Seq<Seq<u8>>, c: Seq<Seq<u8>>)
    requires
        a.is_prefix_of(b),
        b.is_prefix_of(c),
    ensures
        a.is_prefix_of(c),
{
    assert(a =~= c.subrange(0, a.len() as int)) by {
        assert forall|i: int| 0 <= i < a.len() implies a[i] == c[i] by {
            assert(a[i] == b.subrange(0, a.len() as int)[i]);
            assert(b[i] == c.subrange(0, b.len() as int)[i]);
        }
    }
}

/// What a walk keeps are manifests that it visited, and it keeps each of those.
pub proof fn law_manifests_are_kept<E>(entries: Seq<Result<FilePath, E>>)
    ensures
        forall|i: int|
            0 <= i < entries.len() && (#[trigger] entries[i]) is Ok && is_manifest(
                entries[i]->Ok_0@,
            ) ==> manifests(entries).contains(entries[i]->Ok_0@),
        forall|k: int|
            0 <= k < manifests(entries).len() ==> is_manifest(#[trigger] manifests(entries)[k])
                && exists|i: int|
                0 <= i < entries.len() && (#[trigger] entries[i]) is Ok && entries[i]->Ok_0@
                    == manifests(entries)[k],
    decreases entries.len(),
{
    if entries.len() > 0 {
        let front = entries.drop_last();
        let before = manifests(front);
        let all = manifests(entries);
        law_manifests_are_kept(front);
        assert forall|i: int|
            0 <= i < entries.len() && (#[trigger] entries[i]) is Ok && is_manifest(
                entries[i]->Ok_0@,
            ) implies all.contains(entries[i]->Ok_0@) by {
            if i < front.len() {
                assert(front[i] == entries[i]);
                let k = choose|k: int| 0 <= k < before.len() && before[k] == entries[i]->Ok_0@;
                assert(all[k] == before[k]);
            } else {
                assert(all[all.len() - 1] == entries[i]->Ok_0@);
            }
        }
        assert forall|k: int| 0 <= k < all.len() implies is_manifest(#[trigger] all[k]) && exists|
            i: int,
        |
            0 <= i < entries.len() && (#[trigger] entries[i]) is Ok && entries[i]->Ok_0@
                == all[k] by {
            if k < before.len() {
                assert(all[k] == before[k]);
                let i = choose|i: int|
                    0 <= i < front.len() && (#[trigger] front[i]) is Ok && front[i]->Ok_0@
                        == before[k];
                assert(entries[i] == front[i]);
            } else {
                assert(entries[entries.len() - 1] is Ok);
            }
        }
    }
}

/// An entry whose path ends in a name goes by that name.
proof fn lemma_entry_name(path: Seq<u8>)
    requires
        components(path).len() > 0,
        components(path).last() != root_component(),
        components(path).last() != current_component(),
        components(path).last() != parent_component(),
    ensures
        entry_name(path) == components(path).last(),
{
}

/// An entry whose path ends in a name is walked exactly if that name does not begin with `.`,
/// or is no text; if no excluded path is the place of the entry or one above it; and if its
/// name is not `target`, or build directories are not skipped.
pub proof fn law_what_is_walked(
    path: Seq<u8>,
    current_dir: Seq<u8>,
    skip_target_dir: bool,
    to_exclude: Seq<FilePath>,
)
    requires
        components(path).len() > 0,
        components(path).last() != root_component(),
        components(path).last() != current_component(),
        components(path).last() != parent_component(),
    ensures
        ({
            let name = components(path).last();
            let place = components(join_text(current_dir, path));
            let shown = name.len() == 0 || name[0] != DOT || !valid_utf8(name);
            let outside = forall|i: int|
                0 <= i < to_exclude.len() ==> !components(
                    (#[trigger] to_exclude[i])@,
                ).is_prefix_of(place);
            let built = skip_target_dir && name == encode_utf8("target"@);
            walked(path, current_dir, skip_target_dir, to_exclude) <==> shown && outside && !built
        }),
{
    lemma_entry_name(path);
    law_target_is_last(path);
}

/// An entry whose path ends in no name, such as a directory that a walk starts at, goes by its
/// whole path.
pub proof fn law_what_is_walked_without_a_name(
    path: Seq<u8>,
    current_dir: Seq<u8>,
    skip_target_dir: bool,
    to_exclude: Seq<FilePath>,
)
    requires
        components(path).len() == 0 || components(path).last() == root_component() || components(
            path,
        ).last() == current_component() || components(path).last() == parent_component(),
    ensures
        ({
            let place = components(join_text(current_dir, path));
            let shown = path.len() == 0 || path[0] != DOT || !valid_utf8(path);
            let outside = forall|i: int|
                0 <= i < to_exclude.len() ==> !components(
                    (#[trigger] to_exclude[i])@,
                ).is_prefix_of(place);
            walked(path, current_dir, skip_target_dir, to_exclude) <==> shown && outside
        }),
{
    law_target_is_last(path);
    reveal_strlit("target");
    assert(is_ascii_chars("target"@));
    is_ascii_chars_encode_utf8("target"@);
    assert(encode_utf8("target"@).len() == 6);
    assert(root_component().len() == 1 && current_component().len() == 1
        && parent_component().len() == 2);
}

/// Where nothing is excluded, the name of an entry alone decides whether it is walked.
pub proof fn law_names_decide(
    path: Seq<u8>,
    other: Seq<u8>,
    current_dir: Seq<u8>,
    skip_target_dir: bool,
)
    requires
        components(path).len() > 0,
        components(other).len() > 0,
        components(path).last() == components(other).last(),
        is_name(components(path).last()),
    ensures
        walked(path, current_dir, skip_target_dir, Seq::empty()) == walked(
            other,
            current_dir,
            skip_target_dir,
            Seq::empty(),
        ),
{
    law_what_is_walked(path, current_dir, skip_target_dir, Seq::empty());
    law_what_is_walked(other, current_dir, skip_target_dir, Seq::empty());
}

/// An entry is a manifest exactly if the last component of its path is `Cargo.toml`.
pub proof fn law_what_is_a_manifest(path: Seq<u8>)
    ensures
        is_manifest(path) <==> components(path).len() > 0 && components(path).last()
            == encode_utf8("Cargo.toml"@),
{
    let name = encode_utf8("Cargo.toml"@);
    reveal_strlit("Cargo.toml");
    assert(is_ascii_chars("Cargo.toml"@));
    is_ascii_chars_encode_utf8("Cargo.toml"@);
    assert(name.len() == 10);
    assert(root_component().len() == 1 && current_component().len() == 1
        && parent_component().len() == 2);
    if components(path).len() > 0 && components(path).last() == name {
        lemma_entry_name(path);
    } else if is_manifest(path) && file_name(path) is None {
        assert(path == name);
        lemma_components_of_name(path);
    }
}

/// The manifests of two walks, one after the other, are those of each, and of an entry alone
/// it is kept exactly if it could be read and is a manifest.
pub proof fn law_manifests_in_parts<E>(
    a: Seq<Result<FilePath, E>>,
    b: Seq<Result<FilePath, E>>,
    entry: Result<FilePath, E>,
)
    ensures
        manifests(a + b) == manifests(a) + manifests(b),
        manifests(seq![entry]) == if entry is Ok && components(entry->Ok_0@).len() > 0
            && components(entry->Ok_0@).last() == encode_utf8("Cargo.toml"@) {
            seq![entry->Ok_0@]
        } else {
            Seq::<Seq<u8>>::empty()
        },
    decreases b.len(),
{
    if b.len() == 0 {
        assert(a + b =~= a);
        assert(manifests(a) + manifests(b) =~= manifests(a));
    } else {
        law_manifests_in_parts(a, b.drop_last(), entry);
        assert((a + b).drop_last() =~= a + b.drop_last());
        assert((a + b).last() == b.last());
        assert(manifests(a + b) =~= manifests(a) + manifests(b));
    }
    if entry is Ok {
        law_what_is_a_manifest(entry->Ok_0@);
    }
    assert(seq![entry].drop_last() =~= Seq::<Result<FilePath, E>>::empty());
    assert(seq![entry].last() == entry);
    assert(manifests(seq![entry].drop_last()) =~= Seq::<Seq<u8>>::empty());
    if entry is Ok {
        assert(Seq::<Seq<u8>>::empty().push(entry->Ok_0@) =~= seq![entry->Ok_0@]);
    }
}

} // verus!
