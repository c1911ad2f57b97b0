//! File paths by the Unix rules.
//!
//! A path is a string of bytes, and what it means is the list of its components.
//! Two paths with the same components are the same path: `a//b/.` is `a/b`.
//! Paths are compared, ordered and searched for by their components only; their
//! text matters where a path is shown or handed to the file system.

use vstd::prelude::*;

verus! {

/// The byte `/`, which separates components.
pub const SEPARATOR: u8 = 0x2f;

/// The byte `.`.
pub const DOT: u8 = 0x2e;

/// The component that stands for the root directory: `/`.
pub open spec fn root_component() -> Seq<u8> {
    seq![SEPARATOR]
}

/// The component that stands for the current directory: `.`.
pub open spec fn current_component() -> Seq<u8> {
    seq![DOT]
}

/// The component that stands for the parent directory: `..`.
pub open spec fn parent_component() -> Seq<u8> {
    seq![DOT, DOT]
}

/// The length of `text` up to its first separator, or all of it.
pub open spec fn segment_len(text: Seq<u8>) -> nat
    decreases text.len(),
{
    if text.len() == 0 || text[0] == SEPARATOR {
        0
    } else {
        1 + segment_len(text.skip(1))
    }
}

/// What `text` holds up to its first separator.
pub open spec fn first_segment(text: Seq<u8>) -> Seq<u8> {
    text.take(segment_len(text) as int)
}

/// What `text` holds behind its first separator.
pub open spec fn after_segment(text: Seq<u8>) -> Seq<u8> {
    if segment_len(text) < text.len() {
        text.skip(segment_len(text) as int + 1)
    } else {
        Seq::empty()
    }
}

/// The segments of `text` that name something: empty ones and `.` name nothing.
pub open spec fn names(text: Seq<u8>) -> Seq<Seq<u8>>
    decreases text.len(),
{
    if text.len() == 0 {
        Seq::empty()
    } else if first_segment(text).len() == 0 || first_segment(text) == current_component() {
        names(after_segment(text))
    } else {
        seq![first_segment(text)] + names(after_segment(text))
    }
}

/// What stands before the names: the root, a leading `.`, or nothing.
pub open spec fn lead(text: Seq<u8>) -> Seq<Seq<u8>> {
    if text.len() > 0 && text[0] == SEPARATOR {
        seq![root_component()]
    } else if first_segment(text) == current_component() {
        seq![current_component()]
    } else {
        Seq::empty()
    }
}

/// The components of the path that `text` writes.
pub open spec fn components(text: Seq<u8>) -> Seq<Seq<u8>> {
    lead(text) + names(text)
}

/// Whether a component is a name, and not the root, `.` or `..`.
pub open spec fn is_name(component: Seq<u8>) -> bool {
    component_rank(component) == 3
}

/// The place of a component's kind in the order of components.
pub open spec fn component_rank(component: Seq<u8>) -> int {
    if component == root_component() {
        0
    } else if component == current_component() {
        1
    } else if component == parent_component() {
        2
    } else {
        3
    }
}

/// The order of byte strings: the first difference decides, and a proper prefix comes first.
pub open spec fn bytes_before(a: Seq<u8>, b: Seq<u8>) -> bool
    decreases a.len(),
{
    if b.len() == 0 {
        false
    } else if a.len() == 0 {
        true
    } else if a[0] != b[0] {
        a[0] < b[0]
    } else {
        bytes_before(a.skip(1), b.skip(1))
    }
}

/// The order of components: by kind, then by their bytes.
pub open spec fn component_before(a: Seq<u8>, b: Seq<u8>) -> bool {
    if component_rank(a) != component_rank(b) {
        component_rank(a) < component_rank(b)
    } else {
        bytes_before(a, b)
    }
}

/// The order of paths, given by their components: the first difference decides, and a
/// directory comes before what lies in it.
pub open spec fn path_before(a: Seq<Seq<u8>>, b: Seq<Seq<u8>>) -> bool
    decreases a.len(),
{
    if b.len() == 0 {
        false
    } else if a.len() == 0 {
        true
    } else if a[0] != b[0] {
        component_before(a[0], b[0])
    } else {
        path_before(a.skip(1), b.skip(1))
    }
}

/// The views of a list of byte strings.
pub open spec fn texts(v: Seq<Vec<u8>>) -> Seq<Seq<u8>> {
    Seq::new(v.len(), |i: int| v[i]@)
}

/// Of two different byte strings exactly one comes before the other, and none before itself.
pub proof fn lemma_bytes_total(a: Seq<u8>, b: Seq<u8>)
    ensures
        bytes_before(a, b) ==> !bytes_before(b, a) && a != b,
        a != b ==> bytes_before(a, b) || bytes_before(b, a),
    decreases a.len(),
{
    if a.len() > 0 && b.len() > 0 && a[0] == b[0] {
        lemma_bytes_total(a.skip(1), b.skip(1));
        if a.skip(1) == b.skip(1) {
            assert(a =~= seq![a[0]] + a.skip(1));
            assert(b =~= seq![b[0]] + b.skip(1));
        }
    } else if a.len() == 0 && b.len() == 0 {
        assert(a =~= b);
    }
}

/// The order of byte strings is transitive.
pub proof fn lemma_bytes_transitive(a: Seq<u8>, b: Seq<u8>, c: Seq<u8>)
    requires
        bytes_before(a, b),
        bytes_before(b, c),
    ensures
        bytes_before(a, c),
    decreases a.len(),
{
    if a.len() > 0 && a[0] == b[0] && b[0] == c[0] {
        lemma_bytes_transitive(a.skip(1), b.skip(1), c.skip(1));
    }
}

/// Of two different components exactly one comes before the other, and none before itself.
pub proof fn lemma_component_total(a: Seq<u8>, b: Seq<u8>)
    ensures
        component_before(a, b) ==> !component_before(b, a) && a != b,
        a != b ==> component_before(a, b) || component_before(b, a),
{
    lemma_bytes_total(a, b);
}

/// The order of components is transitive.
pub proof fn lemma_component_transitive(a: Seq<u8>, b: Seq<u8>, c: Seq<u8>)
    requires
        component_before(a, b),
        component_before(b, c),
    ensures
        component_before(a, c),
{
    if component_rank(a) == component_rank(b) && component_rank(b) == component_rank(c) {
        lemma_bytes_transitive(a, b, c);
    }
}

/// Of two different paths exactly one comes before the other, and none before itself.
pub proof fn lemma_path_total(a: Seq<Seq<u8>>, b: Seq<Seq<u8>>)
    ensures
        path_before(a, b) ==> !path_before(b, a) && a != b,
        a != b ==> path_before(a, b) || path_before(b, a),
    decreases a.len(),
{
    if a.len() > 0 && b.len() > 0 {
        if a[0] == b[0] {
            lemma_path_total(a.skip(1), b.skip(1));
            if a.skip(1) == b.skip(1) {
                assert(a =~= seq![a[0]] + a.skip(1));
                assert(b =~= seq![b[0]] + b.skip(1));
            }
        } else {
            lemma_component_total(a[0], b[0]);
        }
    } else if a.len() == 0 && b.len() == 0 {
        assert(a =~= b);
    }
}

/// The order of paths is transitive.
pub proof fn lemma_path_transitive(a: Seq<Seq<u8>>, b: Seq<Seq<u8>>, c: Seq<Seq<u8>>)
    requires
        path_before(a, b),
        path_before(b, c),
    ensures
        path_before(a, c),
    decreases a.len(),
{
    if a.len() > 0 {
        if a[0] == b[0] && b[0] == c[0] {
            lemma_path_transitive(a.skip(1), b.skip(1), c.skip(1));
        } else if a[0] != b[0] && b[0] != c[0] {
            lemma_component_transitive(a[0], b[0], c[0]);
            lemma_component_total(a[0], c[0]);
        }
    }
}

/// A path comes before everything that lies in it.
pub proof fn law_directory_first(dir: Seq<Seq<u8>>, rest: Seq<Seq<u8>>)
    requires
        rest.len() > 0,
    ensures
        path_before(dir, dir + rest),
    decreases dir.len(),
{
    if dir.len() > 0 {
        assert((dir + rest).skip(1) =~= dir.skip(1) + rest);
        law_directory_first(dir.skip(1), rest);
    }
}

proof fn lemma_segment_len(text: Seq<u8>)
    ensures
        segment_len(text) <= text.len(),
        forall|i: int| 0 <= i < segment_len(text) ==> text[i] != SEPARATOR,
        segment_len(text) < text.len() ==> text[segment_len(text) as int] == SEPARATOR,
    decreases text.len(),
{
    if text.len() > 0 && text[0] != SEPARATOR {
        lemma_segment_len(text.skip(1));
        assert forall|i: int| 0 <= i < segment_len(text) implies text[i] != SEPARATOR by {
            if i > 0 {
                assert(text[i] == text.skip(1)[i - 1]);
            }
        }
    }
}

/// Scanning past the first segment and its separator, names already found stay first.
proof fn lemma_names_step(text: Seq<u8>)
    requires
        text.len() > 0,
    ensures
        segment_len(text) <= text.len(),
        after_segment(text).len() < text.len(),
        after_segment(text) =~= if segment_len(text) < text.len() {
            text.skip(segment_len(text) as int + 1)
        } else {
            text.skip(text.len() as int)
        },
{
    lemma_segment_len(text);
}

/// Names on either side of a separator add up.
proof fn lemma_names_concat(a: Seq<u8>, b: Seq<u8>)
    ensures
        names(a + seq![SEPARATOR] + b) == names(a) + names(b),
    decreases a.len(),
{
    let whole = a + seq![SEPARATOR] + b;
    lemma_segment_len(whole);
    lemma_segment_len(a);
    if a.len() == 0 {
        assert(segment_len(whole) == 0);
        assert(after_segment(whole) =~= b);
        assert(names(whole) == names(b));
        assert(names(a) + names(b) =~= names(b));
    } else {
        lemma_segment_concat(a, b);
        if segment_len(a) < a.len() {
            lemma_names_concat(after_segment(a), b);
            assert(after_segment(whole) =~= after_segment(a) + seq![SEPARATOR] + b);
        } else {
            assert(after_segment(whole) =~= b);
        }
        let head = if first_segment(a).len() == 0 || first_segment(a) == current_component() {
            Seq::<Seq<u8>>::empty()
        } else {
            seq![first_segment(a)]
        };
        assert(names(a) =~= head + names(after_segment(a)));
        assert(names(whole) =~= head + names(after_segment(whole)));
        assert(names(whole) =~= names(a) + names(b));
    }
}

/// A separator behind a text leaves its first segment as it is.
proof fn lemma_segment_concat(a: Seq<u8>, b: Seq<u8>)
    ensures
        segment_len(a + seq![SEPARATOR] + b) == segment_len(a),
        first_segment(a + seq![SEPARATOR] + b) == first_segment(a),
    decreases a.len(),
{
    let whole = a + seq![SEPARATOR] + b;
    lemma_segment_len(a);
    if a.len() > 0 && a[0] != SEPARATOR {
        assert(whole.skip(1) =~= a.skip(1) + seq![SEPARATOR] + b);
        lemma_segment_concat(a.skip(1), b);
    }
    assert(first_segment(whole) =~= first_segment(a));
}

/// The components of a path, a separator and a text are those of the path, then the
/// names in the text.
proof fn lemma_components_concat(a: Seq<u8>, b: Seq<u8>)
    requires
        a.len() > 0,
    ensures
        components(a + seq![SEPARATOR] + b) == components(a) + names(b),
{
    lemma_names_concat(a, b);
    lemma_segment_concat(a, b);
    assert(lead(a + seq![SEPARATOR] + b) == lead(a));
    assert(lead(a) + (names(a) + names(b)) =~= components(a) + names(b));
}

/// The same for a path that ends in a separator already.
proof fn lemma_components_append(a: Seq<u8>, b: Seq<u8>)
    requires
        a.len() > 0,
        a.last() == SEPARATOR,
    ensures
        components(a + b) == components(a) + names(b),
{
    let c = a.drop_last();
    assert(a =~= c + seq![SEPARATOR] + Seq::<u8>::empty());
    assert(a + b =~= c + seq![SEPARATOR] + b);
    lemma_names_concat(c, Seq::empty());
    lemma_names_concat(c, b);
    assert(names(a) =~= names(c));
    lemma_segment_concat(c, b);
    lemma_segment_concat(c, Seq::empty());
    assert(lead(a + b) == lead(a));
    assert(lead(a) + (names(c) + names(b)) =~= components(a) + names(b));
}

/// A text without a separator is one name, unless it is empty or `.`.
pub proof fn lemma_names_of_segment(segment: Seq<u8>)
    requires
        forall|i: int| 0 <= i < segment.len() ==> segment[i] != SEPARATOR,
    ensures
        names(segment) == if segment.len() == 0 || segment == current_component() {
            Seq::<Seq<u8>>::empty()
        } else {
            seq![segment]
        },
{
    lemma_segment_len(segment);
    if segment.len() > 0 {
        assert(segment_len(segment) == segment.len());
        assert(first_segment(segment) =~= segment);
        assert(names(after_segment(segment)) =~= Seq::<Seq<u8>>::empty());
        assert(seq![segment] + Seq::<Seq<u8>>::empty() =~= seq![segment]);
    }
}

/// A name has itself for its only component.
pub proof fn lemma_components_of_name(name: Seq<u8>)
    requires
        name.len() > 0,
        name != current_component(),
        forall|i: int| 0 <= i < name.len() ==> name[i] != SEPARATOR,
    ensures
        components(name) == seq![name],
{
    lemma_segment_len(name);
    lemma_names_of_segment(name);
    assert(first_segment(name) =~= name);
    assert(components(name) =~= seq![name]);
}

/// The empty text has no component.
pub proof fn lemma_components_of_empty(text: Seq<u8>)
    requires
        text.len() == 0,
    ensures
        components(text) == Seq::<Seq<u8>>::empty(),
{
    lemma_segment_len(text);
    assert(current_component().len() == 1);
    assert(first_segment(text).len() == 0);
    assert(components(text) =~= Seq::<Seq<u8>>::empty());
}

/// `/` has one component.
proof fn lemma_components_of_root()
    ensures
        components(root_component()) == seq![root_component()],
{
    let text = root_component();
    assert(segment_len(text) == 0);
    assert(after_segment(text) =~= Seq::<u8>::empty());
    assert(names(text) =~= names(after_segment(text)));
    assert(components(text) =~= seq![root_component()]);
}

/// `.` has one component.
proof fn lemma_components_of_dot()
    ensures
        components(current_component()) == seq![current_component()],
{
    let text = current_component();
    lemma_segment_len(text);
    lemma_names_of_segment(text);
    assert(segment_len(text) == 1);
    assert(first_segment(text) =~= current_component());
    assert(components(text) =~= seq![current_component()]);
}

/// A text whose first segment leads nothing has a first segment that leads nothing.
proof fn lemma_lead_of_segment(text: Seq<u8>)
    requires
        lead(text).len() == 0,
    ensures
        lead(first_segment(text)).len() == 0,
{
    let segment = first_segment(text);
    lemma_segment_len(text);
    lemma_segment_len(segment);
    if segment.len() > 0 {
        assert(segment[0] == text[0]);
    }
    assert(first_segment(segment) =~= segment);
}

/// A beginning of a text that stops inside a segment has that much of the segment for its
/// last component, if it names anything.
proof fn lemma_components_of_partial(text: Seq<u8>, start: int, k: int)
    requires
        0 <= start < k <= text.len(),
        start > 0 ==> text[start - 1] == SEPARATOR,
        forall|i: int| start <= i < k ==> text[i] != SEPARATOR,
    ensures
        components(text.take(k)) == if start > 0 && text.subrange(start, k)
            == current_component() {
            components(text.take(start))
        } else {
            components(text.take(start)).push(text.subrange(start, k))
        },
{
    let partial = text.subrange(start, k);
    assert(text.take(k) =~= text.take(start) + partial);
    lemma_names_of_segment(partial);
    if start > 0 {
        lemma_components_append(text.take(start), partial);
        assert(components(text.take(start)) + names(partial) =~= if partial
            == current_component() {
            components(text.take(start))
        } else {
            components(text.take(start)).push(partial)
        });
    } else {
        lemma_components_of_empty(text.take(start));
        assert(text.take(k) =~= partial);
        if partial == current_component() {
            lemma_components_of_dot();
        } else {
            lemma_components_of_name(partial);
        }
        assert(components(text.take(start)).push(partial) =~= seq![partial]);
    }
}

/// The name of the file or directory that a path leads to, if the path ends in a name.
pub open spec fn file_name(text: Seq<u8>) -> Option<Seq<u8>> {
    if components(text).len() > 0 && is_name(components(text).last()) {
        Some(components(text).last())
    } else {
        None
    }
}

/// Whether a path lies in a directory: not the empty path, nor the root.
pub open spec fn has_parent(text: Seq<u8>) -> bool {
    components(text).len() > 0 && components(text).last() != root_component()
}

/// Whether `dir` is the text of the directory that the path `text` lies in: the shortest
/// beginning of `text` that writes all components but the last.
pub open spec fn is_parent_text(dir: Seq<u8>, text: Seq<u8>) -> bool {
    &&& dir.is_prefix_of(text)
    &&& components(dir) == components(text).drop_last()
    &&& ends_in_component(text, dir.len() as int)
}

/// Whether no shorter beginning of `text` writes the same path as its first `end` bytes.
pub open spec fn ends_in_component(text: Seq<u8>, end: int) -> bool {
    forall|k: int|
        0 <= k < end ==> components(#[trigger] text.take(k)) != components(text.take(end))
}

/// The text of `path`, taken from the directory `base`.
pub open spec fn join_text(base: Seq<u8>, path: Seq<u8>) -> Seq<u8> {
    if path.len() > 0 && path[0] == SEPARATOR {
        path
    } else if base.len() == 0 || base.last() == SEPARATOR {
        base + path
    } else {
        base + seq![SEPARATOR] + path
    }
}

/// A path with a root stands for itself wherever it is taken from; any other path adds its
/// names to the components of the directory.
pub proof fn law_join_components(base: Seq<u8>, path: Seq<u8>)
    ensures
        path.len() > 0 && path[0] == SEPARATOR ==> components(join_text(base, path))
            == components(path),
        base.len() == 0 ==> components(join_text(base, path)) == components(path),
        base.len() > 0 && !(path.len() > 0 && path[0] == SEPARATOR) ==> components(
            join_text(base, path),
        ) == components(base) + names(path),
{
    if path.len() > 0 && path[0] == SEPARATOR {
    } else if base.len() == 0 {
        assert(base + path =~= path);
    } else if base.last() == SEPARATOR {
        lemma_components_append(base, path);
    } else {
        lemma_components_concat(base, path);
    }
}

/// A path taken from a directory lies in that directory, unless the path has a root.
pub proof fn law_join_inside(base: Seq<u8>, path: Seq<u8>)
    requires
        !(path.len() > 0 && path[0] == SEPARATOR),
    ensures
        components(base).is_prefix_of(components(join_text(base, path))),
{
    law_join_components(base, path);
    if base.len() == 0 {
        lemma_components_of_empty(base);
    } else {
        assert(components(base) =~= (components(base) + names(path)).subrange(
            0,
            components(base).len() as int,
        ));
    }
}

/// No name in a text is the root or `.`.
proof fn lemma_names_are_proper(text: Seq<u8>)
    ensures
        forall|i: int|
            0 <= i < names(text).len() ==> #[trigger] names(text)[i] != root_component()
                && names(text)[i] != current_component(),
    decreases text.len(),
{
    if text.len() > 0 {
        lemma_segment_len(text);
        let first = first_segment(text);
        let rest = names(after_segment(text));
        lemma_names_are_proper(after_segment(text));
        if first.len() > 0 && first != current_component() {
            assert(first[0] == text[0]);
            assert(root_component()[0] == SEPARATOR);
            assert forall|i: int| 0 <= i < names(text).len() implies #[trigger] names(text)[i]
                != root_component() && names(text)[i] != current_component() by {
                if i > 0 {
                    assert(names(text)[i] == rest[i - 1]);
                }
            }
        }
    }
}

/// A text without components is empty.
proof fn lemma_no_components(text: Seq<u8>)
    requires
        components(text).len() == 0,
    ensures
        text.len() == 0,
{
    lemma_segment_len(text);
    if text.len() > 0 {
        assert(first_segment(text).len() > 0);
    }
}

/// What lies in a path still lies in it once both are taken from a directory. The one
/// exception is the empty path, in which a path with a root does not lie then.
pub proof fn law_join_keeps_inside(base: Seq<u8>, dir: Seq<u8>, path: Seq<u8>)
    requires
        components(dir).is_prefix_of(components(path)),
        dir.len() > 0 || !(path.len() > 0 && path[0] == SEPARATOR),
    ensures
        components(join_text(base, dir)).is_prefix_of(components(join_text(base, path))),
{
    lemma_names_are_proper(dir);
    lemma_names_are_proper(path);
    law_join_components(base, dir);
    law_join_components(base, path);
    let a = components(dir);
    let b = components(path);
    assert(forall|i: int| 0 <= i < a.len() ==> a[i] == b.subrange(0, a.len() as int)[i]);
    if a.len() == 0 {
        lemma_no_components(dir);
        lemma_names_of_segment(dir);
        law_join_inside(base, path);
        if base.len() > 0 {
            assert(components(base) + names(dir) =~= components(base));
        }
    } else {
        assert(a[0] == b[0]);
        assert(root_component()[0] == SEPARATOR && current_component()[0] == DOT);
        assert(lead(dir).len() <= 1 && lead(path).len() <= 1);
        assert(lead(dir) =~= lead(path)) by {
            if lead(dir).len() == 1 {
                assert(a[0] == lead(dir)[0]);
                if lead(path).len() == 0 {
                    assert(b[0] == names(path)[0]);
                } else {
                    assert(b[0] == lead(path)[0]);
                }
            } else {
                assert(a[0] == names(dir)[0]);
                if lead(path).len() == 1 {
                    assert(b[0] == lead(path)[0]);
                }
            }
        }
        let n = lead(dir).len() as int;
        assert forall|i: int| 0 <= i < names(dir).len() implies names(dir)[i] == names(
            path,
        )[i] by {
            assert(names(dir)[i] == a[i + n]);
            assert(names(path)[i] == b[i + n]);
        }
        let whole = components(join_text(base, path));
        let part = components(join_text(base, dir));
        assert(part =~= whole.subrange(0, part.len() as int));
    }
}

/// A path: its text, as raw bytes.
#[derive(Debug)]
pub struct FilePath {
    text: Vec<u8>,
}

impl View for FilePath {
    type V = Seq<u8>;

    closed spec fn view(&self) -> Seq<u8> {
        self.text@
    }
}

impl Clone for FilePath {
    fn clone(&self) -> (r: Self)
        ensures
            r@ == self@,
    {
        FilePath { text: copy_range(&self.text, 0, self.text.len()) }
    }
}

/// The views of a list of paths.
pub open spec fn path_texts(v: Seq<FilePath>) -> Seq<Seq<u8>> {
    Seq::new(v.len(), |i: int| v[i]@)
}

/// The bytes of `bytes` from `start` up to `end`.
fn copy_range(bytes: &Vec<u8>, start: usize, end: usize) -> (r: Vec<u8>)
    requires
        start <= end <= bytes@.len(),
    ensures
        r@ == bytes@.subrange(start as int, end as int),
{
    let mut r: Vec<u8> = Vec::new();
    let mut i: usize = start;
    while i < end
        invariant
            start <= i <= end <= bytes@.len(),
            r@ == bytes@.subrange(start as int, i as int),
        decreases end - i,
    {
        r.push(bytes[i]);
        i += 1;
    }
    r
}

/// Whether two byte strings are equal.
pub fn same_bytes(a: &Vec<u8>, b: &Vec<u8>) -> (r: bool)
    ensures
        r == (a@ == b@),
{
    if a.len() != b.len() {
        return false;
    }
    let mut i: usize = 0;
    while i < a.len()
        invariant
            i <= a@.len(),
            a@.len() == b@.len(),
            forall|j: int| 0 <= j < i ==> a@[j] == b@[j],
        decreases a@.len() - i,
    {
        if a[i] != b[i] {
            return false;
        }
        i += 1;
    }
    assert(a@ =~= b@);
    true
}

/// Whether `a` comes before `b` in the order of byte strings.
fn exec_bytes_before(a: &Vec<u8>, b: &Vec<u8>) -> (r: bool)
    ensures
        r == bytes_before(a@, b@),
{
    let mut i: usize = 0;
    assert(a@.skip(0) =~= a@ && b@.skip(0) =~= b@);
    while i < a.len() && i < b.len()
        invariant
            i <= a@.len(),
            i <= b@.len(),
            bytes_before(a@, b@) == bytes_before(a@.skip(i as int), b@.skip(i as int)),
        decreases a@.len() - i,
    {
        if a[i] != b[i] {
            return a[i] < b[i];
        }
        assert(a@.skip(i as int).skip(1) =~= a@.skip(i + 1));
        assert(b@.skip(i as int).skip(1) =~= b@.skip(i + 1));
        i += 1;
    }
    i < b.len()
}

/// The place of a component's kind in the order of components.
fn exec_component_rank(component: &Vec<u8>) -> (r: u8)
    ensures
        r == component_rank(component@),
{
    let n: usize = component.len();
    if n == 1 && component[0] == SEPARATOR {
        assert(component@ =~= root_component());
        0
    } else if n == 1 && component[0] == DOT {
        assert(component@ =~= current_component());
        1
    } else if n == 2 && component[0] == DOT && component[1] == DOT {
        assert(component@ =~= parent_component());
        2
    } else {
        assert(component@ != root_component() && component@ != current_component()
            && component@ != parent_component());
        3
    }
}

/// Whether `a` comes before `b` in the order of paths.
fn exec_path_before(a: &Vec<Vec<u8>>, b: &Vec<Vec<u8>>) -> (r: bool)
    ensures
        r == path_before(texts(a@), texts(b@)),
{
    let mut i: usize = 0;
    let ghost ta = texts(a@);
    let ghost tb = texts(b@);
    assert(ta.skip(0) =~= ta && tb.skip(0) =~= tb);
    while i < a.len() && i < b.len()
        invariant
            i <= a@.len(),
            i <= b@.len(),
            ta == texts(a@),
            tb == texts(b@),
            path_before(ta, tb) == path_before(ta.skip(i as int), tb.skip(i as int)),
        decreases a@.len() - i,
    {
        if !same_bytes(&a[i], &b[i]) {
            let ra: u8 = exec_component_rank(&a[i]);
            let rb: u8 = exec_component_rank(&b[i]);
            if ra != rb {
                return ra < rb;
            }
            return exec_bytes_before(&a[i], &b[i]);
        }
        assert(ta.skip(i as int).skip(1) =~= ta.skip(i + 1));
        assert(tb.skip(i as int).skip(1) =~= tb.skip(i + 1));
        i += 1;
    }
    i < b.len()
}

/// Whether two lists of components are equal.
fn same_components(a: &Vec<Vec<u8>>, b: &Vec<Vec<u8>>) -> (r: bool)
    ensures
        r == (texts(a@) == texts(b@)),
{
    if a.len() != b.len() {
        assert(texts(a@).len() != texts(b@).len());
        return false;
    }
    is_prefix(b, a)
}

/// Whether the components `a` begin with the components `b`.
fn is_prefix(b: &Vec<Vec<u8>>, a: &Vec<Vec<u8>>) -> (r: bool)
    ensures
        r == texts(b@).is_prefix_of(texts(a@)),
        a@.len() == b@.len() ==> r == (texts(a@) == texts(b@)),
{
    if b.len() > a.len() {
        return false;
    }
    let mut i: usize = 0;
    while i < b.len()
        invariant
            i <= b@.len() <= a@.len(),
            forall|j: int| 0 <= j < i ==> texts(a@)[j] == texts(b@)[j],
        decreases b@.len() - i,
    {
        if !same_bytes(&a[i], &b[i]) {
            assert(texts(a@)[i as int] != texts(b@)[i as int]);
            assert(texts(a@).subrange(0, b@.len() as int)[i as int] == texts(a@)[i as int]);
            return false;
        }
        i += 1;
    }
    assert(texts(b@) =~= texts(a@).subrange(0, b@.len() as int));
    assert(a@.len() == b@.len() ==> texts(b@) =~= texts(a@));
    true
}

impl FilePath {
    /// The path that `text` writes.
    pub fn new(text: Vec<u8>) -> (r: FilePath)
        ensures
            r@ == text@,
    {
        FilePath { text }
    }

    /// The text of the path.
    pub fn text(&self) -> (r: &Vec<u8>)
        ensures
            r@ == self@,
    {
        &self.text
    }

    /// The text of the path, by value.
    pub fn into_text(self) -> (r: Vec<u8>)
        ensures
            r@ == self@,
    {
        self.text
    }

    /// Where the segment that starts at `start` ends.
    fn segment_end(&self, start: usize) -> (r: usize)
        requires
            start <= self@.len(),
        ensures
            r == start + segment_len(self@.skip(start as int)),
            start <= r <= self@.len(),
    {
        let mut i: usize = start;
        while i < self.text.len() && self.text[i] != SEPARATOR
            invariant
                start <= i <= self.text@.len(),
                segment_len(self.text@.skip(start as int)) == i - start + segment_len(
                    self.text@.skip(i as int),
                ),
            decreases self.text@.len() - i,
        {
            assert(self.text@.skip(i as int).skip(1) =~= self.text@.skip(i + 1));
            i += 1;
        }
        i
    }

    /// The components of the path, in order.
    pub fn components(&self) -> (r: Vec<Vec<u8>>)
        ensures
            texts(r@) == components(self@),
    {
        let mut r: Vec<Vec<u8>> = Vec::new();
        let n: usize = self.text.len();
        assert(self@.skip(0) =~= self@);
        let first: usize = self.segment_end(0);
        if n > 0 && self.text[0] == SEPARATOR {
            r.push(copy_range(&self.text, 0, 1));
            assert(r@[0]@ =~= root_component());
        } else if first == 1 && self.text[0] == DOT {
            r.push(copy_range(&self.text, 0, 1));
            assert(r@[0]@ =~= current_component());
            assert(first_segment(self@) =~= current_component());
        } else {
            assert(first_segment(self@) != current_component()) by {
                if first_segment(self@) == current_component() {
                    assert(first_segment(self@).len() == 1);
                    assert(first_segment(self@)[0] == self@[0]);
                }
            }
        }
        assert(texts(r@) =~= lead(self@));
        let mut start: usize = 0;
        assert(lead(self@) + names(self@) =~= texts(r@) + names(self@.skip(0)));
        while start < n
            invariant
                start <= n == self.text@.len(),
                self.text@ == self@,
                components(self@) == texts(r@) + names(self@.skip(start as int)),
            decreases n - start,
        {
            let ghost rest = self@.skip(start as int);
            let ghost before = r@;
            let end: usize = self.segment_end(start);
            proof {
                lemma_names_step(rest);
                assert(first_segment(rest) =~= self@.subrange(start as int, end as int));
            }
            if end > start && !(end == start + 1 && self.text[start] == DOT) {
                r.push(copy_range(&self.text, start, end));
                assert(first_segment(rest) != current_component()) by {
                    if first_segment(rest) == current_component() {
                        assert(first_segment(rest)[0] == self@[start as int]);
                    }
                }
                assert(texts(r@) =~= texts(before) + seq![first_segment(rest)]);
                assert(texts(before) + (seq![first_segment(rest)] + names(after_segment(rest)))
                    =~= texts(r@) + names(after_segment(rest)));
            } else if end > start {
                assert(first_segment(rest) =~= current_component());
            }
            if end < n {
                start = end + 1;
                assert(after_segment(rest) =~= self@.skip(start as int));
            } else {
                start = n;
                assert(after_segment(rest) =~= self@.skip(start as int));
            }
        }
        assert(names(self@.skip(n as int)) =~= Seq::<Seq<u8>>::empty());
        assert(texts(r@) =~= components(self@));
        r
    }

    /// Whether two texts write the same path.
    pub fn same_path(&self, other: &FilePath) -> (r: bool)
        ensures
            r == (components(self@) == components(other@)),
    {
        same_components(&self.components(), &other.components())
    }

    /// Whether the path comes before `other` in the order of paths.
    pub fn precedes(&self, other: &FilePath) -> (r: bool)
        ensures
            r == path_before(components(self@), components(other@)),
    {
        exec_path_before(&self.components(), &other.components())
    }

    /// Whether the path is `base` or lies in it.
    pub fn starts_with(&self, base: &FilePath) -> (r: bool)
        ensures
            r == components(base@).is_prefix_of(components(self@)),
    {
        is_prefix(&base.components(), &self.components())
    }

    /// Whether the components of the path end with those of `child`.
    pub fn ends_with(&self, child: &FilePath) -> (r: bool)
        ensures
            r == components(child@).is_suffix_of(components(self@)),
    {
        let a: Vec<Vec<u8>> = self.components();
        let b: Vec<Vec<u8>> = child.components();
        if b.len() > a.len() {
            return false;
        }
        let offset: usize = a.len() - b.len();
        let mut i: usize = 0;
        while i < b.len()
            invariant
                i <= b@.len() <= a@.len(),
                offset == a@.len() - b@.len(),
                texts(a@) == components(self@),
                texts(b@) == components(child@),
                b@.len() <= usize::MAX,
                a@.len() <= usize::MAX,
                forall|j: int| 0 <= j < i ==> texts(a@)[offset + j] == texts(b@)[j],
            decreases b@.len() - i,
        {
            if !same_bytes(&a[offset + i], &b[i]) {
                assert(texts(a@)[offset + i] != texts(b@)[i as int]);
                assert(texts(a@).subrange(offset as int, a@.len() as int)[i as int] == texts(
                    a@,
                )[offset + i]);
                return false;
            }
            i += 1;
        }
        assert(texts(b@) =~= texts(a@).subrange(offset as int, a@.len() as int));
        true
    }

    /// The name of the file or directory that the path leads to, if it ends in a name.
    pub fn file_name(&self) -> (r: Option<Vec<u8>>)
        ensures
            match r {
                Some(name) => file_name(self@) == Some(name@),
                None => file_name(self@) is None,
            },
    {
        let mut parts: Vec<Vec<u8>> = self.components();
        let ghost all = texts(parts@);
        match parts.pop() {
            Some(last) => {
                assert(last@ == all.last());
                if exec_component_rank(&last) == 3 {
                    Some(last)
                } else {
                    None
                }
            },
            None => None,
        }
    }

    /// The path `path`, taken from this directory.
    pub fn join(&self, path: &FilePath) -> (r: FilePath)
        ensures
            r@ == join_text(self@, path@),
    {
        if path.text.len() > 0 && path.text[0] == SEPARATOR {
            return path.clone();
        }
        let mut text: Vec<u8> = copy_range(&self.text, 0, self.text.len());
        assert(text@ =~= self@);
        if text.len() > 0 && text[text.len() - 1] != SEPARATOR {
            text.push(SEPARATOR);
        }
        let ghost base = text@;
        let mut i: usize = 0;
        assert(base + path@.subrange(0, 0) =~= base);
        while i < path.text.len()
            invariant
                i <= path.text@.len(),
                path.text@ == path@,
                text@ == base + path@.subrange(0, i as int),
            decreases path.text@.len() - i,
        {
            text.push(path.text[i]);
            assert(path@.subrange(0, i + 1) =~= path@.subrange(0, i as int).push(path@[i as int]));
            i += 1;
        }
        assert(path@.subrange(0, path@.len() as int) =~= path@);
        FilePath { text }
    }

    /// The directory that the path lies in. Its text is the beginning of this one, up to
    /// the end of the last component but one.
    pub fn parent(&self) -> (r: Option<FilePath>)
        ensures
            match r {
                Some(dir) => {
                    &&& has_parent(self@)
                    &&& is_parent_text(dir@, self@)
                },
                None => !has_parent(self@),
            },
    {
        let n: usize = self.text.len();
        let ghost text = self@;
        let mut found: bool = false;
        let mut dir_end: usize = 0;
        let mut end: usize = 0;
        let mut start: usize = 0;
        let first: usize = self.segment_end(0);
        assert(text.skip(0) =~= text);
        assert(text.take(n as int) =~= text);
        proof {
            lemma_components_of_empty(text.take(0));
        }
        if n > 0 && self.text[0] == SEPARATOR {
            end = 1;
            start = 1;
            proof {
                assert(text.take(1) =~= root_component());
                lemma_components_of_root();
            }
        } else if first == 1 && self.text[0] == DOT {
            end = 1;
            found = true;
            start = if n > 1 {
                2
            } else {
                1
            };
            proof {
                assert(first_segment(text) =~= current_component());
                assert(text.take(1) =~= current_component());
                lemma_components_of_dot();
                lemma_segment_len(text);
                if n > 1 {
                    assert(text.take(2) =~= current_component() + seq![SEPARATOR] + Seq::<
                        u8,
                    >::empty());
                    lemma_components_concat(current_component(), Seq::empty());
                    assert(components(text.take(2)) =~= components(text.take(1)));
                }
            }
        } else {
            assert(first_segment(text) != current_component()) by {
                if first_segment(text) == current_component() {
                    assert(first_segment(text).len() == 1);
                    assert(first_segment(text)[0] == text[0]);
                }
            }
        }
        while start < n
            invariant
                n == text.len(),
                text == self@,
                self.text@ == self@,
                dir_end <= end <= start <= n,
                start == 0 ==> lead(text).len() == 0,
                0 < start < n ==> text[start - 1] == SEPARATOR,
                components(text.take(start as int)) == components(text.take(end as int)),
                forall|k: int|
                    0 <= k <= start ==> components(#[trigger] text.take(k)).len() <= components(
                        text.take(start as int),
                    ).len(),
                ends_in_component(text, dir_end as int),
                ends_in_component(text, end as int),
                found ==> has_parent(text.take(end as int)) && components(
                    text.take(dir_end as int),
                ) == components(text.take(end as int)).drop_last(),
                !found ==> !has_parent(text.take(end as int)),
            decreases n - start,
        {
            let stop: usize = self.segment_end(start);
            let ghost segment = text.subrange(start as int, stop as int);
            proof {
                lemma_segment_len(text.skip(start as int));
                assert forall|i: int| 0 <= i < segment.len() implies segment[i] != SEPARATOR by {
                    assert(segment[i] == text.skip(start as int)[i]);
                }
                lemma_names_of_segment(segment);
                assert(text.take(stop as int) =~= text.take(start as int) + segment);
                if start > 0 {
                    lemma_components_append(text.take(start as int), segment);
                } else {
                    assert(text.skip(0) =~= text);
                    assert(text.take(stop as int) =~= first_segment(text));
                    assert(segment =~= first_segment(text));
                    lemma_lead_of_segment(text);
                    lemma_components_of_empty(text.take(0));
                    assert(components(segment) =~= names(segment));
                    assert(components(text.take(0)) + names(segment) =~= names(segment));
                }
                assert(components(text.take(stop as int)) == components(text.take(start as int))
                    + names(segment));
                if stop < n {
                    assert(text[stop as int] == text.skip(start as int)[stop - start]);
                    assert(text.take(stop + 1) =~= text.take(stop as int) + seq![SEPARATOR] + Seq::<
                        u8,
                    >::empty());
                    if stop > 0 {
                        lemma_components_concat(text.take(stop as int), Seq::empty());
                        assert(components(text.take(stop + 1)) =~= components(
                            text.take(stop as int),
                        ));
                    }
                }
                assert forall|k: int| start < k <= stop implies ({
                    let all = components(#[trigger] text.take(k));
                    &&& all.len() <= components(text.take(stop as int)).len()
                    &&& k < stop ==> all != components(text.take(start as int)).push(segment)
                }) by {
                    assert forall|i: int| start <= i < stop implies text[i] != SEPARATOR by {
                        assert(text[i] == segment[i - start]);
                    }
                    lemma_components_of_partial(text, start as int, k);
                    lemma_components_of_partial(text, start as int, stop as int);
                    assert(text.subrange(start as int, k).len() == k - start);
                    if k < stop {
                        let all = components(text.take(k));
                        if all == components(text.take(start as int)).push(segment) {
                            assert(all.last() == segment);
                        }
                    }
                }
            }
            if stop > start && !(stop == start + 1 && self.text[start] == DOT) {
                assert(segment != current_component()) by {
                    if segment == current_component() {
                        assert(segment[0] == text[start as int]);
                    }
                }
                assert(components(text.take(stop as int)).drop_last() =~= components(
                    text.take(end as int),
                ));
                assert(segment != root_component()) by {
                    if segment == root_component() {
                        assert(segment[0] == SEPARATOR);
                    }
                }
                assert(components(text.take(stop as int)) =~= components(
                    text.take(start as int),
                ).push(segment));
                assert(ends_in_component(text, stop as int)) by {
                    assert forall|k: int| 0 <= k < stop implies components(
                        #[trigger] text.take(k),
                    ) != components(text.take(stop as int)) by {
                        if k <= start {
                            assert(components(text.take(k)).len() <= components(
                                text.take(start as int),
                            ).len());
                        }
                    }
                }
                dir_end = end;
                end = stop;
                found = true;
            } else if stop > start {
                assert(segment =~= current_component());
                assert(components(text.take(stop as int)) =~= components(text.take(start as int)));
            } else {
                assert(components(text.take(stop as int)) =~= components(text.take(start as int)));
            }
            start = if stop < n {
                stop + 1
            } else {
                n
            };
        }
        if !found {
            return None;
        }
        let dir: Vec<u8> = copy_range(&self.text, 0, dir_end);
        assert(dir@ =~= text.take(dir_end as int));
        Some(FilePath { text: dir })
    }
}

/// The texts of a list of paths are those of its paths, in order and all of them.
pub proof fn law_path_texts(paths: Seq<FilePath>)
    ensures
        path_texts(paths).len() == paths.len(),
        forall|i: int| 0 <= i < paths.len() ==> #[trigger] path_texts(paths)[i] == paths[i]@,
{
}

/// What the components of a text are, segment by segment: a root or a leading `.` is one, a
/// name is one, a name behind a separator comes last, and a separator or a `.` behind one at
/// the end is none.
pub proof fn law_components_by_segments(text: Seq<u8>, name: Seq<u8>)
    requires
        text.len() > 0,
        name.len() > 0,
        name != seq![0x2eu8],
        forall|i: int| 0 <= i < name.len() ==> name[i] != 0x2fu8,
    ensures
        components(Seq::empty()) == Seq::<Seq<u8>>::empty(),
        components(seq![0x2fu8]) == seq![seq![0x2fu8]],
        components(seq![0x2eu8]) == seq![seq![0x2eu8]],
        components(name) == seq![name],
        components(text + seq![0x2fu8] + name) == components(text).push(name),
        components(text + seq![0x2fu8]) == components(text),
        components(text + seq![0x2fu8] + seq![0x2eu8]) == components(text),
        components(seq![0x2fu8] + name) == seq![seq![0x2fu8], name],
{
    let dot = seq![0x2eu8];
    assert(current_component() =~= dot);
    assert(root_component() =~= seq![0x2fu8]);
    lemma_components_of_empty(Seq::empty());
    lemma_components_of_root();
    lemma_components_of_dot();
    lemma_components_of_name(name);
    lemma_names_of_segment(name);
    lemma_names_of_segment(dot);
    lemma_components_concat(text, name);
    assert(components(text) + names(name) =~= components(text).push(name));
    lemma_components_concat(text, Seq::empty());
    assert(text + seq![SEPARATOR] + Seq::<u8>::empty() =~= text + seq![0x2fu8]);
    assert(components(text) + names(Seq::empty()) =~= components(text));
    lemma_components_concat(text, dot);
    assert(components(text) + names(dot) =~= components(text));
    lemma_components_append(seq![0x2fu8], name);
    assert(components(seq![0x2fu8]) + names(name) =~= seq![seq![0x2fu8], name]);
}

/// The text of a path taken from a directory: the path itself if it begins with a separator,
/// else the directory and the path with one separator between them, or none where the directory
/// is empty or ends in one.
pub proof fn law_joined_text(base: Seq<u8>, path: Seq<u8>)
    ensures
        path.len() > 0 && path[0] == 0x2f ==> join_text(base, path) == path,
        !(path.len() > 0 && path[0] == 0x2f) ==> {
            let whole = join_text(base, path);
            let between = if base.len() == 0 || base.last() == 0x2f {
                0int
            } else {
                1int
            };
            &&& whole.len() == base.len() + between + path.len()
            &&& whole.take(base.len() as int) == base
            &&& whole.skip(base.len() + between) == path
            &&& between == 1 ==> whole[base.len() as int] == 0x2f
        },
{
    if !(path.len() > 0 && path[0] == 0x2f) {
        let whole = join_text(base, path);
        let between = if base.len() == 0 || base.last() == 0x2f {
            0int
        } else {
            1int
        };
        assert(whole.take(base.len() as int) =~= base);
        assert(whole.skip(base.len() + between) =~= path);
    }
}

/// The first byte in which two byte strings differ decides their order, and a proper beginning
/// comes first.
pub proof fn law_first_byte_decides(a: Seq<u8>, b: Seq<u8>, i: int)
    requires
        0 <= i <= a.len(),
        i < b.len(),
        a.take(i) == b.take(i),
        i == a.len() || a[i] < b[i],
    ensures
        bytes_before(a, b),
        !bytes_before(b, a),
    decreases i,
{
    if i > 0 {
        assert(a[0] == a.take(i)[0] && b[0] == b.take(i)[0]);
        assert(a.skip(1).take(i - 1) =~= a.take(i).skip(1));
        assert(b.skip(1).take(i - 1) =~= b.take(i).skip(1));
        law_first_byte_decides(a.skip(1), b.skip(1), i - 1);
    }
    lemma_bytes_total(a, b);
}

/// The root comes before `.`, that before `..`, and that before every name; names are ordered
/// by their bytes.
pub proof fn law_order_of_components(a: Seq<u8>, b: Seq<u8>)
    requires
        a != seq![0x2fu8] && a != seq![0x2eu8] && a != seq![0x2eu8, 0x2eu8],
        b != seq![0x2fu8] && b != seq![0x2eu8] && b != seq![0x2eu8, 0x2eu8],
    ensures
        component_before(seq![0x2fu8], seq![0x2eu8]),
        component_before(seq![0x2eu8], seq![0x2eu8, 0x2eu8]),
        component_before(seq![0x2eu8, 0x2eu8], a),
        component_before(a, b) <==> bytes_before(a, b),
        is_name(a),
        !is_name(seq![0x2fu8]) && !is_name(seq![0x2eu8]) && !is_name(seq![0x2eu8, 0x2eu8]),
{
    assert(root_component() =~= seq![0x2fu8]);
    assert(current_component() =~= seq![0x2eu8]);
    assert(parent_component() =~= seq![0x2eu8, 0x2eu8]);
    assert(seq![0x2fu8][0] != seq![0x2eu8][0]);
    assert(seq![0x2eu8, 0x2eu8].len() == 2 && seq![0x2fu8].len() == 1 && seq![0x2eu8].len() == 1);
}

/// The first component in which two paths differ decides their order.
pub proof fn law_first_component_decides(a: Seq<Seq<u8>>, b: Seq<Seq<u8>>, i: int)
    requires
        0 <= i < a.len(),
        i < b.len(),
        a.take(i) == b.take(i),
        a[i] != b[i],
    ensures
        path_before(a, b) <==> component_before(a[i], b[i]),
    decreases i,
{
    if i > 0 {
        assert(a[0] == a.take(i)[0] && b[0] == b.take(i)[0]);
        assert(a.skip(1).take(i - 1) =~= a.take(i).skip(1));
        assert(b.skip(1).take(i - 1) =~= b.take(i).skip(1));
        law_first_component_decides(a.skip(1), b.skip(1), i - 1);
    }
}

/// A path has a file name exactly if its last component is neither the root nor `.` nor `..`,
/// and then it is that component; it lies in a directory unless it is empty or the root.
pub proof fn law_file_name_and_parent(text: Seq<u8>)
    ensures
        ({
            let all = components(text);
            let named = all.len() > 0 && all.last() != seq![0x2fu8] && all.last() != seq![0x2eu8]
                && all.last() != seq![0x2eu8, 0x2eu8];
            &&& file_name(text) is Some <==> named
            &&& named ==> file_name(text) == Some(all.last())
            &&& has_parent(text) <==> all.len() > 0 && all.last() != seq![0x2fu8]
        }),
{
    assert(root_component() =~= seq![0x2fu8]);
    assert(current_component() =~= seq![0x2eu8]);
    assert(parent_component() =~= seq![0x2eu8, 0x2eu8]);
}

/// The text of the directory that a path lies in is a beginning of its text, writes all its
/// components but the last, and no shorter beginning writes the same.
pub proof fn law_parent_text(dir: Seq<u8>, text: Seq<u8>)
    requires
        is_parent_text(dir, text),
    ensures
        dir.len() <= text.len(),
        text.take(dir.len() as int) == dir,
        components(dir) == components(text).drop_last(),
        forall|k: int|
            0 <= k < dir.len() ==> components(#[trigger] text.take(k)) != components(dir),
{
    assert(text.take(dir.len() as int) =~= dir);
}

} // verus!
