//! What is known about each package from this run and earlier ones.
//!
//! The database keeps one record for each manifest, in the order of the manifests' paths.
//! A record is found again by its path, so by the components of that.

use vstd::prelude::*;
use vstd::string::*;

use crate::path::{
    components, lemma_path_total, lemma_path_transitive, path_before, path_texts, FilePath,
};
use crate::text::strings;

verus! {

/// What the analysis of a package found.
#[derive(Clone, Debug)]
pub struct Deps {
    /// The dependencies that nothing uses.
    pub unused: Vec<String>,
    /// The dependencies that are marked as ignored and yet used.
    pub ignored_used: Vec<String>,
    /// The name of the package.
    pub package_name: String,
}

/// What is known about a package.
#[derive(Clone, Debug)]
pub struct CargoDep {
    /// The checksum of the package when it was last looked at.
    pub checksum: String,
    /// What the analysis found; nothing if the package is still to be analysed.
    pub deps: Option<Deps>,
    /// The run that saw the package last.
    pub unique_run_id: String,
}

/// What a `Deps` says.
pub struct DepsView {
    pub unused: Seq<Seq<char>>,
    pub ignored_used: Seq<Seq<char>>,
    pub package_name: Seq<char>,
}

/// What a `CargoDep` says.
pub struct CargoDepView {
    pub checksum: Seq<char>,
    pub deps: Option<DepsView>,
    pub unique_run_id: Seq<char>,
}

/// A record of the database: a manifest and what is known about its package.
pub struct RecordView {
    pub path: Seq<u8>,
    pub dep: CargoDepView,
}

impl View for Deps {
    type V = DepsView;

    open spec fn view(&self) -> DepsView {
        DepsView {
            unused: strings(self.unused@),
            ignored_used: strings(self.ignored_used@),
            package_name: self.package_name@,
        }
    }
}

impl View for CargoDep {
    type V = CargoDepView;

    open spec fn view(&self) -> CargoDepView {
        CargoDepView {
            checksum: self.checksum@,
            deps: match self.deps {
                Some(deps) => Some(deps@),
                None => None,
            },
            unique_run_id: self.unique_run_id@,
        }
    }
}

/// The path that a record is found by.
pub open spec fn key(record: RecordView) -> Seq<Seq<u8>> {
    components(record.path)
}

/// Whether records stand in the order of their paths, each path once.
pub open spec fn sorted(records: Seq<RecordView>) -> bool {
    forall|i: int, j: int|
        0 <= i < j < records.len() ==> path_before(
            key(#[trigger] records[i]),
            key(#[trigger] records[j]),
        )
}

/// Whether one of `records` is at place `i` and has the path `path`.
pub open spec fn stands_at(records: Seq<RecordView>, i: int, path: Seq<Seq<u8>>) -> bool {
    0 <= i < records.len() && key(records[i]) == path
}

/// The records by their paths.
pub open spec fn record_map(records: Seq<RecordView>) -> Map<Seq<Seq<u8>>, RecordView> {
    Map::new(
        |path: Seq<Seq<u8>>| exists|i: int| stands_at(records, i, path),
        |path: Seq<Seq<u8>>| records[choose|i: int| stands_at(records, i, path)],
    )
}

/// Every record is found by its path.
pub proof fn lemma_found(records: Seq<RecordView>, i: int)
    requires
        sorted(records),
        0 <= i < records.len(),
    ensures
        record_map(records).contains_key(key(records[i])),
        record_map(records)[key(records[i])] == records[i],
{
    let path = key(records[i]);
    assert(stands_at(records, i, path));
    let j = choose|j: int| stands_at(records, j, path);
    if i != j {
        lemma_path_total(path, path);
    }
}

/// What is found by a path is a record with that path.
pub proof fn lemma_found_path(records: Seq<RecordView>, path: Seq<Seq<u8>>)
    requires
        record_map(records).contains_key(path),
    ensures
        key(record_map(records)[path]) == path,
        exists|i: int| stands_at(records, i, path) && records[i] == record_map(records)[path],
{
    let i = choose|i: int| stands_at(records, i, path);
    assert(stands_at(records, i, path));
}

proof fn lemma_update(records: Seq<RecordView>, i: int, record: RecordView)
    requires
        sorted(records),
        0 <= i < records.len(),
        key(record) == key(records[i]),
    ensures
        sorted(records.update(i, record)),
        record_map(records.update(i, record)) == record_map(records).insert(key(record), record),
{
    let after = records.update(i, record);
    assert(sorted(after)) by {
        assert forall|a: int, b: int| 0 <= a < b < after.len() implies path_before(
            key(#[trigger] after[a]),
            key(#[trigger] after[b]),
        ) by {
            assert(key(after[a]) == key(records[a]));
            assert(key(after[b]) == key(records[b]));
        }
    }
    assert forall|path: Seq<Seq<u8>>| #[trigger]
        record_map(after).contains_key(path) == record_map(records).insert(
            key(record),
            record,
        ).contains_key(path) by {
        if record_map(after).contains_key(path) {
            let j = choose|j: int| stands_at(after, j, path);
            assert(stands_at(records, j, path));
        }
        if record_map(records).contains_key(path) {
            let j = choose|j: int| stands_at(records, j, path);
            assert(stands_at(after, j, path));
        }
        assert(stands_at(after, i, key(record)));
    }
    assert forall|path: Seq<Seq<u8>>| #[trigger] record_map(after).contains_key(path) implies
        record_map(after)[path] == record_map(records).insert(key(record), record)[path] by {
        let j = choose|j: int| stands_at(after, j, path);
        lemma_found(after, j);
        lemma_found(records, j);
        if j != i && key(record) == path {
            lemma_path_total(path, path);
        }
    }
    assert(record_map(after) =~= record_map(records).insert(key(record), record));
}

/// A record put where it belongs keeps the order and is found by its path.
proof fn lemma_insert(records: Seq<RecordView>, i: int, record: RecordView)
    requires
        sorted(records),
        0 <= i <= records.len(),
        forall|j: int| 0 <= j < i ==> path_before(key(#[trigger] records[j]), key(record)),
        forall|j: int|
            i <= j < records.len() ==> path_before(key(record), key(#[trigger] records[j])),
    ensures
        sorted(records.insert(i, record)),
        record_map(records.insert(i, record)) == record_map(records).insert(key(record), record),
        !record_map(records).contains_key(key(record)),
{
    let after = records.insert(i, record);
    let goal = record_map(records).insert(key(record), record);
    assert(sorted(after)) by {
        assert forall|a: int, b: int| 0 <= a < b < after.len() implies path_before(
            key(#[trigger] after[a]),
            key(#[trigger] after[b]),
        ) by {
            let ra = if a < i { a } else { a - 1 };
            let rb = if b < i { b } else { b - 1 };
            if a != i {
                assert(after[a] == records[ra]);
            }
            if b != i {
                assert(after[b] == records[rb]);
            }
        }
    }
    if record_map(records).contains_key(key(record)) {
        let j = choose|j: int| stands_at(records, j, key(record));
        lemma_path_total(key(record), key(record));
        assert(path_before(key(records[j]), key(record)) || path_before(
            key(record),
            key(records[j]),
        ));
    }
    assert forall|path: Seq<Seq<u8>>| #[trigger]
        record_map(after).contains_key(path) == goal.contains_key(path) by {
        if record_map(after).contains_key(path) && path != key(record) {
            let j = choose|j: int| stands_at(after, j, path);
            let rj = if j < i { j } else { j - 1 };
            assert(after[j] == records[rj]);
            assert(stands_at(records, rj, path));
        }
        if record_map(records).contains_key(path) {
            let rj = choose|j: int| stands_at(records, j, path);
            let j = if rj < i { rj } else { rj + 1 };
            assert(after[j] == records[rj]);
            assert(stands_at(after, j, path));
        }
        assert(stands_at(after, i, key(record)));
    }
    assert forall|path: Seq<Seq<u8>>| #[trigger]
        record_map(after).contains_key(path) implies record_map(after)[path] == goal[path] by {
        let j = choose|j: int| stands_at(after, j, path);
        lemma_found(after, j);
        if j == i {
            assert(after[j] == record);
        } else {
            let rj = if j < i { j } else { j - 1 };
            assert(after[j] == records[rj]);
            lemma_found(records, rj);
            assert(path != key(record));
        }
    }
    assert(record_map(after) =~= goal);
}

/// Records that are in order stay in order when some are left out, and those that stay are
/// found as before.
proof fn lemma_filter(records: Seq<RecordView>, keep: spec_fn(RecordView) -> bool)
    requires
        sorted(records),
    ensures
        sorted(records.filter(keep)),
        forall|i: int|
            0 <= i < records.filter(keep).len() ==> keep(#[trigger] records.filter(keep)[i])
                && records.contains(records.filter(keep)[i]),
        forall|path: Seq<Seq<u8>>| #[trigger]
            record_map(records.filter(keep)).contains_key(path) <==> record_map(
                records,
            ).contains_key(path) && keep(record_map(records)[path]),
        forall|path: Seq<Seq<u8>>| #[trigger]
            record_map(records.filter(keep)).contains_key(path) ==> record_map(
                records.filter(keep),
            )[path] == record_map(records)[path],
    decreases records.len(),
{
    reveal(Seq::filter);
    let kept = records.filter(keep);
    if records.len() > 0 {
        let front = records.drop_last();
        let last = records.last();
        let before = front.filter(keep);
        assert(sorted(front)) by {
            assert forall|a: int, b: int| 0 <= a < b < front.len() implies path_before(
                key(#[trigger] front[a]),
                key(#[trigger] front[b]),
            ) by {
                assert(front[a] == records[a] && front[b] == records[b]);
            }
        }
        lemma_filter(front, keep);
        assert(kept == if keep(last) {
            before.push(last)
        } else {
            before
        });
        assert forall|i: int| 0 <= i < kept.len() implies keep(#[trigger] kept[i])
            && records.contains(kept[i]) by {
            if i < before.len() {
                assert(kept[i] == before[i]);
                let j = choose|j: int| 0 <= j < front.len() && front[j] == before[i];
                assert(records[j] == kept[i]);
            } else {
                assert(records[records.len() - 1] == kept[i]);
            }
        }
        assert(sorted(kept)) by {
            assert forall|a: int, b: int| 0 <= a < b < kept.len() implies path_before(
                key(#[trigger] kept[a]),
                key(#[trigger] kept[b]),
            ) by {
                assert(kept[a] == before[a]);
                if b < before.len() {
                    assert(kept[b] == before[b]);
                } else {
                    let j = choose|j: int| 0 <= j < front.len() && front[j] == before[a];
                    assert(records[j] == kept[a]);
                    assert(records[records.len() - 1] == kept[b]);
                }
            }
        }
        assert forall|path: Seq<Seq<u8>>| #[trigger]
            record_map(kept).contains_key(path) <==> record_map(records).contains_key(path)
                && keep(record_map(records)[path]) by {
            if record_map(kept).contains_key(path) {
                let i = choose|i: int| stands_at(kept, i, path);
                let j = choose|j: int| 0 <= j < records.len() && records[j] == kept[i];
                lemma_found(records, j);
            }
            if record_map(records).contains_key(path) && keep(record_map(records)[path]) {
                let j = choose|j: int| stands_at(records, j, path);
                lemma_found(records, j);
                if j < front.len() {
                    assert(front[j] == records[j]);
                    lemma_found(front, j);
                    assert(record_map(before).contains_key(path));
                    let i = choose|i: int| stands_at(before, i, path);
                    assert(stands_at(kept, i, path));
                } else {
                    assert(stands_at(kept, kept.len() - 1, path));
                }
            }
        }
        assert forall|path: Seq<Seq<u8>>| #[trigger]
            record_map(kept).contains_key(path) implies record_map(kept)[path] == record_map(
            records,
        )[path] by {
            let i = choose|i: int| stands_at(kept, i, path);
            let j = choose|j: int| 0 <= j < records.len() && records[j] == kept[i];
            lemma_found(records, j);
            lemma_found(kept, i);
        }
    } else {
        assert forall|path: Seq<Seq<u8>>| !(#[trigger] record_map(records).contains_key(
            path,
        )) by {
            assert forall|i: int| !stands_at(records, i, path) by {}
        }
        assert(kept =~= records);
    }
}

/// A manifest that a run came by, with the checksum of its package if that was taken.
pub struct Visit {
    pub path: FilePath,
    pub checksum: Option<String>,
}

/// What a `Visit` says.
pub struct VisitView {
    pub path: Seq<u8>,
    pub checksum: Option<Seq<char>>,
}

impl View for Visit {
    type V = VisitView;

    open spec fn view(&self) -> VisitView {
        VisitView {
            path: self.path@,
            checksum: match self.checksum {
                Some(checksum) => Some(checksum@),
                None => None,
            },
        }
    }
}

/// The views of a list of visits.
pub open spec fn visit_views(visits: Seq<Visit>) -> Seq<VisitView> {
    Seq::new(visits.len(), |i: int| visits[i]@)
}

/// The checksum that a visit leaves in the record: empty if none was taken.
pub open spec fn visit_checksum(visit: VisitView) -> Seq<char> {
    match visit.checksum {
        Some(checksum) => checksum,
        None => Seq::empty(),
    }
}

/// The record that a visit leaves. What an earlier analysis found is kept only if the
/// checksum is still the same.
pub open spec fn visited_record(
    known: Option<RecordView>,
    visit: VisitView,
    run_id: Seq<char>,
) -> RecordView {
    RecordView {
        path: match known {
            Some(record) => record.path,
            None => visit.path,
        },
        dep: CargoDepView {
            checksum: visit_checksum(visit),
            deps: match known {
                Some(record) => if record.dep.checksum == visit_checksum(visit) {
                    record.dep.deps
                } else {
                    None
                },
                None => None,
            },
            unique_run_id: run_id,
        },
    }
}

/// The record for a path, if there is one.
pub open spec fn lookup(
    map: Map<Seq<Seq<u8>>, RecordView>,
    path: Seq<Seq<u8>>,
) -> Option<RecordView> {
    if map.contains_key(path) {
        Some(map[path])
    } else {
        None
    }
}

/// The records after a visit.
pub open spec fn visited(
    map: Map<Seq<Seq<u8>>, RecordView>,
    visit: VisitView,
    run_id: Seq<char>,
) -> Map<Seq<Seq<u8>>, RecordView> {
    map.insert(
        components(visit.path),
        visited_record(lookup(map, components(visit.path)), visit, run_id),
    )
}

/// The records after several visits, one after the other.
pub open spec fn all_visited(
    map: Map<Seq<Seq<u8>>, RecordView>,
    visits: Seq<VisitView>,
    run_id: Seq<char>,
) -> Map<Seq<Seq<u8>>, RecordView>
    decreases visits.len(),
{
    if visits.len() == 0 {
        map
    } else {
        visited(all_visited(map, visits.drop_last(), run_id), visits.last(), run_id)
    }
}

/// The records that a run has seen.
pub open spec fn seen_by(
    map: Map<Seq<Seq<u8>>, RecordView>,
    run_id: Seq<char>,
) -> Map<Seq<Seq<u8>>, RecordView> {
    Map::new(
        |path: Seq<Seq<u8>>| map.contains_key(path) && map[path].dep.unique_run_id == run_id,
        |path: Seq<Seq<u8>>| map[path],
    )
}

/// The records after a run has visited all manifests that it found: those that it did not
/// see are dropped.
pub open spec fn refreshed(
    map: Map<Seq<Seq<u8>>, RecordView>,
    visits: Seq<VisitView>,
    run_id: Seq<char>,
) -> Map<Seq<Seq<u8>>, RecordView> {
    seen_by(all_visited(map, visits, run_id), run_id)
}

/// Whether a record waits for the analysis of its package.
pub open spec fn is_unchecked(record: RecordView) -> bool {
    record.dep.deps is None
}

/// The manifests whose packages wait for analysis, in order.
pub open spec fn unchecked(records: Seq<RecordView>) -> Seq<Seq<u8>> {
    records.filter(|record: RecordView| is_unchecked(record)).map_values(
        |record: RecordView| record.path,
    )
}

/// A record with what the analysis of its package found.
pub open spec fn with_deps(record: RecordView, deps: DepsView) -> RecordView {
    RecordView { dep: CargoDepView { deps: Some(deps), ..record.dep }, ..record }
}

/// The records, once it is noted what the analysis of a package found.
pub open spec fn noted(
    map: Map<Seq<Seq<u8>>, RecordView>,
    path: Seq<Seq<u8>>,
    deps: DepsView,
) -> Map<Seq<Seq<u8>>, RecordView> {
    map.insert(path, with_deps(map[path], deps))
}

/// A record after its package was fixed: no unused dependency is left. Ignored dependencies
/// that are used stay, since a fix leaves them alone.
pub open spec fn fixed_record(record: RecordView, checksum: Seq<char>) -> RecordView {
    RecordView {
        dep: CargoDepView {
            checksum,
            deps: Some(
                DepsView {
                    unused: Seq::empty(),
                    ..record.dep.deps->Some_0
                },
            ),
            ..record.dep
        },
        ..record
    }
}

/// Whether the checksum of the package of manifest `i` is to be taken: always if the
/// database is kept, else only if there is a record for the manifest, from earlier or from
/// this run.
pub open spec fn checksum_needed(
    map: Map<Seq<Seq<u8>>, RecordView>,
    manifests: Seq<Seq<u8>>,
    kept: bool,
    i: int,
) -> bool {
    ||| kept
    ||| map.contains_key(components(manifests[i]))
    ||| exists|j: int| 0 <= j < i && components(#[trigger] manifests[j]) == components(manifests[i])
}

/// Whether no path stands behind one that it precedes.
pub open spec fn paths_sorted(paths: Seq<Seq<u8>>) -> bool {
    forall|i: int, j: int|
        0 <= i < j < paths.len() ==> !path_before(
            components(#[trigger] paths[j]),
            components(#[trigger] paths[i]),
        )
}

/// The texts in `paths` that write `path`, in order.
pub open spec fn writings(paths: Seq<Seq<u8>>, path: Seq<Seq<u8>>) -> Seq<Seq<u8>> {
    paths.filter(|text: Seq<u8>| components(text) == path)
}

/// Whether `after` are the paths of `before` in order, where texts that write the same path
/// keep their order.
pub open spec fn stably_sorted(after: Seq<Seq<u8>>, before: Seq<Seq<u8>>) -> bool {
    &&& paths_sorted(after)
    &&& forall|path: Seq<Seq<u8>>| #[trigger] writings(after, path) == writings(before, path)
}

/// Whether two lists hold the same paths in the same order.
pub open spec fn same_paths(a: Seq<Seq<u8>>, b: Seq<Seq<u8>>) -> bool {
    a.len() == b.len() && forall|i: int|
        0 <= i < a.len() ==> components(#[trigger] a[i]) == components(b[i])
}

/// Whether a text is the identifier of a run: a random UUID, in lower case and hyphenated.
pub open spec fn is_run_id(id: Seq<char>) -> bool {
    &&& id.len() == 36
    &&& id[14] == '4'
    &&& id[19] == '8' || id[19] == '9' || id[19] == 'a' || id[19] == 'b'
    &&& forall|i: int|
        0 <= i < 36 ==> if i == 8 || i == 13 || i == 18 || i == 23 {
            #[trigger] id[i] == '-'
        } else {
            '0' <= id[i] <= '9' || 'a' <= id[i] <= 'f'
        }
}

/// `Uuid::new_v4` and its `Display`: a random identifier. Of which one it is nothing is
/// said: that depends on chance.
#[verifier::external_body]
fn new_run_id() -> (r: String)
    ensures
        is_run_id(r@),
{
    uuid::Uuid::new_v4().to_string()
}

/// A path put behind all that it does not precede comes last of its writings.
proof fn lemma_writings_insert(
    paths: Seq<Seq<u8>>,
    i: int,
    text: Seq<u8>,
    path: Seq<Seq<u8>>,
)
    requires
        0 <= i <= paths.len(),
        forall|j: int|
            i <= j < paths.len() ==> components(#[trigger] paths[j]) != components(text),
    ensures
        writings(paths.insert(i, text), path) == writings(paths.push(text), path),
{
    let same = |t: Seq<u8>| components(t) == path;
    let front = paths.take(i);
    let back = paths.skip(i);
    let one = seq![text];
    assert(paths.insert(i, text) =~= front + (one + back));
    assert(paths.push(text) =~= front + (back + one));
    Seq::filter_distributes_over_add(front, one + back, same);
    Seq::filter_distributes_over_add(front, back + one, same);
    Seq::filter_distributes_over_add(one, back, same);
    Seq::filter_distributes_over_add(back, one, same);
    if components(text) == path {
        lemma_no_writings(back, path);
        assert(one.filter(same) + back.filter(same) =~= back.filter(same) + one.filter(same));
    } else {
        lemma_no_writings(one, path);
        assert(one.filter(same) + back.filter(same) =~= back.filter(same) + one.filter(same));
    }
}

proof fn lemma_no_writings(paths: Seq<Seq<u8>>, path: Seq<Seq<u8>>)
    requires
        forall|j: int| 0 <= j < paths.len() ==> components(#[trigger] paths[j]) != path,
    ensures
        writings(paths, path) == Seq::<Seq<u8>>::empty(),
    decreases paths.len(),
{
    reveal(Seq::filter);
    if paths.len() > 0 {
        let front = paths.drop_last();
        assert forall|j: int| 0 <= j < front.len() implies components(#[trigger] front[j])
            != path by {
            assert(front[j] == paths[j]);
        }
        lemma_no_writings(front, path);
        assert(components(paths[paths.len() - 1]) != path);
    }
}

/// Copies a list of paths.
fn copy_paths(paths: &Vec<FilePath>) -> (r: Vec<FilePath>)
    ensures
        path_texts(r@) == path_texts(paths@),
{
    let mut r: Vec<FilePath> = Vec::new();
    let mut i: usize = 0;
    while i < paths.len()
        invariant
            i <= paths@.len(),
            r@.len() == i,
            forall|j: int| 0 <= j < i ==> (#[trigger] r@[j])@ == paths@[j]@,
        decreases paths@.len() - i,
    {
        r.push(paths[i].clone());
        i += 1;
    }
    assert(path_texts(r@) =~= path_texts(paths@));
    r
}

/// A record as the database holds it.
#[derive(Clone, Debug)]
struct Record {
    path: FilePath,
    dep: CargoDep,
}

/// The database: the records, and the paths that were searched for manifests.
#[derive(Clone, Debug)]
pub struct Db {
    records: Vec<Record>,
    paths: Vec<FilePath>,
}

impl Db {
    /// The records, in the order of their paths.
    pub closed spec fn listing(&self) -> Seq<RecordView> {
        Seq::new(
            self.records@.len(),
            |i: int| RecordView { path: self.records@[i].path@, dep: self.records@[i].dep@ },
        )
    }

    /// The paths that were searched for manifests.
    pub closed spec fn path_list(&self) -> Seq<Seq<u8>> {
        path_texts(self.paths@)
    }

    /// The records by their paths.
    pub open spec fn map(&self) -> Map<Seq<Seq<u8>>, RecordView> {
        record_map(self.listing())
    }

    /// The records stand in the order of their paths, each path once.
    pub open spec fn wf(&self) -> bool {
        sorted(self.listing())
    }

    /// A database without records.
    pub fn with_paths(paths: Vec<FilePath>) -> (r: Self)
        ensures
            r.wf(),
            r.listing() == Seq::<RecordView>::empty(),
            r.path_list() == path_texts(paths@),
    {
        let r = Db { records: Vec::new(), paths };
        assert(r.listing() =~= Seq::<RecordView>::empty());
        r
    }

    /// The number of records.
    pub fn len(&self) -> (r: usize)
        ensures
            r == self.listing().len(),
    {
        self.records.len()
    }

    /// The manifest of the record at place `index`.
    pub fn path_at(&self, index: usize) -> (r: &FilePath)
        requires
            index < self.listing().len(),
        ensures
            r@ == self.listing()[index as int].path,
    {
        &self.records[index].path
    }

    /// What is known about the package of the record at place `index`.
    pub fn dep_at(&self, index: usize) -> (r: &CargoDep)
        requires
            index < self.listing().len(),
        ensures
            r@ == self.listing()[index as int].dep,
    {
        &self.records[index].dep
    }

    /// The paths that were searched for manifests.
    pub fn paths(&self) -> (r: &Vec<FilePath>)
        ensures
            path_texts(r@) == self.path_list(),
    {
        &self.paths
    }

    /// The place of the record for `path`, or the place where it belongs.
    fn search(&self, path: &FilePath) -> (r: Result<usize, usize>)
        requires
            self.wf(),
        ensures
            match r {
                Ok(i) => stands_at(self.listing(), i as int, components(path@)),
                Err(i) => {
                    &&& i <= self.listing().len()
                    &&& forall|j: int|
                        0 <= j < i ==> path_before(
                            key(#[trigger] self.listing()[j]),
                            components(path@),
                        )
                    &&& forall|j: int|
                        i <= j < self.listing().len() ==> path_before(
                            components(path@),
                            key(#[trigger] self.listing()[j]),
                        )
                },
            },
    {
        let mut low: usize = 0;
        let mut high: usize = self.records.len();
        while low < high
            invariant
                self.wf(),
                low <= high <= self.listing().len() == self.records@.len(),
                forall|j: int|
                    0 <= j < low ==> path_before(
                        key(#[trigger] self.listing()[j]),
                        components(path@),
                    ),
                forall|j: int|
                    high <= j < self.listing().len() ==> path_before(
                        components(path@),
                        key(#[trigger] self.listing()[j]),
                    ),
            decreases high - low,
        {
            let middle: usize = low + (high - low) / 2;
            let here: &FilePath = &self.records[middle].path;
            assert(self.listing()[middle as int].path == here@);
            if here.same_path(path) {
                return Ok(middle);
            }
            if here.precedes(path) {
                assert forall|j: int| 0 <= j <= middle implies path_before(
                    key(#[trigger] self.listing()[j]),
                    components(path@),
                ) by {
                    if j < middle {
                        lemma_path_transitive(
                            key(self.listing()[j]),
                            key(self.listing()[middle as int]),
                            components(path@),
                        );
                    }
                }
                low = middle + 1;
            } else {
                proof {
                    lemma_path_total(components(here@), components(path@));
                }
                assert forall|j: int| middle <= j < self.listing().len() implies path_before(
                    components(path@),
                    key(#[trigger] self.listing()[j]),
                ) by {
                    if j > middle {
                        lemma_path_transitive(
                            components(path@),
                            key(self.listing()[middle as int]),
                            key(self.listing()[j]),
                        );
                    }
                }
                high = middle;
            }
        }
        Err(low)
    }

    /// Whether there is a record for `path`.
    pub fn contains(&self, path: &FilePath) -> (r: bool)
        requires
            self.wf(),
        ensures
            r == self.map().contains_key(components(path@)),
    {
        match self.search(path) {
            Ok(i) => {
                proof {
                    lemma_found(self.listing(), i as int);
                }
                true
            },
            Err(i) => {
                proof {
                    self.lemma_absent(components(path@), i as int);
                }
                false
            },
        }
    }

    /// A path that belongs between two records has none.
    proof fn lemma_absent(&self, path: Seq<Seq<u8>>, i: int)
        requires
            0 <= i <= self.listing().len(),
            forall|j: int| 0 <= j < i ==> path_before(key(#[trigger] self.listing()[j]), path),
            forall|j: int|
                i <= j < self.listing().len() ==> path_before(
                    path,
                    key(#[trigger] self.listing()[j]),
                ),
        ensures
            !self.map().contains_key(path),
    {
        if self.map().contains_key(path) {
            let j = choose|j: int| stands_at(self.listing(), j, path);
            lemma_path_total(path, path);
            assert(path_before(key(self.listing()[j]), path) || path_before(
                path,
                key(self.listing()[j]),
            ));
        }
    }

    /// Puts a record in place of the one for the same path, whose path keeps its text, or
    /// adds it.
    pub fn insert(&mut self, path: FilePath, dep: CargoDep)
        requires
            old(self).wf(),
        ensures
            final(self).wf(),
            final(self).path_list() == old(self).path_list(),
            final(self).map() == old(self).map().insert(
                components(path@),
                RecordView {
                    path: if old(self).map().contains_key(components(path@)) {
                        old(self).map()[components(path@)].path
                    } else {
                        path@
                    },
                    dep: dep@,
                },
            ),
    {
        let ghost before = self.listing();
        match self.search(&path) {
            Ok(i) => {
                self.records[i].dep = dep;
                proof {
                    let record = RecordView { path: before[i as int].path, dep: dep@ };
                    lemma_found(before, i as int);
                    lemma_update(before, i as int, record);
                    assert(self.listing() =~= before.update(i as int, record));
                }
            },
            Err(i) => {
                self.records.insert(i, Record { path, dep });
                proof {
                    let record = RecordView { path: path@, dep: dep@ };
                    lemma_insert(before, i as int, record);
                    assert(self.listing() =~= before.insert(i as int, record));
                }
            },
        }
    }

    /// Notes that a run came by a manifest.
    fn visit(&mut self, visit: Visit, run_id: &String)
        requires
            old(self).wf(),
        ensures
            final(self).wf(),
            final(self).path_list() == old(self).path_list(),
            final(self).map() == visited(old(self).map(), visit@, run_id@),
    {
        let ghost before = self.listing();
        let ghost path = components(visit.path@);
        let checksum: String = match visit.checksum {
            Some(checksum) => checksum,
            None => String::new(),
        };
        match self.search(&visit.path) {
            Ok(i) => {
                let same: bool = self.records[i].dep.checksum == checksum;
                self.records[i].dep.unique_run_id = run_id.clone();
                if !same {
                    self.records[i].dep.deps = None;
                }
                self.records[i].dep.checksum = checksum;
                proof {
                    lemma_found(before, i as int);
                    let record = visited_record(Some(before[i as int]), visit@, run_id@);
                    lemma_update(before, i as int, record);
                    assert(self.listing() =~= before.update(i as int, record));
                }
            },
            Err(i) => {
                proof {
                    self.lemma_absent(path, i as int);
                }
                let dep = CargoDep { checksum, deps: None, unique_run_id: run_id.clone() };
                self.records.insert(i, Record { path: visit.path, dep });
                proof {
                    let record = visited_record(None, visit@, run_id@);
                    lemma_insert(before, i as int, record);
                    assert(self.listing() =~= before.insert(i as int, record));
                }
            },
        }
    }

    /// Drops the records that a run has not seen.
    fn retain_seen(&mut self, run_id: &String)
        requires
            old(self).wf(),
        ensures
            final(self).wf(),
            final(self).path_list() == old(self).path_list(),
            final(self).map() == seen_by(old(self).map(), run_id@),
    {
        let ghost before = self.listing();
        let ghost keep = |record: RecordView| record.dep.unique_run_id == run_id@;
        let mut records: Vec<Record> = Vec::new();
        std::mem::swap(&mut records, &mut self.records);
        let ghost all = records@;
        assert(before.take(0).filter(keep) =~= Seq::<RecordView>::empty()) by {
            reveal(Seq::filter);
        }
        for record in iter: records
            invariant
                all == records@,
                iter.seq() == all,
                before.len() == all.len(),
                forall|i: int|
                    0 <= i < all.len() ==> (#[trigger] before[i]) == (RecordView {
                        path: all[i].path@,
                        dep: all[i].dep@,
                    }),
                keep == (|record: RecordView| record.dep.unique_run_id == run_id@),
                self.listing() == before.take(iter.index()).filter(keep),
                self.path_list() == old(self).path_list(),
        {
            let ghost k = iter.index();
            let ghost so_far = self.listing();
            assert(before[k].dep == record.dep@);
            proof {
                reveal(Seq::filter);
                assert(before.take(k + 1).drop_last() =~= before.take(k));
                assert(before.take(k + 1).last() == before[k]);
            }
            if record.dep.unique_run_id == *run_id {
                self.records.push(record);
                assert(self.listing() =~= so_far.push(before[k]));
            }
        }
        proof {
            assert(before.take(before.len() as int) =~= before);
            lemma_filter(before, keep);
            assert(self.map() =~= seen_by(record_map(before), run_id@));
        }
    }

    /// Whether the checksum of the package is to be taken, for each of the manifests that a
    /// run found. `kept` says whether the database is kept for later runs.
    pub fn checksum_plan(&self, manifests: &Vec<FilePath>, kept: bool) -> (r: Vec<bool>)
        requires
            self.wf(),
        ensures
            r@.len() == manifests@.len(),
            forall|i: int|
                0 <= i < r@.len() ==> #[trigger] r@[i] == checksum_needed(
                    self.map(),
                    path_texts(manifests@),
                    kept,
                    i,
                ),
    {
        let ghost texts = path_texts(manifests@);
        let mut plan: Vec<bool> = Vec::new();
        let mut i: usize = 0;
        while i < manifests.len()
            invariant
                self.wf(),
                i <= manifests@.len(),
                texts == path_texts(manifests@),
                plan@.len() == i,
                forall|k: int|
                    0 <= k < i ==> #[trigger] plan@[k] == checksum_needed(
                        self.map(),
                        texts,
                        kept,
                        k,
                    ),
            decreases manifests@.len() - i,
        {
            let mut needed: bool = kept || self.contains(&manifests[i]);
            let mut j: usize = 0;
            while j < i && !needed
                invariant
                    j <= i < manifests@.len(),
                    texts == path_texts(manifests@),
                    needed ==> checksum_needed(self.map(), texts, kept, i as int),
                    !needed ==> !kept && !self.map().contains_key(components(texts[i as int])),
                    !needed ==> forall|k: int|
                        0 <= k < j ==> components(#[trigger] texts[k]) != components(
                            texts[i as int],
                        ),
                decreases i - j,
            {
                if manifests[j].same_path(&manifests[i]) {
                    assert(components(texts[j as int]) == components(texts[i as int]));
                    needed = true;
                }
                j += 1;
            }
            plan.push(needed);
            i += 1;
        }
        plan
    }

    /// Brings the records up to date with the manifests that a run found: their packages
    /// keep what an earlier analysis found if their checksums are unchanged, and records of
    /// other manifests are dropped.
    pub fn refresh(&mut self, visits: Vec<Visit>, run_id: &String)
        requires
            old(self).wf(),
        ensures
            final(self).wf(),
            final(self).path_list() == old(self).path_list(),
            final(self).map() == refreshed(old(self).map(), visit_views(visits@), run_id@),
    {
        let ghost all = visit_views(visits@);
        let ghost before = self.map();
        assert(all.take(0) =~= Seq::<VisitView>::empty());
        for visit in iter: visits
            invariant
                all == visit_views(visits@),
                iter.seq() == visits@,
                before == old(self).map(),
                self.wf(),
                self.path_list() == old(self).path_list(),
                self.map() == all_visited(before, all.take(iter.index()), run_id@),
        {
            let ghost k = iter.index();
            assert(all.take(k + 1).drop_last() =~= all.take(k));
            assert(all.take(k + 1).last() == visit@);
            self.visit(visit, run_id);
        }
        assert(all.take(all.len() as int) =~= all);
        self.retain_seen(run_id);
    }

    /// The manifests whose packages wait for analysis, in order.
    pub fn unchecked_packages(&self) -> (r: Vec<FilePath>)
        ensures
            path_texts(r@) == unchecked(self.listing()),
    {
        let ghost all = self.listing();
        let ghost keep = |record: RecordView| is_unchecked(record);
        let mut r: Vec<FilePath> = Vec::new();
        let mut i: usize = 0;
        assert(unchecked(all.take(0)) =~= Seq::<Seq<u8>>::empty()) by {
            reveal(Seq::filter);
        }
        while i < self.records.len()
            invariant
                i <= self.records@.len() == all.len(),
                all == self.listing(),
                keep == (|record: RecordView| is_unchecked(record)),
                path_texts(r@) == unchecked(all.take(i as int)),
            decreases self.records@.len() - i,
        {
            let ghost so_far = r@;
            proof {
                reveal(Seq::filter);
                assert(all.take(i + 1).drop_last() =~= all.take(i as int));
                assert(all.take(i + 1).last() == all[i as int]);
            }
            if self.records[i].dep.deps.is_none() {
                r.push(self.records[i].path.clone());
                assert(path_texts(r@) =~= path_texts(so_far).push(all[i as int].path));
                assert(unchecked(all.take(i + 1)) =~= unchecked(all.take(i as int)).push(
                    all[i as int].path,
                ));
            }
            i += 1;
        }
        assert(all.take(all.len() as int) =~= all);
        r
    }

    /// Notes what the analysis of a package found.
    pub fn record_deps(&mut self, path: &FilePath, deps: Deps)
        requires
            old(self).wf(),
            old(self).map().contains_key(components(path@)),
        ensures
            final(self).wf(),
            final(self).path_list() == old(self).path_list(),
            final(self).map() == noted(old(self).map(), components(path@), deps@),
    {
        let ghost before = self.listing();
        match self.search(path) {
            Ok(i) => {
                self.records[i].dep.deps = Some(deps);
                proof {
                    lemma_found(before, i as int);
                    let record = with_deps(before[i as int], deps@);
                    lemma_update(before, i as int, record);
                    assert(self.listing() =~= before.update(i as int, record));
                }
            },
            Err(i) => {
                proof {
                    self.lemma_absent(components(path@), i as int);
                }
            },
        }
    }

    /// Notes that the package of the record at place `index` was fixed and has `checksum`
    /// now.
    pub fn mark_fixed(&mut self, index: usize, checksum: String)
        requires
            old(self).wf(),
            index < old(self).listing().len(),
            !is_unchecked(old(self).listing()[index as int]),
        ensures
            final(self).wf(),
            final(self).path_list() == old(self).path_list(),
            final(self).listing() == old(self).listing().update(
                index as int,
                fixed_record(old(self).listing()[index as int], checksum@),
            ),
    {
        let ghost before = self.listing();
        self.records[index].dep.checksum = checksum;
        match &mut self.records[index].dep.deps {
            Some(deps) => {
                deps.unused = Vec::new();
            },
            None => {},
        }
        proof {
            let record = fixed_record(before[index as int], checksum@);
            assert(strings(Seq::<String>::empty()) =~= Seq::<Seq<char>>::empty());
            assert(self.listing() =~= before.update(index as int, record));
            lemma_update(before, index as int, record);
        }
    }

    /// Starts a run: gives it an identifier and brings the records up to date with the
    /// manifests that it found.
    pub fn start_run(&mut self, visits: Vec<Visit>) -> (r: String)
        requires
            old(self).wf(),
        ensures
            is_run_id(r@),
            final(self).wf(),
            final(self).path_list() == old(self).path_list(),
            final(self).map() == refreshed(old(self).map(), visit_views(visits@), r@),
    {
        let run_id: String = new_run_id();
        self.refresh(visits, &run_id);
        run_id
    }

    /// Whether `paths` are the paths that were searched.
    pub fn is_for(&self, paths: &Vec<FilePath>) -> (r: bool)
        ensures
            r == same_paths(self.path_list(), path_texts(paths@)),
    {
        if self.paths.len() != paths.len() {
            return false;
        }
        let mut i: usize = 0;
        while i < paths.len()
            invariant
                i <= paths@.len() == self.paths@.len(),
                forall|j: int|
                    0 <= j < i ==> components(#[trigger] self.path_list()[j]) == components(
                        path_texts(paths@)[j],
                    ),
            decreases paths@.len() - i,
        {
            if !self.paths[i].same_path(&paths[i]) {
                assert(components(self.path_list()[i as int]) != components(
                    path_texts(paths@)[i as int],
                ));
                return false;
            }
            i += 1;
        }
        true
    }

    /// Puts the paths that were searched in order, as they are kept.
    pub fn sort_paths(&mut self)
        requires
            old(self).wf(),
        ensures
            final(self).wf(),
            final(self).listing() == old(self).listing(),
            stably_sorted(final(self).path_list(), old(self).path_list()),
    {
        let ghost before = self.path_list();
        let mut sorted: Vec<FilePath> = Vec::new();
        let mut i: usize = 0;
        assert(path_texts(sorted@) =~= before.take(0));
        while i < self.paths.len()
            invariant
                i <= self.paths@.len() == before.len(),
                self.paths == old(self).paths,
                before == self.path_list(),
                paths_sorted(path_texts(sorted@)),
                forall|path: Seq<Seq<u8>>| #[trigger]
                    writings(path_texts(sorted@), path) == writings(before.take(i as int), path),
            decreases self.paths@.len() - i,
        {
            let ghost so_far = path_texts(sorted@);
            let text: FilePath = self.paths[i].clone();
            let ghost here = components(text@);
            let mut j: usize = sorted.len();
            while j > 0 && text.precedes(&sorted[j - 1])
                invariant
                    j <= sorted@.len(),
                    so_far == path_texts(sorted@),
                    here == components(text@),
                    forall|k: int|
                        j <= k < sorted@.len() ==> path_before(
                            here,
                            components(#[trigger] so_far[k]),
                        ),
                decreases j,
            {
                assert(so_far[j - 1] == sorted@[j - 1]@);
                j -= 1;
            }
            sorted.insert(j, text);
            proof {
                let now = path_texts(sorted@);
                assert(now =~= so_far.insert(j as int, text@));
                assert(text@ == before[i as int]);
                assert forall|k: int| j <= k < so_far.len() implies components(
                    #[trigger] so_far[k],
                ) != here by {
                    lemma_path_total(here, components(so_far[k]));
                }
                assert forall|path: Seq<Seq<u8>>| #[trigger]
                    writings(now, path) == writings(before.take(i + 1), path) by {
                    lemma_writings_insert(so_far, j as int, text@, path);
                    lemma_writings_push(so_far, text@, path);
                    lemma_writings_push(before.take(i as int), text@, path);
                    assert(writings(so_far, path) == writings(before.take(i as int), path));
                    assert(before.take(i + 1) =~= before.take(i as int).push(text@));
                }
                lemma_sorted_insert(so_far, j as int, text@);
            }
            i += 1;
        }
        assert(before.take(before.len() as int) =~= before);
        self.paths = sorted;
        assert(self.listing() =~= old(self).listing());
    }
}

/// The writings of a path, once a text is added.
proof fn lemma_writings_push(paths: Seq<Seq<u8>>, text: Seq<u8>, path: Seq<Seq<u8>>)
    ensures
        writings(paths.push(text), path) == if components(text) == path {
            writings(paths, path).push(text)
        } else {
            writings(paths, path)
        },
{
    reveal(Seq::filter);
    assert(paths.push(text).drop_last() =~= paths);
}

/// A path put right behind all that it does not precede leaves the list in order.
proof fn lemma_sorted_insert(paths: Seq<Seq<u8>>, i: int, text: Seq<u8>)
    requires
        paths_sorted(paths),
        0 <= i <= paths.len(),
        i > 0 ==> !path_before(components(text), components(paths[i - 1])),
        forall|j: int|
            i <= j < paths.len() ==> path_before(components(text), components(#[trigger] paths[j])),
    ensures
        paths_sorted(paths.insert(i, text)),
{
    let after = paths.insert(i, text);
    let here = components(text);
    assert forall|a: int, b: int| 0 <= a < b < after.len() implies !path_before(
        components(#[trigger] after[b]),
        components(#[trigger] after[a]),
    ) by {
        let ra = if a < i { a } else { a - 1 };
        let rb = if b < i { b } else { b - 1 };
        if a != i {
            assert(after[a] == paths[ra]);
        }
        if b != i {
            assert(after[b] == paths[rb]);
        }
        if a == i {
            lemma_path_total(here, components(paths[rb]));
        } else if b == i && path_before(here, components(paths[a])) {
            // Then `text` would precede the last path before it as well.
            if a < i - 1 {
                lemma_path_total(components(paths[a]), components(paths[i - 1]));
                if components(paths[a]) != components(paths[i - 1]) {
                    lemma_path_transitive(
                        here,
                        components(paths[a]),
                        components(paths[i - 1]),
                    );
                }
            }
        }
    }
}

/// The database to start a run with: the one that was kept, if it can be read and is for the
/// same paths, else an empty one.
pub fn init_db(stored: Option<Db>, paths: &Vec<FilePath>) -> (r: Db)
    requires
        stored matches Some(db) ==> db.wf(),
    ensures
        r.wf(),
        match stored {
            Some(db) => if same_paths(db.path_list(), path_texts(paths@)) {
                r == db
            } else {
                r.listing() == Seq::<RecordView>::empty() && r.path_list() == path_texts(paths@)
            },
            None => r.listing() == Seq::<RecordView>::empty() && r.path_list() == path_texts(
                paths@,
            ),
        },
{
    match stored {
        Some(db) => if db.is_for(paths) {
            db
        } else {
            Db::with_paths(copy_paths(paths))
        },
        None => Db::with_paths(copy_paths(paths)),
    }
}

/// Whether one of `visits` is to `path`.
pub open spec fn is_visited(visits: Seq<VisitView>, path: Seq<Seq<u8>>) -> bool {
    exists|i: int| 0 <= i < visits.len() && components((#[trigger] visits[i]).path) == path
}

/// Visits touch the records of the paths that they are to, and no others.
proof fn lemma_visits_touch(
    map: Map<Seq<Seq<u8>>, RecordView>,
    visits: Seq<VisitView>,
    run_id: Seq<char>,
    path: Seq<Seq<u8>>,
)
    ensures
        is_visited(visits, path) ==> {
            &&& all_visited(map, visits, run_id).contains_key(path)
            &&& all_visited(map, visits, run_id)[path].dep.unique_run_id == run_id
        },
        !is_visited(visits, path) ==> lookup(all_visited(map, visits, run_id), path) == lookup(
            map,
            path,
        ),
    decreases visits.len(),
{
    if visits.len() > 0 {
        let front = visits.drop_last();
        lemma_visits_touch(map, front, run_id, path);
        if is_visited(front, path) {
            let i = choose|i: int|
                0 <= i < front.len() && components((#[trigger] front[i]).path) == path;
            assert(visits[i] == front[i]);
        }
        if components(visits.last().path) == path {
            assert(components(visits[visits.len() - 1].path) == path);
        } else if is_visited(visits, path) {
            let i = choose|i: int|
                0 <= i < visits.len() && components((#[trigger] visits[i]).path) == path;
            assert(front[i] == visits[i]);
        }
    }
}

/// After a run that goes by a new identifier, exactly the manifests that it found have
/// records, and each record is marked with the run.
pub proof fn law_exactly_the_found_have_records(
    map: Map<Seq<Seq<u8>>, RecordView>,
    visits: Seq<VisitView>,
    run_id: Seq<char>,
)
    requires
        forall|path: Seq<Seq<u8>>| #[trigger]
            map.contains_key(path) ==> map[path].dep.unique_run_id != run_id,
    ensures
        forall|path: Seq<Seq<u8>>|
            refreshed(map, visits, run_id).contains_key(path) <==> #[trigger] is_visited(
                visits,
                path,
            ),
        forall|path: Seq<Seq<u8>>| #[trigger]
            refreshed(map, visits, run_id).contains_key(path) ==> refreshed(
                map,
                visits,
                run_id,
            )[path].dep.unique_run_id == run_id,
{
    assert forall|path: Seq<Seq<u8>>|
        refreshed(map, visits, run_id).contains_key(path) <==> #[trigger] is_visited(
            visits,
            path,
        ) by {
        lemma_visits_touch(map, visits, run_id, path);
    }
}

/// Whatever the identifier of a run, every manifest that it found has a record.
pub proof fn law_the_found_have_records(
    map: Map<Seq<Seq<u8>>, RecordView>,
    visits: Seq<VisitView>,
    run_id: Seq<char>,
    i: int,
)
    requires
        0 <= i < visits.len(),
    ensures
        refreshed(map, visits, run_id).contains_key(components(visits[i].path)),
{
    assert(is_visited(visits, components(visits[i].path)));
    lemma_visits_touch(map, visits, run_id, components(visits[i].path));
}

proof fn lemma_unchanged(
    map: Map<Seq<Seq<u8>>, RecordView>,
    visits: Seq<VisitView>,
    run_id: Seq<char>,
    path: Seq<Seq<u8>>,
)
    requires
        map.contains_key(path),
        forall|i: int|
            0 <= i < visits.len() && components((#[trigger] visits[i]).path) == path
                ==> visit_checksum(visits[i]) == map[path].dep.checksum,
    ensures
        all_visited(map, visits, run_id).contains_key(path),
        ({
            let record = all_visited(map, visits, run_id)[path];
            &&& record.path == map[path].path
            &&& record.dep.checksum == map[path].dep.checksum
            &&& record.dep.deps == map[path].dep.deps
        }),
    decreases visits.len(),
{
    if visits.len() > 0 {
        let front = visits.drop_last();
        assert forall|i: int|
            0 <= i < front.len() && components((#[trigger] front[i]).path)
                == path implies visit_checksum(front[i]) == map[path].dep.checksum by {
            assert(front[i] == visits[i]);
        }
        lemma_unchanged(map, front, run_id, path);
        assert(visits[visits.len() - 1] == visits.last());
    }
}

/// A package whose checksum is still the same keeps what an earlier analysis found, and its
/// manifest keeps the text of its path.
pub proof fn law_unchanged_package_is_not_checked_again(
    map: Map<Seq<Seq<u8>>, RecordView>,
    visits: Seq<VisitView>,
    run_id: Seq<char>,
    path: Seq<Seq<u8>>,
)
    requires
        map.contains_key(path),
        is_visited(visits, path),
        forall|i: int|
            0 <= i < visits.len() && components((#[trigger] visits[i]).path) == path
                ==> visit_checksum(visits[i]) == map[path].dep.checksum,
    ensures
        refreshed(map, visits, run_id).contains_key(path),
        refreshed(map, visits, run_id)[path] == (RecordView {
            dep: CargoDepView { unique_run_id: run_id, ..map[path].dep },
            ..map[path]
        }),
{
    lemma_visits_touch(map, visits, run_id, path);
    lemma_unchanged(map, visits, run_id, path);
}

/// Once a package waits for analysis, visits leave it waiting.
proof fn lemma_waiting(
    map: Map<Seq<Seq<u8>>, RecordView>,
    visits: Seq<VisitView>,
    run_id: Seq<char>,
    path: Seq<Seq<u8>>,
    from: int,
)
    requires
        0 <= from <= visits.len(),
        all_visited(map, visits.take(from), run_id).contains_key(path),
        is_unchecked(all_visited(map, visits.take(from), run_id)[path]),
    ensures
        all_visited(map, visits, run_id).contains_key(path),
        is_unchecked(all_visited(map, visits, run_id)[path]),
    decreases visits.len(),
{
    if from == visits.len() {
        assert(visits.take(from) =~= visits);
    } else {
        let front = visits.drop_last();
        assert(front.take(from) =~= visits.take(from));
        lemma_waiting(map, front, run_id, path, from);
    }
}

/// A package is to be analysed again if its checksum has changed since the analysis: if the
/// first visit to it brings another one.
pub proof fn law_changed_package_is_checked_again(
    map: Map<Seq<Seq<u8>>, RecordView>,
    visits: Seq<VisitView>,
    run_id: Seq<char>,
    i: int,
)
    requires
        0 <= i < visits.len(),
        !is_visited(visits.take(i), components(visits[i].path)),
        map.contains_key(components(visits[i].path)),
        map[components(visits[i].path)].dep.checksum != visit_checksum(visits[i]),
    ensures
        refreshed(map, visits, run_id).contains_key(components(visits[i].path)),
        is_unchecked(refreshed(map, visits, run_id)[components(visits[i].path)]),
{
    let path = components(visits[i].path);
    lemma_visits_touch(map, visits.take(i), run_id, path);
    assert(visits.take(i + 1).drop_last() =~= visits.take(i));
    assert(visits.take(i + 1).last() == visits[i]);
    lemma_waiting(map, visits, run_id, path, i + 1);
    law_the_found_have_records(map, visits, run_id, i);
}

/// A package that is found for the first time is to be analysed.
pub proof fn law_new_package_is_checked(
    map: Map<Seq<Seq<u8>>, RecordView>,
    visits: Seq<VisitView>,
    run_id: Seq<char>,
    path: Seq<Seq<u8>>,
)
    requires
        !map.contains_key(path),
        is_visited(visits, path),
    ensures
        refreshed(map, visits, run_id).contains_key(path),
        is_unchecked(refreshed(map, visits, run_id)[path]),
{
    lemma_visits_touch(map, visits, run_id, path);
    lemma_new(map, visits, run_id, path);
}

proof fn lemma_new(
    map: Map<Seq<Seq<u8>>, RecordView>,
    visits: Seq<VisitView>,
    run_id: Seq<char>,
    path: Seq<Seq<u8>>,
)
    requires
        !map.contains_key(path),
        all_visited(map, visits, run_id).contains_key(path),
    ensures
        is_unchecked(all_visited(map, visits, run_id)[path]),
    decreases visits.len(),
{
    if visits.len() > 0 {
        if all_visited(map, visits.drop_last(), run_id).contains_key(path) {
            lemma_new(map, visits.drop_last(), run_id, path);
        }
    }
}

/// Whether the package of the manifest `path` waits for analysis.
pub open spec fn waits(records: Seq<RecordView>, path: Seq<u8>) -> bool {
    exists|i: int|
        0 <= i < records.len() && is_unchecked(#[trigger] records[i]) && records[i].path == path
}

/// The packages to analyse are exactly those whose records hold no findings.
pub proof fn law_all_waiting_are_checked(records: Seq<RecordView>)
    requires
        sorted(records),
    ensures
        forall|i: int|
            0 <= i < records.len() && is_unchecked(#[trigger] records[i]) ==> unchecked(
                records,
            ).contains(records[i].path),
        forall|k: int|
            0 <= k < unchecked(records).len() ==> waits(records, #[trigger] unchecked(records)[k]),
{
    let keep = |record: RecordView| is_unchecked(record);
    let waiting = records.filter(keep);
    lemma_filter(records, keep);
    assert forall|i: int|
        0 <= i < records.len() && is_unchecked(#[trigger] records[i]) implies unchecked(
        records,
    ).contains(records[i].path) by {
        lemma_found(records, i);
        assert(record_map(waiting).contains_key(key(records[i])));
        lemma_found_path(waiting, key(records[i]));
        let k = choose|k: int|
            stands_at(waiting, k, key(records[i])) && waiting[k] == record_map(
                waiting,
            )[key(records[i])];
        assert(waiting[k] == records[i]);
        assert(unchecked(records)[k] == records[i].path);
    }
    assert forall|k: int| 0 <= k < unchecked(records).len() implies waits(
        records,
        #[trigger] unchecked(records)[k],
    ) by {
        assert(records.contains(waiting[k]));
        let i = choose|i: int| 0 <= i < records.len() && records[i] == waiting[k];
        assert(is_unchecked(records[i]));
    }
}

/// Two lists of paths that are in order and hold the same writings of every path are equal:
/// there is one way to sort paths.
pub proof fn law_one_way_to_sort(a: Seq<Seq<u8>>, b: Seq<Seq<u8>>)
    requires
        paths_sorted(a),
        paths_sorted(b),
        forall|path: Seq<Seq<u8>>| #[trigger] writings(a, path) == writings(b, path),
    ensures
        a == b,
    decreases a.len(),
{
    if a.len() == 0 {
        if b.len() > 0 {
            lemma_first_writing(b);
            assert(writings(a, components(b[0])).len() == 0) by {
                reveal(Seq::filter);
            }
        }
        assert(a =~= b);
    } else {
        lemma_first_writing(a);
        if b.len() == 0 {
            assert(writings(b, components(a[0])).len() == 0) by {
                reveal(Seq::filter);
            }
        }
        lemma_first_writing(b);
        lemma_first_is_least(a, b);
        lemma_first_is_least(b, a);
        lemma_path_total(components(a[0]), components(b[0]));
        assert(a[0] == b[0]);
        let ra = a.skip(1);
        let rb = b.skip(1);
        assert(a =~= seq![a[0]] + ra);
        assert(b =~= seq![b[0]] + rb);
        assert forall|path: Seq<Seq<u8>>| #[trigger] writings(ra, path) == writings(rb, path) by {
            let same = |t: Seq<u8>| components(t) == path;
            Seq::filter_distributes_over_add(seq![a[0]], ra, same);
            Seq::filter_distributes_over_add(seq![b[0]], rb, same);
            assert(writings(a, path) == writings(b, path));
            let one = seq![a[0]].filter(same);
            assert(one + writings(ra, path) == one + writings(rb, path));
            assert((one + writings(ra, path)).skip(one.len() as int) =~= writings(ra, path));
            assert((one + writings(rb, path)).skip(one.len() as int) =~= writings(rb, path));
        }
        assert(paths_sorted(ra)) by {
            assert forall|i: int, j: int| 0 <= i < j < ra.len() implies !path_before(
                components(#[trigger] ra[j]),
                components(#[trigger] ra[i]),
            ) by {
                assert(ra[i] == a[i + 1] && ra[j] == a[j + 1]);
            }
        }
        assert(paths_sorted(rb)) by {
            assert forall|i: int, j: int| 0 <= i < j < rb.len() implies !path_before(
                components(#[trigger] rb[j]),
                components(#[trigger] rb[i]),
            ) by {
                assert(rb[i] == b[i + 1] && rb[j] == b[j + 1]);
            }
        }
        law_one_way_to_sort(ra, rb);
    }
}

/// The first path of a list is the first of its writings.
proof fn lemma_first_writing(paths: Seq<Seq<u8>>)
    requires
        paths.len() > 0,
    ensures
        writings(paths, components(paths[0])).len() > 0,
        writings(paths, components(paths[0]))[0] == paths[0],
{
    let path = components(paths[0]);
    let same = |t: Seq<u8>| components(t) == path;
    let one = seq![paths[0]];
    assert(paths =~= one + paths.skip(1));
    Seq::filter_distributes_over_add(one, paths.skip(1), same);
    assert(one.filter(same) =~= one) by {
        reveal(Seq::filter);
        assert(one.drop_last() =~= Seq::<Seq<u8>>::empty());
        assert(one.drop_last().filter(same) =~= Seq::<Seq<u8>>::empty());
        assert(one.last() == paths[0]);
    }
}

/// No path of a list in order comes before the first of another that has all its writings.
proof fn lemma_first_is_least(a: Seq<Seq<u8>>, b: Seq<Seq<u8>>)
    requires
        a.len() > 0,
        b.len() > 0,
        paths_sorted(b),
        forall|path: Seq<Seq<u8>>| #[trigger] writings(a, path) == writings(b, path),
    ensures
        !path_before(components(a[0]), components(b[0])),
{
    let path = components(a[0]);
    let same = |t: Seq<u8>| components(t) == path;
    lemma_first_writing(a);
    assert(writings(b, path)[0] == a[0]);
    if path_before(path, components(b[0])) {
        lemma_path_total(path, components(b[0]));
        assert forall|j: int| 0 <= j < b.len() implies components(#[trigger] b[j]) != path by {
            if j > 0 && components(b[j]) == path {
                assert(!path_before(components(b[j]), components(b[0])));
            }
        }
        lemma_no_writings(b, path);
    }
}

/// A database that was kept after a run is used again by a run over the same paths, provided
/// these were given in order: a kept database holds its paths in order.
pub proof fn law_kept_database_is_used_again(kept: Seq<Seq<u8>>, paths: Seq<Seq<u8>>)
    requires
        stably_sorted(kept, paths),
        paths_sorted(paths),
    ensures
        same_paths(kept, paths),
{
    law_one_way_to_sort(kept, paths);
}

/// A path that was searched is still there once the paths are sorted, and no other.
pub proof fn law_sorting_keeps_paths(
    after: Seq<Seq<u8>>,
    before: Seq<Seq<u8>>,
    text: Seq<u8>,
)
    requires
        stably_sorted(after, before),
    ensures
        after.contains(text) <==> before.contains(text),
{
    lemma_writings_hold(after, text);
    lemma_writings_hold(before, text);
    assert(writings(after, components(text)) == writings(before, components(text)));
}

proof fn lemma_writings_hold(paths: Seq<Seq<u8>>, text: Seq<u8>)
    ensures
        paths.contains(text) <==> writings(paths, components(text)).contains(text),
    decreases paths.len(),
{
    reveal(Seq::filter);
    let all = writings(paths, components(text));
    if paths.len() > 0 {
        let front = paths.drop_last();
        let before = writings(front, components(text));
        lemma_writings_hold(front, text);
        if paths.contains(text) {
            let i = choose|i: int| 0 <= i < paths.len() && paths[i] == text;
            if i < front.len() {
                assert(front[i] == text);
                let j = choose|j: int| 0 <= j < before.len() && before[j] == text;
                assert(all[j] == text);
            } else {
                assert(all[all.len() - 1] == text);
            }
        }
        if all.contains(text) {
            let j = choose|j: int| 0 <= j < all.len() && all[j] == text;
            if j < before.len() {
                assert(before[j] == text);
                let i = choose|i: int| 0 <= i < front.len() && front[i] == text;
                assert(paths[i] == text);
            } else {
                assert(paths[paths.len() - 1] == text);
            }
        }
    }
}

/// It does not matter in which order the findings about two packages come in.
pub proof fn law_findings_come_in_any_order(
    map: Map<Seq<Seq<u8>>, RecordView>,
    p: Seq<Seq<u8>>,
    p_deps: DepsView,
    q: Seq<Seq<u8>>,
    q_deps: DepsView,
)
    requires
        p != q,
    ensures
        noted(noted(map, p, p_deps), q, q_deps) == noted(noted(map, q, q_deps), p, p_deps),
{
    assert(noted(noted(map, p, p_deps), q, q_deps) =~= noted(noted(map, q, q_deps), p, p_deps));
}

/// What records there are determines the order in which they are listed.
pub proof fn law_one_listing(a: Seq<RecordView>, b: Seq<RecordView>)
    requires
        sorted(a),
        sorted(b),
        record_map(a) == record_map(b),
    ensures
        a == b,
    decreases a.len(),
{
    if a.len() == 0 || b.len() == 0 {
        if b.len() > 0 {
            lemma_found(b, 0);
            let i = choose|i: int| stands_at(a, i, key(b[0]));
        }
        if a.len() > 0 {
            lemma_found(a, 0);
            let i = choose|i: int| stands_at(b, i, key(a[0]));
        }
        assert(a =~= b);
    } else {
        lemma_found(a, 0);
        lemma_found(b, 0);
        lemma_found_path(b, key(a[0]));
        lemma_found_path(a, key(b[0]));
        let j = choose|j: int|
            stands_at(b, j, key(a[0])) && b[j] == record_map(b)[key(a[0])];
        let i = choose|i: int|
            stands_at(a, i, key(b[0])) && a[i] == record_map(a)[key(b[0])];
        lemma_path_total(key(a[0]), key(b[0]));
        assert(j == 0);
        assert(a[0] == b[0]);
        lemma_tail(a);
        lemma_tail(b);
        law_one_listing(a.skip(1), b.skip(1));
        assert(a =~= seq![a[0]] + a.skip(1));
        assert(b =~= seq![b[0]] + b.skip(1));
    }
}

/// Without its first record a listing is in order and lacks just that record.
proof fn lemma_tail(records: Seq<RecordView>)
    requires
        sorted(records),
        records.len() > 0,
    ensures
        sorted(records.skip(1)),
        record_map(records.skip(1)) == record_map(records).remove(key(records[0])),
{
    let tail = records.skip(1);
    let goal = record_map(records).remove(key(records[0]));
    assert(sorted(tail)) by {
        assert forall|i: int, j: int| 0 <= i < j < tail.len() implies path_before(
            key(#[trigger] tail[i]),
            key(#[trigger] tail[j]),
        ) by {
            assert(tail[i] == records[i + 1] && tail[j] == records[j + 1]);
        }
    }
    assert forall|path: Seq<Seq<u8>>| #[trigger]
        record_map(tail).contains_key(path) == goal.contains_key(path) by {
        if record_map(tail).contains_key(path) {
            let i = choose|i: int| stands_at(tail, i, path);
            assert(stands_at(records, i + 1, path));
            assert(path_before(key(records[0]), key(records[i + 1])));
            lemma_path_total(key(records[0]), path);
        }
        if goal.contains_key(path) {
            let i = choose|i: int| stands_at(records, i, path);
            assert(stands_at(tail, i - 1, path));
        }
    }
    assert forall|path: Seq<Seq<u8>>| #[trigger]
        record_map(tail).contains_key(path) implies record_map(tail)[path] == goal[path] by {
        let i = choose|i: int| stands_at(tail, i, path);
        lemma_found(tail, i);
        lemma_found(records, i + 1);
    }
    assert(record_map(tail) =~= goal);
}

/// What is said of findings, records and visits says every field of them.
pub proof fn law_views_leave_nothing_out(deps: Deps, dep: CargoDep, visit: Visit)
    ensures
        deps@.unused.len() == deps.unused@.len(),
        forall|i: int| 0 <= i < deps.unused@.len() ==> #[trigger] deps@.unused[i] == deps.unused@[i]@,
        deps@.ignored_used.len() == deps.ignored_used@.len(),
        forall|i: int|
            0 <= i < deps.ignored_used@.len() ==> #[trigger] deps@.ignored_used[i]
                == deps.ignored_used@[i]@,
        deps@.package_name == deps.package_name@,
        dep@.checksum == dep.checksum@,
        dep@.unique_run_id == dep.unique_run_id@,
        dep.deps matches Some(found) ==> dep@.deps == Some(found@),
        dep.deps is None ==> dep@.deps is None,
        visit@.path == visit.path@,
        visit.checksum matches Some(checksum) ==> visit@.checksum == Some(checksum@),
        visit.checksum is None ==> visit@.checksum is None,
{
}

proof fn lemma_last_visit(
    map: Map<Seq<Seq<u8>>, RecordView>,
    visits: Seq<VisitView>,
    run_id: Seq<char>,
    i: int,
)
    requires
        0 <= i < visits.len(),
        forall|j: int|
            i < j < visits.len() ==> components((#[trigger] visits[j]).path) != components(
                visits[i].path,
            ),
    ensures
        all_visited(map, visits, run_id).contains_key(components(visits[i].path)),
        all_visited(map, visits, run_id)[components(visits[i].path)].dep.checksum
            == visit_checksum(visits[i]),
    decreases visits.len(),
{
    let n = visits.len() - 1;
    if i < n {
        let front = visits.drop_last();
        assert forall|j: int| i < j < front.len() implies components((#[trigger] front[j]).path)
            != components(front[i].path) by {
            assert(front[j] == visits[j]);
        }
        assert(front[i] == visits[i]);
        lemma_last_visit(map, front, run_id, i);
        assert(components(visits[n].path) != components(visits[i].path));
    }
}

/// After a run has refreshed the records, the record of every manifest that it found holds the
/// checksum that the last visit to it took, or none if that took none, whether or not there
/// was a record before; and the identifier of the run.
pub proof fn law_current_checksum_is_stored(
    map: Map<Seq<Seq<u8>>, RecordView>,
    visits: Seq<VisitView>,
    run_id: Seq<char>,
    i: int,
)
    requires
        0 <= i < visits.len(),
        forall|j: int|
            i < j < visits.len() ==> components((#[trigger] visits[j]).path) != components(
                visits[i].path,
            ),
    ensures
        ({
            let path = components(visits[i].path);
            let record = refreshed(map, visits, run_id)[path];
            &&& refreshed(map, visits, run_id).contains_key(path)
            &&& visits[i].checksum matches Some(checksum) ==> record.dep.checksum == checksum
            &&& visits[i].checksum is None ==> record.dep.checksum == Seq::<char>::empty()
            &&& record.dep.unique_run_id == run_id
        }),
{
    let path = components(visits[i].path);
    lemma_last_visit(map, visits, run_id, i);
    assert(is_visited(visits, path));
    lemma_visits_touch(map, visits, run_id, path);
}

/// A manifest that is found for the first time goes by the text of the first visit to it.
proof fn lemma_new_path(
    map: Map<Seq<Seq<u8>>, RecordView>,
    visits: Seq<VisitView>,
    run_id: Seq<char>,
    path: Seq<Seq<u8>>,
)
    requires
        !map.contains_key(path),
        all_visited(map, visits, run_id).contains_key(path),
    ensures
        components(all_visited(map, visits, run_id)[path].path) == path,
        forall|i: int|
            0 <= i < visits.len() && components((#[trigger] visits[i]).path) == path && !is_visited(
                visits.take(i),
                path,
            ) ==> all_visited(map, visits, run_id)[path].path == visits[i].path,
    decreases visits.len(),
{
    if visits.len() > 0 {
        let front = visits.drop_last();
        let n = visits.len() - 1;
        lemma_visits_touch(map, front, run_id, path);
        if all_visited(map, front, run_id).contains_key(path) {
            lemma_new_path(map, front, run_id, path);
            assert forall|i: int|
                0 <= i < visits.len() && components((#[trigger] visits[i]).path) == path
                    && !is_visited(visits.take(i), path) implies all_visited(
                map,
                visits,
                run_id,
            )[path].path == visits[i].path by {
                assert(visits.take(n) =~= front);
                if i < n {
                    assert(front[i] == visits[i]);
                    assert(front.take(i) =~= visits.take(i));
                }
            }
        } else {
            assert forall|i: int|
                0 <= i < visits.len() && components((#[trigger] visits[i]).path) == path
                    && !is_visited(visits.take(i), path) implies all_visited(
                map,
                visits,
                run_id,
            )[path].path == visits[i].path by {
                if i < n {
                    assert(front[i] == visits[i]);
                    assert(is_visited(front, path));
                }
            }
        }
    }
}

/// The text of a manifest's path: the one that is known, or else that of the first visit.
pub proof fn law_path_keeps_its_text(
    map: Map<Seq<Seq<u8>>, RecordView>,
    visits: Seq<VisitView>,
    run_id: Seq<char>,
    i: int,
)
    requires
        0 <= i < visits.len(),
        forall|j: int|
            0 <= j < i ==> components((#[trigger] visits[j]).path) != components(visits[i].path),
    ensures
        refreshed(map, visits, run_id)[components(visits[i].path)].path == if map.contains_key(
            components(visits[i].path),
        ) {
            map[components(visits[i].path)].path
        } else {
            visits[i].path
        },
{
    let path = components(visits[i].path);
    assert(is_visited(visits, path));
    lemma_visits_touch(map, visits, run_id, path);
    if map.contains_key(path) {
        lemma_known_path(map, visits, run_id, path);
    } else {
        assert(!is_visited(visits.take(i), path)) by {
            if is_visited(visits.take(i), path) {
                let j = choose|j: int|
                    0 <= j < visits.take(i).len() && components(
                        (#[trigger] visits.take(i)[j]).path,
                    ) == path;
                assert(visits[j] == visits.take(i)[j]);
            }
        }
        lemma_new_path(map, visits, run_id, path);
    }
}

proof fn lemma_known_path(
    map: Map<Seq<Seq<u8>>, RecordView>,
    visits: Seq<VisitView>,
    run_id: Seq<char>,
    path: Seq<Seq<u8>>,
)
    requires
        map.contains_key(path),
    ensures
        all_visited(map, visits, run_id).contains_key(path),
        all_visited(map, visits, run_id)[path].path == map[path].path,
    decreases visits.len(),
{
    if visits.len() > 0 {
        lemma_known_path(map, visits.drop_last(), run_id, path);
    }
}

/// Whether every visit to `path` took the checksum `checksum`, none counting as the empty one.
pub open spec fn all_took(visits: Seq<VisitView>, path: Seq<Seq<u8>>, checksum: Seq<char>) -> bool {
    forall|i: int|
        0 <= i < visits.len() && components((#[trigger] visits[i]).path) == path ==> (
        if visits[i].checksum is Some {
            visits[i].checksum->Some_0 == checksum
        } else {
            checksum.len() == 0
        })
}

proof fn lemma_changed(
    map: Map<Seq<Seq<u8>>, RecordView>,
    visits: Seq<VisitView>,
    run_id: Seq<char>,
    path: Seq<Seq<u8>>,
)
    requires
        map.contains_key(path),
        !all_took(visits, path, map[path].dep.checksum),
    ensures
        all_visited(map, visits, run_id).contains_key(path),
        all_visited(map, visits, run_id)[path].dep.deps is None,
    decreases visits.len(),
{
    let front = visits.drop_last();
    let known = map[path].dep.checksum;
    if !all_took(front, path, known) {
        lemma_changed(map, front, run_id, path);
    } else {
        lemma_took(front, path, known);
        lemma_unchanged(map, front, run_id, path);
        let i = choose|i: int|
            0 <= i < visits.len() && components((#[trigger] visits[i]).path) == path && !(
            if visits[i].checksum is Some {
                visits[i].checksum->Some_0 == known
            } else {
                known.len() == 0
            });
        if i < front.len() {
            assert(front[i] == visits[i]);
        }
        assert(visits.last() == visits[i]);
        if visits.last().checksum is None {
            assert(known.len() > 0);
        }
    }
}

proof fn lemma_took(visits: Seq<VisitView>, path: Seq<Seq<u8>>, checksum: Seq<char>)
    requires
        all_took(visits, path, checksum),
    ensures
        forall|i: int|
            0 <= i < visits.len() && components((#[trigger] visits[i]).path) == path
                ==> visit_checksum(visits[i]) == checksum,
{
    assert forall|i: int|
        0 <= i < visits.len() && components((#[trigger] visits[i]).path) == path
            implies visit_checksum(visits[i]) == checksum by {
        if visits[i].checksum is None {
            assert(checksum =~= Seq::<char>::empty());
        }
    }
}

/// What is known of a manifest that a run found keeps its findings exactly if every visit to it
/// took the checksum that was stored; else it waits for analysis. A manifest that the run did
/// not find keeps its record, unchanged, only if that bears the identifier of the run.
pub proof fn law_findings_survive_unchanged_packages_only(
    map: Map<Seq<Seq<u8>>, RecordView>,
    visits: Seq<VisitView>,
    run_id: Seq<char>,
    path: Seq<Seq<u8>>,
)
    ensures
        ({
            let after = refreshed(map, visits, run_id);
            let found = exists|i: int|
                0 <= i < visits.len() && components((#[trigger] visits[i]).path) == path;
            &&& found ==> after.contains_key(path)
            &&& found && map.contains_key(path) && all_took(
                visits,
                path,
                map[path].dep.checksum,
            ) ==> after[path].dep.deps == map[path].dep.deps
            &&& found && !(map.contains_key(path) && all_took(
                visits,
                path,
                map[path].dep.checksum,
            )) ==> after[path].dep.deps is None
            &&& !found ==> (after.contains_key(path) <==> map.contains_key(path)
                && map[path].dep.unique_run_id == run_id)
            &&& !found && after.contains_key(path) ==> after[path] == map[path]
        }),
{
    lemma_visits_touch(map, visits, run_id, path);
    if is_visited(visits, path) {
        if !map.contains_key(path) {
            lemma_new(map, visits, run_id, path);
        } else if all_took(visits, path, map[path].dep.checksum) {
            lemma_took(visits, path, map[path].dep.checksum);
            lemma_unchanged(map, visits, run_id, path);
        } else {
            lemma_changed(map, visits, run_id, path);
        }
    }
}

/// Two runs that find the same manifests with the same checksums: if everything that waits
/// after the first is analysed, nothing waits after the second.
pub proof fn law_second_run_has_nothing_to_analyse(
    map: Map<Seq<Seq<u8>>, RecordView>,
    visits: Seq<VisitView>,
    first_id: Seq<char>,
    analysed: Map<Seq<Seq<u8>>, RecordView>,
    second_id: Seq<char>,
    path: Seq<Seq<u8>>,
)
    requires
        forall|i: int, j: int|
            0 <= i < visits.len() && 0 <= j < visits.len() && components(
                (#[trigger] visits[i]).path,
            ) == components((#[trigger] visits[j]).path) ==> visits[i].checksum
                == visits[j].checksum,
        forall|p: Seq<Seq<u8>>| #[trigger]
            analysed.contains_key(p) <==> refreshed(map, visits, first_id).contains_key(p),
        forall|p: Seq<Seq<u8>>| #[trigger]
            analysed.contains_key(p) ==> {
                &&& analysed[p].dep.deps is Some
                &&& analysed[p].dep.checksum == refreshed(map, visits, first_id)[p].dep.checksum
            },
        refreshed(analysed, visits, second_id).contains_key(path),
    ensures
        refreshed(analysed, visits, second_id)[path].dep.deps is Some,
        refreshed(analysed, visits, second_id)[path].dep.deps == analysed[path].dep.deps,
{
    law_findings_survive_unchanged_packages_only(analysed, visits, second_id, path);
    if is_visited(visits, path) {
        lemma_last_index(visits, path);
        let k = choose|k: int| is_last_visit(visits, path, k);
        law_current_checksum_is_stored(map, visits, first_id, k);
        assert(analysed.contains_key(path));
        let stored = analysed[path].dep.checksum;
        assert(all_took(visits, path, stored)) by {
            assert forall|i: int|
                0 <= i < visits.len() && components((#[trigger] visits[i]).path) == path implies (
            if visits[i].checksum is Some {
                visits[i].checksum->Some_0 == stored
            } else {
                stored.len() == 0
            }) by {
                assert(visits[i].checksum == visits[k].checksum);
            }
        }
    }
}

spec fn is_last_visit(visits: Seq<VisitView>, path: Seq<Seq<u8>>, k: int) -> bool {
    &&& 0 <= k < visits.len()
    &&& components(visits[k].path) == path
    &&& forall|j: int| k < j < visits.len() ==> components((#[trigger] visits[j]).path) != path
}

proof fn lemma_last_index(visits: Seq<VisitView>, path: Seq<Seq<u8>>)
    requires
        is_visited(visits, path),
    ensures
        exists|k: int| is_last_visit(visits, path, k),
    decreases visits.len(),
{
    let n = visits.len() - 1;
    if components(visits[n].path) == path {
        assert(is_last_visit(visits, path, n));
    } else {
        let front = visits.drop_last();
        let i = choose|i: int|
            0 <= i < visits.len() && components((#[trigger] visits[i]).path) == path;
        assert(front[i] == visits[i]);
        lemma_last_index(front, path);
        let k = choose|k: int| is_last_visit(front, path, k);
        assert forall|j: int| k < j < visits.len() implies components(
            (#[trigger] visits[j]).path,
        ) != path by {
            if j < n {
                assert(front[j] == visits[j]);
            }
        }
        assert(is_last_visit(visits, path, k));
    }
}

/// After the findings about a package are noted, its record holds exactly those, with path,
/// checksum and run as before, and every other record is as it was.
pub proof fn law_noted_findings_are_stored_whole(
    map: Map<Seq<Seq<u8>>, RecordView>,
    path: Seq<Seq<u8>>,
    deps: DepsView,
)
    requires
        map.contains_key(path),
    ensures
        ({
            let after = noted(map, path, deps);
            &&& after.dom() == map.dom()
            &&& after[path].dep.deps is Some
            &&& after[path].dep.deps->Some_0.unused == deps.unused
            &&& after[path].dep.deps->Some_0.ignored_used == deps.ignored_used
            &&& after[path].dep.deps->Some_0.package_name == deps.package_name
            &&& after[path].path == map[path].path
            &&& after[path].dep.checksum == map[path].dep.checksum
            &&& after[path].dep.unique_run_id == map[path].dep.unique_run_id
            &&& forall|other: Seq<Seq<u8>>|
                other != path && #[trigger] map.contains_key(other) ==> after[other] == map[other]
        }),
{
    assert(noted(map, path, deps).dom() =~= map.dom());
}

/// A fix leaves of a record everything but the unused dependencies and the checksum.
pub proof fn law_fixed_record(record: RecordView, checksum: Seq<char>)
    requires
        record.dep.deps is Some,
    ensures
        ({
            let after = fixed_record(record, checksum);
            &&& after.path == record.path
            &&& after.dep.checksum == checksum
            &&& after.dep.unique_run_id == record.dep.unique_run_id
            &&& after.dep.deps is Some
            &&& after.dep.deps->Some_0.unused.len() == 0
            &&& after.dep.deps->Some_0.ignored_used == record.dep.deps->Some_0.ignored_used
            &&& after.dep.deps->Some_0.package_name == record.dep.deps->Some_0.package_name
        }),
{
}

/// A record alone waits exactly if it holds no findings, and what waits in two listings
/// together is what waits in each, in order.
pub proof fn law_waiting_in_parts(a: Seq<RecordView>, b: Seq<RecordView>, record: RecordView)
    ensures
        unchecked(a + b) == unchecked(a) + unchecked(b),
        unchecked(seq![record]) == if record.dep.deps is None {
            seq![record.path]
        } else {
            Seq::<Seq<u8>>::empty()
        },
{
    let waits = |record: RecordView| is_unchecked(record);
    Seq::filter_distributes_over_add(a, b, waits);
    assert(unchecked(a + b) =~= unchecked(a) + unchecked(b));
    reveal(Seq::filter);
    assert(seq![record].drop_last() =~= Seq::<RecordView>::empty());
    assert(seq![record].drop_last().filter(waits) =~= Seq::<RecordView>::empty());
    assert(seq![record].last() == record);
    assert(unchecked(seq![record]) =~= if record.dep.deps is None {
        seq![record.path]
    } else {
        Seq::<Seq<u8>>::empty()
    });
}

/// When a checksum is taken: always if the database is kept; else not for a manifest that is
/// met for the first time and has no record, and for every other one.
pub proof fn law_when_checksums_are_taken(
    map: Map<Seq<Seq<u8>>, RecordView>,
    manifests: Seq<Seq<u8>>,
    kept: bool,
    i: int,
)
    requires
        0 <= i < manifests.len(),
    ensures
        kept ==> checksum_needed(map, manifests, kept, i),
        map.contains_key(components(manifests[i])) ==> checksum_needed(map, manifests, kept, i),
        forall|j: int|
            0 <= j < i && components(#[trigger] manifests[j]) == components(manifests[i])
                ==> checksum_needed(map, manifests, kept, i),
        !kept && !map.contains_key(components(manifests[i])) && (forall|j: int|
            0 <= j < i ==> components(#[trigger] manifests[j]) != components(manifests[i]))
            ==> !checksum_needed(map, manifests, kept, i),
{
}

/// Lists hold the same paths exactly if they are of one length and agree place by place.
pub proof fn law_same_paths(a: Seq<Seq<u8>>, b: Seq<Seq<u8>>)
    ensures
        same_paths(a, b) ==> a.len() == b.len(),
        forall|i: int|
            same_paths(a, b) && 0 <= i < a.len() ==> components(#[trigger] a[i]) == components(
                b[i],
            ),
        a.len() == b.len() && (forall|i: int|
            0 <= i < a.len() ==> components(#[trigger] a[i]) == components(b[i])) ==> same_paths(
            a,
            b,
        ),
{
}

proof fn lemma_count_writings(paths: Seq<Seq<u8>>, text: Seq<u8>)
    ensures
        paths.to_multiset().count(text) == writings(paths, components(text)).to_multiset().count(
            text,
        ),
    decreases paths.len(),
{
    broadcast use vstd::seq_lib::group_to_multiset_ensures;

    reveal(Seq::filter);
    if paths.len() > 0 {
        let front = paths.drop_last();
        lemma_count_writings(front, text);
        assert(paths =~= front.push(paths.last()));
        lemma_writings_push(front, paths.last(), components(text));
    } else {
        assert(writings(paths, components(text)) =~= paths);
    }
}

/// Sorted paths are the same texts, each as often as before, and of two of them the later one
/// does not precede the earlier.
pub proof fn law_sorted_paths(after: Seq<Seq<u8>>, before: Seq<Seq<u8>>)
    requires
        stably_sorted(after, before),
    ensures
        after.to_multiset() == before.to_multiset(),
        after.len() == before.len(),
        forall|i: int, j: int|
            0 <= i < j < after.len() ==> components(#[trigger] after[i]) == components(
                #[trigger] after[j],
            ) || path_before(components(after[i]), components(after[j])),
{
    broadcast use vstd::seq_lib::group_to_multiset_ensures;

    assert forall|text: Seq<u8>| after.to_multiset().count(text) == before.to_multiset().count(
        text,
    ) by {
        lemma_count_writings(after, text);
        lemma_count_writings(before, text);
        assert(writings(after, components(text)) == writings(before, components(text)));
    }
    assert(after.to_multiset() =~= before.to_multiset());
    assert(after.to_multiset().len() == after.len());
    assert(before.to_multiset().len() == before.len());
    assert forall|i: int, j: int| 0 <= i < j < after.len() implies components(#[trigger] after[i])
        == components(#[trigger] after[j]) || path_before(
        components(after[i]),
        components(after[j]),
    ) by {
        lemma_path_total(components(after[i]), components(after[j]));
    }
}

/// The views of a list of visits are those of its visits, in order and all of them.
pub proof fn law_visit_views(visits: Seq<Visit>)
    ensures
        visit_views(visits).len() == visits.len(),
        forall|i: int| 0 <= i < visits.len() ==> #[trigger] visit_views(visits)[i] == visits[i]@,
{
}

} // verus!
