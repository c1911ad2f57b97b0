//! Fixing packages: what becomes of their manifests, their records and the report.

use vstd::prelude::*;
use vstd::string::*;

use crate::db::{
    fixed_record, is_unchecked, is_visited, law_unchanged_package_is_not_checked_again, refreshed,
    visit_checksum, Db, RecordView, VisitView,
};
use crate::manifest::{
    all_valued, dependencies_of, fixed_manifest, parsed_manifest, prints, try_remove_dependencies,
    FixError, Node,
};
use crate::path::components;
use crate::report::{
    has_findings, has_ignored_used, has_unused, lemma_next_finding, next_finding, Report,
};
use crate::text::strings;

verus! {

/// The text of the manifest of the package at place `index`, fixed: without the dependencies
/// that were found to be unused. Ignored dependencies that are used are left alone. `None` if
/// the settings of this tool in the manifest cannot be reached or read.
pub fn fix_of(db: &Db, index: usize, manifest: &str) -> (r: Option<Result<String, FixError>>)
    requires
        index < db.listing().len(),
        !is_unchecked(db.listing()[index as int]),
    ensures
        match fixed_manifest(
            manifest@,
            db.listing()[index as int].dep.deps->Some_0.unused,
            Seq::empty(),
        ) {
            Some(Ok(root)) => {
                &&& r matches Some(Ok(text)) && prints(text@, root)
                &&& dependencies_of(parsed_manifest(manifest@)->Ok_0).wf()
                &&& all_valued(Node::Table(parsed_manifest(manifest@)->Ok_0))
            },
            Some(Err(refusal)) => r matches Some(Err(e)) && e@ == refusal,
            None => r is None,
        },
{
    match &db.dep_at(index).deps {
        Some(deps) => {
            let none: Vec<String> = Vec::new();
            assert(strings(none@) =~= Seq::<Seq<char>>::empty());
            assert(strings(deps.unused@) == db.listing()[index as int].dep.deps->Some_0.unused);
            try_remove_dependencies(manifest, deps.unused.as_slice(), none.as_slice())
        },
        None => None,
    }
}

/// The records and the report once the package at place `index` was fixed.
pub open spec fn finished(
    records: Seq<RecordView>,
    report: Report,
    index: int,
    checksum: Seq<char>,
) -> (Seq<RecordView>, Report) {
    (records.update(index, fixed_record(records[index], checksum)), report.once_fixed())
}

/// Notes that the package at place `index`, which was told about last, was fixed and has
/// `checksum` now.
pub fn finish_fix(db: &mut Db, report: &mut Report, index: usize, checksum: String)
    requires
        old(db).wf(),
        index < old(db).listing().len(),
        !is_unchecked(old(db).listing()[index as int]),
    ensures
        final(db).wf(),
        final(db).path_list() == old(db).path_list(),
        (final(db).listing(), *final(report)) == finished(
            old(db).listing(),
            *old(report),
            index as int,
            checksum@,
        ),
{
    db.mark_fixed(index, checksum);
    report.note_fixed();
}

/// The records and the report after a run that fixes every package that it tells about, one
/// after the other: it goes on to the next finding, tells about it and finishes its fix.
/// `checksums` are those of the fixed packages, each at the place of its record.
pub open spec fn fix_run(
    records: Seq<RecordView>,
    report: Report,
    checksums: Seq<Seq<char>>,
) -> (Seq<RecordView>, Report)
    decreases records.len() - report.next,
{
    let index = next_finding(records, report.next as int);
    if report.next <= index < records.len() <= usize::MAX {
        let (fixed, next) = finished(
            records,
            report.after(index, records[index].dep),
            index,
            checksums[index],
        );
        fix_run(fixed, next, checksums)
    } else {
        (records, report)
    }
}

/// Whether one of the records from place `from` on has findings.
pub open spec fn findings_from(records: Seq<RecordView>, from: int) -> bool {
    exists|i: int| from <= i < records.len() && has_findings((#[trigger] records[i]).dep)
}

/// Whether ignored dependencies are used in one of the packages from place `from` on.
pub open spec fn ignored_used_from(records: Seq<RecordView>, from: int) -> bool {
    exists|i: int| from <= i < records.len() && has_ignored_used((#[trigger] records[i]).dep)
}

/// A run that fixes what it tells about fixes every package with findings, leaves the others
/// as they are, and leaves no unused dependency. Its result still says whether anything was
/// found, and ignored dependencies that are used are still there.
pub proof fn law_fix_run_leaves_nothing_unused(
    records: Seq<RecordView>,
    report: Report,
    checksums: Seq<Seq<char>>,
)
    requires
        report.next <= records.len() <= usize::MAX,
        !report.has_unused_dependencies,
        checksums.len() == records.len(),
    ensures
        ({
            let (after, end) = fix_run(records, report, checksums);
            &&& after.len() == records.len()
            &&& forall|i: int|
                0 <= i < records.len() ==> #[trigger] after[i] == if report.next <= i
                    && has_findings(records[i].dep) {
                    fixed_record(records[i], checksums[i])
                } else {
                    records[i]
                }
            &&& forall|i: int|
                report.next <= i < records.len() ==> !has_unused((#[trigger] after[i]).dep)
            &&& !end.has_unused_dependencies
            &&& end.has_ignored_used == (report.has_ignored_used || ignored_used_from(
                records,
                report.next as int,
            ))
            &&& end.found_any == (report.found_any || findings_from(records, report.next as int))
        }),
    decreases records.len() - report.next,
{
    let from = report.next as int;
    let index = next_finding(records, from);
    lemma_next_finding(records, from);
    let (after, end) = fix_run(records, report, checksums);
    if index < records.len() {
        let (fixed, next) = finished(
            records,
            report.after(index, records[index].dep),
            index,
            checksums[index],
        );
        law_fix_run_leaves_nothing_unused(fixed, next, checksums);
        assert forall|i: int| 0 <= i < records.len() implies #[trigger] after[i]
            == if report.next <= i && has_findings(records[i].dep) {
            fixed_record(records[i], checksums[i])
        } else {
            records[i]
        } by {
            if i != index {
                assert(fixed[i] == records[i]);
            }
        }
        assert(findings_from(records, from));
        assert(ignored_used_from(records, from) == (has_ignored_used(records[index].dep)
            || ignored_used_from(fixed, index + 1))) by {
            if ignored_used_from(records, from) {
                let i = choose|i: int|
                    from <= i < records.len() && has_ignored_used((#[trigger] records[i]).dep);
                assert(has_findings(records[i].dep));
                if i != index {
                    assert(fixed[i] == records[i]);
                }
            }
            if ignored_used_from(fixed, index + 1) {
                let i = choose|i: int|
                    index + 1 <= i < fixed.len() && has_ignored_used((#[trigger] fixed[i]).dep);
                assert(records[i] == fixed[i]);
            }
        }
    } else {
        assert(!ignored_used_from(records, from)) by {
            if ignored_used_from(records, from) {
                let i = choose|i: int|
                    from <= i < records.len() && has_ignored_used((#[trigger] records[i]).dep);
                assert(has_findings(records[i].dep));
            }
        }
    }
}

/// A package that was fixed and has not changed since is not analysed by the next run, which
/// finds nothing unused in it and the same ignored dependencies used.
pub proof fn law_fixed_package_is_not_checked_again(
    map: Map<Seq<Seq<u8>>, RecordView>,
    record: RecordView,
    checksum: Seq<char>,
    visits: Seq<VisitView>,
    run_id: Seq<char>,
    path: Seq<Seq<u8>>,
)
    requires
        map.contains_key(path),
        map[path] == fixed_record(record, checksum),
        is_visited(visits, path),
        forall|i: int|
            0 <= i < visits.len() && components((#[trigger] visits[i]).path) == path
                ==> visit_checksum(visits[i]) == checksum,
    ensures
        refreshed(map, visits, run_id).contains_key(path),
        !is_unchecked(refreshed(map, visits, run_id)[path]),
        !has_unused(refreshed(map, visits, run_id)[path].dep),
        refreshed(map, visits, run_id)[path].dep.deps->Some_0.ignored_used
            == record.dep.deps->Some_0.ignored_used,
{
    law_unchanged_package_is_not_checked_again(map, visits, run_id, path);
}

/// A finished fix touches the record of its package alone: its unused dependencies are gone and
/// its checksum is the new one, while everything else that is known stays, and the report still
/// says that something was found.
pub proof fn law_finished_fix(
    records: Seq<RecordView>,
    report: Report,
    index: int,
    checksum: Seq<char>,
)
    requires
        0 <= index < records.len(),
        records[index].dep.deps is Some,
    ensures
        ({
            let (after, end) = finished(records, report, index, checksum);
            let before = records[index].dep.deps->Some_0;
            let left = after[index].dep.deps->Some_0;
            &&& after.len() == records.len()
            &&& forall|i: int|
                0 <= i < records.len() && i != index ==> #[trigger] after[i] == records[i]
            &&& after[index].path == records[index].path
            &&& after[index].dep.checksum == checksum
            &&& after[index].dep.unique_run_id == records[index].dep.unique_run_id
            &&& after[index].dep.deps is Some
            &&& left.unused.len() == 0
            &&& left.ignored_used == before.ignored_used
            &&& left.package_name == before.package_name
            &&& end.next == report.next && end.header_shown == report.header_shown
            &&& end.found_any == report.found_any
            &&& end.has_ignored_used == report.has_ignored_used
            &&& !end.has_unused_dependencies
        }),
{
}

} // verus!
