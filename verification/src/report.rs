//! What a user is told, and the result of a run.

use vstd::prelude::*;
use vstd::string::*;

use crate::db::{CargoDepView, Db, Deps, RecordView};
use crate::path::FilePath;
use crate::text::{lossy_text, strings, to_string_lossy};

verus! {

/// A line of output, without the line break at its end.
#[derive(Debug)]
pub struct Line {
    pub text: String,
    /// Whether the line goes to the error output.
    pub to_stderr: bool,
}

/// What a `Line` says.
pub struct LineView {
    pub text: Seq<char>,
    pub to_stderr: bool,
}

impl View for Line {
    type V = LineView;

    open spec fn view(&self) -> LineView {
        LineView { text: self.text@, to_stderr: self.to_stderr }
    }
}

/// The views of a list of lines.
pub open spec fn line_views(lines: Seq<Line>) -> Seq<LineView> {
    Seq::new(lines.len(), |i: int| lines[i]@)
}

/// A line for the standard output.
pub open spec fn out(text: Seq<char>) -> LineView {
    LineView { text, to_stderr: false }
}

/// A line for the error output.
pub open spec fn err(text: Seq<char>) -> LineView {
    LineView { text, to_stderr: true }
}

/// The line above all findings. `paths` shows the paths that were searched.
pub open spec fn header_line(paths: Seq<char>) -> LineView {
    out("cargo-machete-nk found unused or ignored_used dependencies in "@ + paths + ":"@)
}

/// The line above the findings about a package.
pub open spec fn package_line(package_name: Seq<char>, path: Seq<u8>) -> LineView {
    out(package_name + " -- "@ + lossy_text(path) + ":"@)
}

/// The line about an unused dependency.
pub open spec fn unused_line(dep: Seq<char>) -> LineView {
    out("    ❗ "@ + dep)
}

/// The line about a dependency that is marked as ignored and yet used.
pub open spec fn ignored_used_line(dep: Seq<char>) -> LineView {
    err("    ⚠️  "@ + dep + " was marked as ignored, but is actually used!"@)
}

/// The lines about unused dependencies.
pub open spec fn unused_lines(deps: Seq<Seq<char>>) -> Seq<LineView> {
    deps.map_values(|dep: Seq<char>| unused_line(dep))
}

/// The lines about dependencies that are marked as ignored and yet used.
pub open spec fn ignored_used_lines(deps: Seq<Seq<char>>) -> Seq<LineView> {
    deps.map_values(|dep: Seq<char>| ignored_used_line(dep))
}

/// Whether there is anything to say about a package.
pub open spec fn has_findings(dep: CargoDepView) -> bool {
    match dep.deps {
        Some(deps) => deps.unused.len() > 0 || deps.ignored_used.len() > 0,
        None => false,
    }
}

/// The lines about a package with findings.
pub open spec fn record_lines(
    record: RecordView,
    paths: Seq<char>,
    with_header: bool,
) -> Seq<LineView> {
    let deps = record.dep.deps->Some_0;
    let header = if with_header {
        seq![header_line(paths)]
    } else {
        Seq::empty()
    };
    header + seq![package_line(deps.package_name, record.path)] + unused_lines(deps.unused)
        + ignored_used_lines(deps.ignored_used)
}

/// How far a report has come, and what it has found.
#[derive(Clone, Copy, Debug)]
pub struct Report {
    /// The place of the record to look at next.
    pub next: usize,
    /// Whether the line above all findings was given out.
    pub header_shown: bool,
    /// Whether unused dependencies were found and are still there.
    pub has_unused_dependencies: bool,
    /// Whether ignored dependencies were found to be used and are still marked.
    pub has_ignored_used: bool,
    /// Whether anything was found at all, fixed since or not.
    pub found_any: bool,
}

/// A package with findings.
pub struct Finding {
    /// The place of its record.
    pub index: usize,
    /// What a user is told about it.
    pub lines: Vec<Line>,
}

/// The place of the first record with findings from place `from` on, or the number of
/// records.
pub open spec fn next_finding(records: Seq<RecordView>, from: int) -> int
    decreases records.len() - from,
{
    if from < 0 || from >= records.len() || has_findings(records[from].dep) {
        from
    } else {
        next_finding(records, from + 1)
    }
}

/// The next finding is the first from there on.
pub proof fn lemma_next_finding(records: Seq<RecordView>, from: int)
    requires
        0 <= from <= records.len(),
    ensures
        from <= next_finding(records, from) <= records.len(),
        next_finding(records, from) < records.len() ==> has_findings(
            records[next_finding(records, from)].dep,
        ),
        forall|i: int|
            from <= i < next_finding(records, from) ==> !has_findings((#[trigger] records[i]).dep),
    decreases records.len() - from,
{
    if from < records.len() && !has_findings(records[from].dep) {
        lemma_next_finding(records, from + 1);
    }
}

/// The text `text`, as a line for the standard output.
fn out_line(text: String) -> (r: Line)
    ensures
        r@ == out(text@),
{
    Line { text, to_stderr: false }
}

/// The text of three strings, one behind the other.
fn concat3(a: &str, b: &str, c: &str) -> (r: String)
    ensures
        r@ == a@ + b@ + c@,
{
    let mut r: String = a.to_owned();
    r.append(b);
    r.append(c);
    r
}

/// The line about an analysis that failed.
pub fn analysis_error_line(path: &FilePath, error: &str) -> (r: Line)
    ensures
        r@ == err("error when handling "@ + lossy_text(path@) + ": "@ + error@),
{
    let shown: String = to_string_lossy(path.text().as_slice());
    let mut text: String = concat3("error when handling ", shown.as_str(), ": ");
    text.append(error);
    Line { text, to_stderr: true }
}

/// The lines about a package with findings.
fn lines_of(path: &FilePath, deps: &Deps, paths: &str, with_header: bool) -> (r: Vec<Line>)
    ensures
        forall|record: RecordView|
            record.path == path@ && record.dep.deps == Some(deps@) ==> line_views(r@)
                == #[trigger] record_lines(record, paths@, with_header),
{
    let mut r: Vec<Line> = Vec::new();
    if with_header {
        r.push(
            out_line(
                concat3(
                    "cargo-machete-nk found unused or ignored_used dependencies in ",
                    paths,
                    ":",
                ),
            ),
        );
    }
    let shown: String = to_string_lossy(path.text().as_slice());
    let mut text: String = concat3(deps.package_name.as_str(), " -- ", shown.as_str());
    text.append(":");
    r.push(out_line(text));
    let ghost top = line_views(r@);
    let ghost header = if with_header {
        seq![header_line(paths@)]
    } else {
        Seq::<LineView>::empty()
    };
    assert(top =~= header + seq![package_line(deps.package_name@, path@)]);
    let ghost unused = strings(deps.unused@);
    let mut i: usize = 0;
    assert(top + unused_lines(unused.take(0)) =~= top);
    while i < deps.unused.len()
        invariant
            i <= deps.unused@.len(),
            unused == strings(deps.unused@),
            line_views(r@) == top + unused_lines(unused.take(i as int)),
        decreases deps.unused@.len() - i,
    {
        let ghost so_far = r@;
        let mut line: String = "    ❗ ".to_owned();
        line.append(deps.unused[i].as_str());
        r.push(out_line(line));
        assert(line_views(r@) =~= line_views(so_far).push(unused_line(unused[i as int])));
        assert(unused_lines(unused.take(i + 1)) =~= unused_lines(unused.take(i as int)).push(
            unused_line(unused[i as int]),
        ));
        i += 1;
    }
    assert(unused.take(i as int) =~= unused);
    let ghost middle = line_views(r@);
    let ghost ignored = strings(deps.ignored_used@);
    let mut j: usize = 0;
    assert(middle + ignored_used_lines(ignored.take(0)) =~= middle);
    while j < deps.ignored_used.len()
        invariant
            j <= deps.ignored_used@.len(),
            ignored == strings(deps.ignored_used@),
            line_views(r@) == middle + ignored_used_lines(ignored.take(j as int)),
        decreases deps.ignored_used@.len() - j,
    {
        let ghost so_far = r@;
        let line: String = concat3(
            "    ⚠️  ",
            deps.ignored_used[j].as_str(),
            " was marked as ignored, but is actually used!",
        );
        r.push(Line { text: line, to_stderr: true });
        assert(line_views(r@) =~= line_views(so_far).push(
            ignored_used_line(ignored[j as int]),
        ));
        assert(ignored_used_lines(ignored.take(j + 1)) =~= ignored_used_lines(
            ignored.take(j as int),
        ).push(ignored_used_line(ignored[j as int])));
        j += 1;
    }
    assert(ignored.take(j as int) =~= ignored);
    r
}

impl Report {
    /// A report that has looked at nothing yet.
    pub fn new() -> (r: Report)
        ensures
            r == (Report {
                next: 0,
                header_shown: false,
                has_unused_dependencies: false,
                has_ignored_used: false,
                found_any: false,
            }),
    {
        Report {
            next: 0,
            header_shown: false,
            has_unused_dependencies: false,
            has_ignored_used: false,
            found_any: false,
        }
    }

    /// The report once it has told about the record at place `index`.
    pub open spec fn after(self, index: int, dep: CargoDepView) -> Report {
        Report {
            next: (index + 1) as usize,
            header_shown: true,
            has_unused_dependencies: self.has_unused_dependencies
                || dep.deps->Some_0.unused.len() > 0,
            has_ignored_used: self.has_ignored_used || dep.deps->Some_0.ignored_used.len() > 0,
            found_any: self.found_any || has_findings(dep),
        }
    }

    /// The report once the package that was told about last was fixed: no unused dependency is
    /// left. That something was found stays noted.
    pub open spec fn once_fixed(self) -> Report {
        Report { has_unused_dependencies: false, ..self }
    }

    /// Goes on to the next package with findings, and says what a user is told about it.
    /// `paths` shows the paths that were searched.
    pub fn next_finding(&mut self, db: &Db, paths: &str) -> (r: Option<Finding>)
        requires
            old(self).next <= db.listing().len(),
        ensures
            ({
                let records = db.listing();
                let index = next_finding(records, old(self).next as int);
                match r {
                    Some(finding) => {
                        &&& finding.index == index < records.len()
                        &&& has_findings(records[index].dep)
                        &&& line_views(finding.lines@) == record_lines(
                            records[index],
                            paths@,
                            !old(self).header_shown,
                        )
                        &&& *final(self) == old(self).after(index, records[index].dep)
                    },
                    None => {
                        &&& index == records.len()
                        &&& *final(self) == (Report { next: index as usize, ..*old(self) })
                    },
                }
            }),
    {
        let ghost records = db.listing();
        let n: usize = db.len();
        proof {
            lemma_next_finding(records, self.next as int);
        }
        while self.next < n
            invariant
                records == db.listing(),
                n == records.len(),
                self.next <= n,
                *self == (Report { next: self.next, ..*old(self) }),
                next_finding(records, self.next as int) == next_finding(
                    records,
                    old(self).next as int,
                ),
            decreases n - self.next,
        {
            let index: usize = self.next;
            self.next = index + 1;
            match &db.dep_at(index).deps {
                Some(deps) => {
                    assert(records[index as int].dep.deps == Some(deps@));
                    if deps.unused.len() > 0 || deps.ignored_used.len() > 0 {
                        let with_header: bool = !self.header_shown;
                        let lines: Vec<Line> = lines_of(
                            db.path_at(index),
                            deps,
                            paths,
                            with_header,
                        );
                        self.header_shown = true;
                        self.found_any = true;
                        if deps.unused.len() > 0 {
                            self.has_unused_dependencies = true;
                        }
                        if deps.ignored_used.len() > 0 {
                            self.has_ignored_used = true;
                        }
                        assert(line_views(lines@) == record_lines(
                            records[index as int],
                            paths@,
                            with_header,
                        ));
                        return Some(Finding { index, lines });
                    }
                },
                None => {},
            }
        }
        None
    }

    /// Notes that the package that was told about last was fixed: no unused dependency is left.
    pub fn note_fixed(&mut self)
        ensures
            *final(self) == old(self).once_fixed(),
    {
        self.has_unused_dependencies = false;
    }

    /// Whether anything was found: the result of the run.
    pub fn found(&self) -> (r: bool)
        ensures
            r == self.found_any,
    {
        self.found_any
    }

    /// Whether what is still there counts as found.
    pub open spec fn consistent(self) -> bool {
        self.has_unused_dependencies || self.has_ignored_used ==> self.found_any
    }
}

/// Whether one of the first `n` records has findings.
pub open spec fn any_findings(records: Seq<RecordView>, n: int) -> bool {
    exists|i: int| 0 <= i < n && has_findings((#[trigger] records[i]).dep)
}

/// Whether unused dependencies were found in a package.
pub open spec fn has_unused(dep: CargoDepView) -> bool {
    dep.deps is Some && dep.deps->Some_0.unused.len() > 0
}

/// Whether ignored dependencies of a package were found to be used.
pub open spec fn has_ignored_used(dep: CargoDepView) -> bool {
    dep.deps is Some && dep.deps->Some_0.ignored_used.len() > 0
}

/// Whether unused dependencies were found in one of the first `n` packages.
pub open spec fn any_unused(records: Seq<RecordView>, n: int) -> bool {
    exists|i: int| 0 <= i < n && has_unused((#[trigger] records[i]).dep)
}

/// Whether ignored dependencies of one of the first `n` packages were found to be used.
pub open spec fn any_ignored_used(records: Seq<RecordView>, n: int) -> bool {
    exists|i: int| 0 <= i < n && has_ignored_used((#[trigger] records[i]).dep)
}

/// What a user is told about the first `n` packages.
pub open spec fn report_lines(records: Seq<RecordView>, paths: Seq<char>, n: int) -> Seq<LineView>
    decreases n,
{
    if n <= 0 {
        Seq::empty()
    } else if has_findings(records[n - 1].dep) {
        report_lines(records, paths, n - 1) + record_lines(
            records[n - 1],
            paths,
            !any_findings(records, n - 1),
        )
    } else {
        report_lines(records, paths, n - 1)
    }
}

/// Packages without findings add nothing to a report.
proof fn lemma_quiet(records: Seq<RecordView>, paths: Seq<char>, from: int, to: int)
    requires
        0 <= from <= to <= records.len(),
        forall|i: int| from <= i < to ==> !has_findings((#[trigger] records[i]).dep),
    ensures
        report_lines(records, paths, to) == report_lines(records, paths, from),
        any_findings(records, to) == any_findings(records, from),
        any_unused(records, to) == any_unused(records, from),
        any_ignored_used(records, to) == any_ignored_used(records, from),
    decreases to - from,
{
    if from < to {
        lemma_quiet(records, paths, from, to - 1);
        assert(!has_findings(records[to - 1].dep));
    }
}

/// What one more package adds to a report.
proof fn lemma_one_more(records: Seq<RecordView>, n: int)
    requires
        0 <= n < records.len(),
    ensures
        any_findings(records, n + 1) == (any_findings(records, n) || has_findings(records[n].dep)),
        any_unused(records, n + 1) == (any_unused(records, n) || has_unused(records[n].dep)),
        any_ignored_used(records, n + 1) == (any_ignored_used(records, n) || has_ignored_used(
            records[n].dep,
        )),
{
    if any_findings(records, n) {
        let i = choose|i: int| 0 <= i < n && has_findings((#[trigger] records[i]).dep);
        assert(i < n + 1);
    }
    if any_unused(records, n) {
        let i = choose|i: int| 0 <= i < n && has_unused((#[trigger] records[i]).dep);
        assert(i < n + 1);
    }
    if any_ignored_used(records, n) {
        let i = choose|i: int| 0 <= i < n && has_ignored_used((#[trigger] records[i]).dep);
        assert(i < n + 1);
    }
}

/// The report on all packages, when nothing is to be fixed: what a user is told, and what
/// was found. `paths` shows the paths that were searched.
pub fn report(db: &Db, paths: &str) -> (r: (Vec<Line>, Report))
    ensures
        line_views(r.0@) == report_lines(db.listing(), paths@, db.listing().len() as int),
        r.1.has_unused_dependencies == any_unused(db.listing(), db.listing().len() as int),
        r.1.has_ignored_used == any_ignored_used(db.listing(), db.listing().len() as int),
        r.1.found_any == any_findings(db.listing(), db.listing().len() as int),
{
    let ghost records = db.listing();
    let n: usize = db.len();
    let mut state: Report = Report::new();
    let mut lines: Vec<Line> = Vec::new();
    assert(line_views(lines@) =~= report_lines(records, paths@, 0));
    loop
        invariant
            records == db.listing(),
            state.next <= n == records.len(),
            line_views(lines@) == report_lines(records, paths@, state.next as int),
            state.header_shown == any_findings(records, state.next as int),
            state.has_unused_dependencies == any_unused(records, state.next as int),
            state.has_ignored_used == any_ignored_used(records, state.next as int),
            state.found_any == any_findings(records, state.next as int),
        ensures
            state.next == records.len(),
        decreases records.len() - state.next,
    {
        let ghost from = state.next as int;
        let ghost index = next_finding(records, from);
        proof {
            lemma_next_finding(records, from);
            lemma_quiet(records, paths@, from, index);
            if index < records.len() {
                lemma_one_more(records, index);
            }
        }
        match state.next_finding(db, paths) {
            Some(finding) => {
                let ghost so_far = lines@;
                let mut more: Vec<Line> = finding.lines;
                let ghost added = more@;
                lines.append(&mut more);
                assert(line_views(lines@) =~= line_views(so_far) + line_views(added));
            },
            None => {
                break;
            },
        }
    }
    (lines, state)
}

/// The line that explains what to do about an unused dependency that is used after all.
pub open spec fn hint_line() -> LineView {
    out(
        "\nIf you believe cargo-machete-nk has detected an unused dependency incorrectly,\nyou can add the dependency to the list of dependencies to ignore in the\n`[package.metadata.cargo-machete]` section of the appropriate Cargo.toml.\nFor example:\n\n[package.metadata.cargo-machete]\nignored = [\"prost\"]"@,
    )
}

/// The line that explains what else to try.
pub open spec fn metadata_hint_line() -> LineView {
    out(
        "\nYou can also try running it with the `--with-metadata` flag for better accuracy,\nthough this may modify your Cargo.lock files."@,
    )
}

/// What a user is told at the end of a run.
pub open spec fn closing(report: Report, fix: bool, with_metadata: bool) -> Seq<LineView> {
    if report.has_unused_dependencies {
        if with_metadata {
            seq![hint_line(), out(""@)]
        } else {
            seq![hint_line(), metadata_hint_line(), out(""@)]
        }
    } else if report.has_ignored_used {
        Seq::empty()
    } else if fix {
        seq![out("All unused/ignored_used dependencies has been fixed!"@)]
    } else {
        seq![
            out(
                "cargo-machete-nk didn't find any unused or ignored used dependencies. Good job!"@,
            ),
        ]
    }
}

/// What a user is told at the end of a run.
pub fn closing_lines(report: &Report, fix: bool, with_metadata: bool) -> (r: Vec<Line>)
    ensures
        line_views(r@) == closing(*report, fix, with_metadata),
{
    let mut r: Vec<Line> = Vec::new();
    if report.has_unused_dependencies {
        r.push(
            out_line(
                "\nIf you believe cargo-machete-nk has detected an unused dependency incorrectly,\nyou can add the dependency to the list of dependencies to ignore in the\n`[package.metadata.cargo-machete]` section of the appropriate Cargo.toml.\nFor example:\n\n[package.metadata.cargo-machete]\nignored = [\"prost\"]".to_owned(),
            ),
        );
        if !with_metadata {
            r.push(
                out_line(
                    "\nYou can also try running it with the `--with-metadata` flag for better accuracy,\nthough this may modify your Cargo.lock files.".to_owned(),
                ),
            );
        }
        r.push(out_line("".to_owned()));
    }
    if !(report.has_unused_dependencies || report.has_ignored_used) {
        if fix {
            r.push(out_line("All unused/ignored_used dependencies has been fixed!".to_owned()));
        } else {
            r.push(
                out_line(
                    "cargo-machete-nk didn't find any unused or ignored used dependencies. Good job!".to_owned(),
                ),
            );
        }
    }
    assert(line_views(r@) =~= closing(*report, fix, with_metadata));
    r
}

/// The exit code of the program: 0 without findings, 1 with findings, 2 on an error.
pub open spec fn exit_code_of<E>(result: Result<bool, E>) -> u8 {
    match result {
        Ok(false) => 0,
        Ok(true) => 1,
        Err(_) => 2,
    }
}

/// The exit code of the program. `result` says whether there are findings, or is an error.
pub fn exit_code<E>(result: &Result<bool, E>) -> (r: u8)
    ensures
        r == exit_code_of(*result),
{
    match result {
        Ok(found) => if *found {
            1
        } else {
            0
        },
        Err(_) => 2,
    }
}

/// A package has findings exactly if it has unused dependencies or used ignored ones.
pub proof fn law_findings(records: Seq<RecordView>, n: int)
    requires
        0 <= n <= records.len(),
    ensures
        any_findings(records, n) == (any_unused(records, n) || any_ignored_used(records, n)),
    decreases n,
{
    if n > 0 {
        law_findings(records, n - 1);
        lemma_one_more(records, n - 1);
    } else {
        assert(!any_unused(records, n) && !any_ignored_used(records, n));
    }
}

/// Nothing is told about packages, up to the end of the run, exactly if there are no findings.
pub proof fn law_quiet_without_findings(records: Seq<RecordView>, paths: Seq<char>, n: int)
    requires
        0 <= n <= records.len(),
    ensures
        report_lines(records, paths, n).len() == 0 <==> !any_findings(records, n),
    decreases n,
{
    if n > 0 {
        law_quiet_without_findings(records, paths, n - 1);
        lemma_one_more(records, n - 1);
    }
}

/// The findings stand under one line that says where they were found.
pub proof fn law_header_comes_first(records: Seq<RecordView>, paths: Seq<char>, n: int)
    requires
        0 <= n <= records.len(),
        any_findings(records, n),
    ensures
        report_lines(records, paths, n).len() > 0,
        report_lines(records, paths, n)[0] == header_line(paths),
    decreases n,
{
    lemma_one_more(records, n - 1);
    law_quiet_without_findings(records, paths, n - 1);
    if any_findings(records, n - 1) {
        law_header_comes_first(records, paths, n - 1);
    } else {
        assert(report_lines(records, paths, n - 1) =~= Seq::<LineView>::empty());
        assert(record_lines(records[n - 1], paths, true)[0] == header_line(paths));
    }
}

/// Whatever a report goes through, what is still there counts as found.
pub proof fn law_what_is_there_was_found(report: Report, index: int, dep: CargoDepView)
    requires
        report.consistent(),
        has_findings(dep),
    ensures
        report.after(index, dep).consistent(),
        report.after(index, dep).found_any,
        report.once_fixed().consistent(),
        report.once_fixed().found_any == report.found_any,
{
}

/// The program exits with 1 exactly if anything was found, fixed since or not, and with 2 on
/// errors only. Where it exits with 0, the user is congratulated, or told that all is fixed;
/// and a run that fixes nothing congratulates only then.
pub proof fn law_exit_code(report: Report, fix: bool, with_metadata: bool)
    requires
        report.consistent(),
    ensures
        ({
            let code = exit_code_of(Ok::<bool, ()>(report.found_any));
            let good_news = seq![
                out(
                    if fix {
                        "All unused/ignored_used dependencies has been fixed!"@
                    } else {
                        "cargo-machete-nk didn't find any unused or ignored used dependencies. Good job!"@
                    },
                ),
            ];
            &&& code == if report.found_any {
                1u8
            } else {
                0u8
            }
            &&& code == 0 ==> closing(report, fix, with_metadata) == good_news
            &&& code == 1 && (report.has_unused_dependencies || report.has_ignored_used)
                ==> closing(report, fix, with_metadata) != good_news
        }),
{
    let lines = closing(report, fix, with_metadata);
    if report.has_unused_dependencies {
        assert(lines.len() >= 2);
    } else if report.has_ignored_used {
        assert(lines.len() == 0);
    }
}

/// The lines of a list say what the lines say, in order and all of them.
pub proof fn law_line_views(lines: Seq<Line>)
    ensures
        line_views(lines).len() == lines.len(),
        forall|i: int|
            0 <= i < lines.len() ==> (#[trigger] line_views(lines)[i]).text == lines[i].text@
                && line_views(lines)[i].to_stderr == lines[i].to_stderr,
{
}

/// There is something to say about a package exactly if it was analysed and an unused
/// dependency, or an ignored one that is used, was found. A report that tells about it notes
/// which of the two it was, and forgets nothing.
pub proof fn law_findings_of_a_package(dep: CargoDepView, report: Report, index: int)
    ensures
        dep.deps is None ==> !has_findings(dep) && !has_unused(dep) && !has_ignored_used(dep),
        dep.deps matches Some(deps) ==> {
            &&& has_unused(dep) <==> deps.unused.len() > 0
            &&& has_ignored_used(dep) <==> deps.ignored_used.len() > 0
            &&& has_findings(dep) <==> deps.unused.len() > 0 || deps.ignored_used.len() > 0
        },
        dep.deps is Some && 0 <= index < usize::MAX ==> {
            let after = report.after(index, dep);
            let deps = dep.deps->Some_0;
            &&& after.next == index + 1
            &&& after.header_shown
            &&& after.has_unused_dependencies <==> report.has_unused_dependencies
                || deps.unused.len() > 0
            &&& after.has_ignored_used <==> report.has_ignored_used || deps.ignored_used.len() > 0
            &&& after.found_any <==> report.found_any || deps.unused.len() > 0
                || deps.ignored_used.len() > 0
        },
        report.once_fixed().next == report.next,
        report.once_fixed().header_shown == report.header_shown,
        !report.once_fixed().has_unused_dependencies,
        report.once_fixed().has_ignored_used == report.has_ignored_used,
        report.once_fixed().found_any == report.found_any,
{
}

/// What is found in some packages is found in one of them.
pub proof fn law_findings_of_some_packages(records: Seq<RecordView>, n: int)
    requires
        0 <= n <= records.len(),
    ensures
        any_unused(records, n) <==> exists|i: int|
            0 <= i < n && (#[trigger] records[i]).dep.deps is Some
                && records[i].dep.deps->Some_0.unused.len() > 0,
        any_ignored_used(records, n) <==> exists|i: int|
            0 <= i < n && (#[trigger] records[i]).dep.deps is Some
                && records[i].dep.deps->Some_0.ignored_used.len() > 0,
{
    if any_unused(records, n) {
        let i = choose|i: int| 0 <= i < n && has_unused((#[trigger] records[i]).dep);
        assert(records[i].dep.deps is Some);
    }
    if any_ignored_used(records, n) {
        let i = choose|i: int| 0 <= i < n && has_ignored_used((#[trigger] records[i]).dep);
        assert(records[i].dep.deps is Some);
    }
    assert forall|i: int|
        0 <= i < n && (#[trigger] records[i]).dep.deps is Some
            && records[i].dep.deps->Some_0.unused.len() > 0 implies any_unused(records, n) by {
        assert(has_unused(records[i].dep));
    }
    assert forall|i: int|
        0 <= i < n && (#[trigger] records[i]).dep.deps is Some
            && records[i].dep.deps->Some_0.ignored_used.len() > 0 implies any_ignored_used(
        records,
        n,
    ) by {
        assert(has_ignored_used(records[i].dep));
    }
}

/// The next finding is at the first place, from the given one on, of a package that was
/// analysed and of which anything was found.
pub proof fn law_next_finding_is_the_first(records: Seq<RecordView>, from: int)
    requires
        0 <= from <= records.len(),
    ensures
        ({
            let index = next_finding(records, from);
            &&& from <= index <= records.len()
            &&& index < records.len() ==> records[index].dep.deps is Some && (
            records[index].dep.deps->Some_0.unused.len() > 0
                || records[index].dep.deps->Some_0.ignored_used.len() > 0)
            &&& forall|i: int|
                from <= i < index && (#[trigger] records[i]).dep.deps is Some
                    ==> records[i].dep.deps->Some_0.unused.len() == 0
                    && records[i].dep.deps->Some_0.ignored_used.len() == 0
        }),
{
    lemma_next_finding(records, from);
    assert forall|i: int|
        from <= i < next_finding(records, from) && (#[trigger] records[i]).dep.deps is Some implies
    records[i].dep.deps->Some_0.unused.len() == 0
        && records[i].dep.deps->Some_0.ignored_used.len() == 0 by {
        assert(!has_findings(records[i].dep));
    }
}

/// Whether the lines from place `at` on are those about a package: one with its name and
/// manifest, one for each unused dependency, and one on the error output for each ignored
/// dependency that is used.
pub open spec fn tells_about(lines: Seq<LineView>, at: int, record: RecordView) -> bool {
    let deps = record.dep.deps->Some_0;
    &&& 0 <= at
    &&& at + 1 + deps.unused.len() + deps.ignored_used.len() <= lines.len()
    &&& !lines[at].to_stderr
    &&& lines[at].text == deps.package_name + " -- "@ + lossy_text(record.path) + ":"@
    &&& forall|k: int|
        0 <= k < deps.unused.len() ==> {
            &&& !(#[trigger] lines[at + 1 + k]).to_stderr
            &&& lines[at + 1 + k].text == "    ❗ "@ + deps.unused[k]
        }
    &&& forall|k: int|
        0 <= k < deps.ignored_used.len() ==> {
            let line = #[trigger] lines[at + 1 + deps.unused.len() + k];
            &&& line.to_stderr
            &&& line.text == "    ⚠️  "@ + deps.ignored_used[k]
                + " was marked as ignored, but is actually used!"@
        }
}

/// The lines about a package, with the line above all findings if asked for, are one for each
/// finding and one above them, and nothing else.
pub proof fn law_lines_about_a_package(record: RecordView, paths: Seq<char>, with_header: bool)
    requires
        record.dep.deps is Some,
    ensures
        ({
            let deps = record.dep.deps->Some_0;
            let lines = record_lines(record, paths, with_header);
            let top = if with_header {
                1int
            } else {
                0int
            };
            &&& lines.len() == top + 1 + deps.unused.len() + deps.ignored_used.len()
            &&& with_header ==> !lines[0].to_stderr && lines[0].text
                == "cargo-machete-nk found unused or ignored_used dependencies in "@ + paths + ":"@
            &&& tells_about(lines, top, record)
        }),
{
    let deps = record.dep.deps->Some_0;
    let lines = record_lines(record, paths, with_header);
    let top = if with_header {
        1int
    } else {
        0int
    };
    assert forall|k: int| 0 <= k < deps.unused.len() implies {
        &&& !(#[trigger] lines[top + 1 + k]).to_stderr
        &&& lines[top + 1 + k].text == "    ❗ "@ + deps.unused[k]
    } by {
        assert(lines[top + 1 + k] == unused_lines(deps.unused)[k]);
    }
    assert forall|k: int| 0 <= k < deps.ignored_used.len() implies {
        let line = #[trigger] lines[top + 1 + deps.unused.len() + k];
        &&& line.to_stderr
        &&& line.text == "    ⚠️  "@ + deps.ignored_used[k]
            + " was marked as ignored, but is actually used!"@
    } by {
        assert(lines[top + 1 + deps.unused.len() + k] == ignored_used_lines(
            deps.ignored_used,
        )[k]);
    }
}

/// How many lines a report has about a package: none without findings, else one for each and
/// one above them.
pub open spec fn line_count(record: RecordView) -> int {
    match record.dep.deps {
        Some(deps) => if deps.unused.len() + deps.ignored_used.len() == 0 {
            0
        } else {
            1int + deps.unused.len() + deps.ignored_used.len()
        },
        None => 0,
    }
}

/// How many lines a report has about the first `n` packages.
pub open spec fn lines_up_to(records: Seq<RecordView>, n: int) -> int
    decreases n,
{
    if n <= 0 {
        0
    } else {
        lines_up_to(records, n - 1) + line_count(records[n - 1])
    }
}

proof fn lemma_lines_grow(records: Seq<RecordView>, i: int, n: int)
    requires
        0 <= i <= n,
    ensures
        0 <= lines_up_to(records, i) <= lines_up_to(records, n),
        i < n ==> lines_up_to(records, i) + line_count(records[i]) <= lines_up_to(records, n),
    decreases n,
{
    if i < n {
        lemma_lines_grow(records, i, n - 1);
    } else if n > 0 {
        lemma_lines_grow(records, n - 1, n - 1);
    }
}

/// A report tells about every package with findings and about nothing else: under the line
/// above all findings, which is there if there are any, stand the lines about each package, in
/// the order of the packages, each behind all lines about those before it.
pub proof fn law_report_tells_everything(records: Seq<RecordView>, paths: Seq<char>, n: int)
    requires
        0 <= n <= records.len(),
    ensures
        ({
            let lines = report_lines(records, paths, n);
            let count = lines_up_to(records, n);
            &&& lines.len() == count + if count > 0 {
                1int
            } else {
                0int
            }
            &&& count > 0 ==> !lines[0].to_stderr && lines[0].text
                == "cargo-machete-nk found unused or ignored_used dependencies in "@ + paths + ":"@
            &&& forall|i: int|
                0 <= i < n && line_count(#[trigger] records[i]) > 0 ==> tells_about(
                    lines,
                    1 + lines_up_to(records, i),
                    records[i],
                )
            &&& any_findings(records, n) <==> count > 0
        }),
    decreases n,
{
    if n > 0 {
        law_report_tells_everything(records, paths, n - 1);
        lemma_one_more(records, n - 1);
        lemma_lines_grow(records, n - 1, n);
        lemma_lines_grow(records, n - 1, n - 1);
        let record = records[n - 1];
        let before = report_lines(records, paths, n - 1);
        let lines = report_lines(records, paths, n);
        let start = lines_up_to(records, n - 1);
        assert(has_findings(record.dep) <==> line_count(record) > 0);
        if has_findings(record.dep) {
            let with_header = !any_findings(records, n - 1);
            let more = record_lines(record, paths, with_header);
            law_lines_about_a_package(record, paths, with_header);
            assert(lines == before + more);
            let top = if with_header {
                1int
            } else {
                0int
            };
            assert(before.len() + top == 1 + start);
            lemma_tells_behind(before, more, top, record);
        }
        assert forall|i: int| 0 <= i < n && line_count(#[trigger] records[i]) > 0 implies tells_about(
            lines,
            1 + lines_up_to(records, i),
            records[i],
        ) by {
            if i < n - 1 {
                assert(tells_about(before, 1 + lines_up_to(records, i), records[i]));
                if has_findings(record.dep) {
                    let with_header = !any_findings(records, n - 1);
                    lemma_tells_before(
                        before,
                        record_lines(record, paths, with_header),
                        1 + lines_up_to(records, i),
                        records[i],
                    );
                }
            }
        }
        if start > 0 && has_findings(record.dep) {
            assert(lines[0] == before[0]);
        }
    } else {
        assert(!any_findings(records, n));
    }
}

proof fn lemma_tells_behind(
    before: Seq<LineView>,
    more: Seq<LineView>,
    at: int,
    record: RecordView,
)
    requires
        tells_about(more, at, record),
    ensures
        tells_about(before + more, before.len() + at, record),
{
    let all = before + more;
    let deps = record.dep.deps->Some_0;
    let start = before.len() + at;
    assert(all[start] == more[at]);
    assert forall|k: int| 0 <= k < deps.unused.len() implies {
        &&& !(#[trigger] all[start + 1 + k]).to_stderr
        &&& all[start + 1 + k].text == "    ❗ "@ + deps.unused[k]
    } by {
        assert(all[start + 1 + k] == more[at + 1 + k]);
    }
    assert forall|k: int| 0 <= k < deps.ignored_used.len() implies {
        let line = #[trigger] all[start + 1 + deps.unused.len() + k];
        &&& line.to_stderr
        &&& line.text == "    ⚠️  "@ + deps.ignored_used[k]
            + " was marked as ignored, but is actually used!"@
    } by {
        assert(all[start + 1 + deps.unused.len() + k] == more[at + 1 + deps.unused.len() + k]);
    }
}

proof fn lemma_tells_before(
    before: Seq<LineView>,
    more: Seq<LineView>,
    at: int,
    record: RecordView,
)
    requires
        tells_about(before, at, record),
    ensures
        tells_about(before + more, at, record),
{
    let all = before + more;
    let deps = record.dep.deps->Some_0;
    assert(all[at] == before[at]);
    assert forall|k: int| 0 <= k < deps.unused.len() implies {
        &&& !(#[trigger] all[at + 1 + k]).to_stderr
        &&& all[at + 1 + k].text == "    ❗ "@ + deps.unused[k]
    } by {
        assert(all[at + 1 + k] == before[at + 1 + k]);
    }
    assert forall|k: int| 0 <= k < deps.ignored_used.len() implies {
        let line = #[trigger] all[at + 1 + deps.unused.len() + k];
        &&& line.to_stderr
        &&& line.text == "    ⚠️  "@ + deps.ignored_used[k]
            + " was marked as ignored, but is actually used!"@
    } by {
        assert(all[at + 1 + deps.unused.len() + k] == before[at + 1 + deps.unused.len() + k]);
    }
}

/// What a user is told at the end: with unused dependencies left, a hint, another one unless
/// metadata was used, and an empty line, whatever else holds; with only used ignored ones left,
/// nothing; and else one line, which depends on whether packages were to be fixed.
pub proof fn law_closing_words(report: Report, fix: bool, with_metadata: bool)
    ensures
        ({
            let lines = closing(report, fix, with_metadata);
            let n = lines.len() as int;
            &&& forall|i: int| 0 <= i < n ==> !(#[trigger] lines[i]).to_stderr
            &&& report.has_unused_dependencies ==> {
                &&& n == if with_metadata {
                    2int
                } else {
                    3int
                }
                &&& lines[0].text
                    == "\nIf you believe cargo-machete-nk has detected an unused dependency incorrectly,\nyou can add the dependency to the list of dependencies to ignore in the\n`[package.metadata.cargo-machete]` section of the appropriate Cargo.toml.\nFor example:\n\n[package.metadata.cargo-machete]\nignored = [\"prost\"]"@
                &&& !with_metadata ==> lines[1].text
                    == "\nYou can also try running it with the `--with-metadata` flag for better accuracy,\nthough this may modify your Cargo.lock files."@
                &&& lines[n - 1].text == ""@
            }
            &&& !report.has_unused_dependencies && report.has_ignored_used ==> n == 0
            &&& !report.has_unused_dependencies && !report.has_ignored_used ==> {
                &&& n == 1
                &&& fix ==> lines[0].text == "All unused/ignored_used dependencies has been fixed!"@
                &&& !fix ==> lines[0].text
                    == "cargo-machete-nk didn't find any unused or ignored used dependencies. Good job!"@
            }
        }),
{
}

/// The exit code tells the three outcomes of a run apart.
pub proof fn law_exit_codes_tell_apart<E>(result: Result<bool, E>)
    ensures
        exit_code_of(result) == 2 <==> result is Err,
        exit_code_of(result) == 1 <==> result is Ok && result->Ok_0,
        exit_code_of(result) == 0 <==> result is Ok && !result->Ok_0,
{
}

} // verus!
