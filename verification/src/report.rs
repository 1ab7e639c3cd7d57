//! What a pass over the shared folder comes to, given how its writes went.
//!
//! The pass says what to write; these functions take what became of each write, `None` where it was
//! done and the reason where it was not, and enter it in the report. What could not be published is
//! not agreed: then nothing is to be remembered, and the next pass tries again.

use vstd::prelude::*;

use crate::list;
use crate::records::StoredValueV;
use crate::requests::{bare_name, bare_setting};
use crate::shared_pass::{Import, ImportV, Imports, SettingsPass};
use crate::shared_store::SharedSyncReport;

verus! {

#[verifier::ext_equal]
pub struct ReportV {
    pub settings_published: int,
    pub settings_applied: int,
    pub decisions_imported: int,
    pub decisions_published: int,
    pub problems: Seq<Seq<char>>,
}

impl DeepView for SharedSyncReport {
    type V = ReportV;

    open spec fn deep_view(&self) -> ReportV {
        ReportV {
            settings_published: self.settings_published as int,
            settings_applied: self.settings_applied as int,
            decisions_imported: self.decisions_imported as int,
            decisions_published: self.decisions_published as int,
            problems: self.problems.deep_view(),
        }
    }
}

/// A report once the first `n` values were written here, or not.
pub open spec fn settings_entered(
    report: ReportV,
    writes: Seq<StoredValueV>,
    failures: Seq<Option<Seq<char>>>,
    n: int,
) -> ReportV
    decreases n,
{
    if n <= 0 {
        report
    } else {
        let rest = settings_entered(report, writes, failures, n - 1);
        match failures[n - 1] {
            None => ReportV { settings_applied: rest.settings_applied + 1, ..rest },
            Some(why) => with_problem(
                rest,
                "Could not apply setting "@ + bare_name(writes[n - 1].key) + ": "@ + why,
            ),
        }
    }
}

/// A report with one more problem.
pub open spec fn with_problem(report: ReportV, problem: Seq<char>) -> ReportV {
    ReportV { problems: report.problems.push(problem), ..report }
}

/// A report once the first `n` records were stored, or not. One that was held before is no news.
pub open spec fn imports_entered(
    report: ReportV,
    records: Seq<ImportV>,
    failures: Seq<Option<Seq<char>>>,
    n: int,
) -> ReportV
    decreases n,
{
    if n <= 0 {
        report
    } else {
        let rest = imports_entered(report, records, failures, n - 1);
        match failures[n - 1] {
            None => if records[n - 1].fresh {
                ReportV { decisions_imported: rest.decisions_imported + 1, ..rest }
            } else {
                rest
            },
            Some(why) => with_problem(
                rest,
                "could not store "@ + records[n - 1].record.id + ": "@ + why,
            ),
        }
    }
}

/// Enter how a pass over the settings went: what became of each value to write here, and of
/// appending the lines to this device's own file. Whether what is agreed is to be remembered.
pub fn enter_settings(
    report: &mut SharedSyncReport,
    pass: &SettingsPass,
    failures: &Vec<Option<String>>,
    append_failure: Option<String>,
) -> (remember: bool)
    requires
        failures.len() == pass.writes.len(),
        old(report).settings_applied + pass.writes.len() <= usize::MAX,
        old(report).settings_published + pass.lines.len() <= usize::MAX,
    ensures
        remember == (append_failure is None),
        ({
            let written = settings_entered(
                old(report).deep_view(),
                pass.writes.deep_view(),
                failures.deep_view(),
                failures.len() as int,
            );
            final(report).deep_view() == match append_failure {
                None => ReportV {
                    settings_published: written.settings_published + pass.lines.len(),
                    ..written
                },
                Some(why) => with_problem(written, why@),
            }
        }),
{
    let ghost before = report.deep_view();
    let ghost writes = pass.writes.deep_view();
    let ghost fv = failures.deep_view();
    let mut i: usize = 0;
    while i < failures.len()
        invariant
            i <= failures.len(),
            failures.len() == pass.writes.len(),
            fv == failures.deep_view(),
            writes == pass.writes.deep_view(),
            report.settings_applied <= before.settings_applied + i,
            report.settings_published == before.settings_published,
            before.settings_applied + pass.writes.len() <= usize::MAX,
            report.deep_view() == settings_entered(before, writes, fv, i as int),
        decreases failures.len() - i,
    {
        assert(fv[i as int] == failures@[i as int].deep_view());
        assert(writes[i as int] == pass.writes@[i as int].deep_view());
        let ghost so_far = report.deep_view();
        match &failures[i] {
            None => {
                report.settings_applied = report.settings_applied + 1;
                assert(report.deep_view() =~= (ReportV {
                    settings_applied: so_far.settings_applied + 1,
                    ..so_far
                }));
            },
            Some(why) => {
                let mut m = "Could not apply setting ".to_owned();
                m.append(bare_setting(pass.writes[i].key.as_str()).as_str());
                m.append(": ");
                m.append(why.as_str());
                list::push(&mut report.problems, m);
                assert(report.deep_view() =~= with_problem(so_far, m@));
            },
        }
        i = i + 1;
    }
    let ghost written = report.deep_view();
    match append_failure {
        None => {
            report.settings_published = report.settings_published + pass.lines.len();
            assert(report.deep_view() =~= (ReportV {
                settings_published: written.settings_published + pass.lines.len(),
                ..written
            }));
            true
        },
        Some(why) => {
            list::push(&mut report.problems, why);
            assert(report.deep_view() =~= with_problem(written, why@));
            false
        },
    }
}

/// Enter what became of remembering what is agreed.
pub fn enter_remembered(report: &mut SharedSyncReport, failure: Option<&str>)
    ensures
        final(report).deep_view() == match failure {
            None => old(report).deep_view(),
            Some(why) => with_problem(
                old(report).deep_view(),
                "Could not remember the settings state: "@ + why@,
            ),
        },
{
    let ghost before = report.deep_view();
    if let Some(why) = failure {
        let mut m = "Could not remember the settings state: ".to_owned();
        m.append(why);
        list::push(&mut report.problems, m);
        assert(report.deep_view() =~= with_problem(before, m@));
    }
}

/// Enter what was wrong with the lines of peers, and what became of storing each of their records.
pub fn enter_imports(
    report: &mut SharedSyncReport,
    imports: &Imports,
    failures: &Vec<Option<String>>,
)
    requires
        failures.len() == imports.records.len(),
        old(report).decisions_imported + imports.records.len() <= usize::MAX,
    ensures
        final(report).deep_view() == imports_entered(
            (ReportV {
                problems: old(report).deep_view().problems + imports.problems.deep_view(),
                ..old(report).deep_view()
            }),
            imports.records.deep_view(),
            failures.deep_view(),
            failures.len() as int,
        ),
{
    let ghost given = report.deep_view();
    let ghost wrong = imports.problems.deep_view();
    assert(wrong.len() == imports.problems.len());
    assert(given.problems + wrong.take(0) =~= given.problems);
    let mut k: usize = 0;
    while k < imports.problems.len()
        invariant
            k <= imports.problems.len(),
            wrong == imports.problems.deep_view(),
            wrong.len() == imports.problems.len(),
            report.deep_view() == (ReportV {
                problems: given.problems + wrong.take(k as int),
                ..given
            }),
        decreases imports.problems.len() - k,
    {
        assert(wrong[k as int] == imports.problems@[k as int]@);
        let ghost so_far = report.deep_view();
        list::push(&mut report.problems, imports.problems[k].clone());
        k = k + 1;
        assert(given.problems + wrong.take(k as int) =~= so_far.problems.push(wrong[k - 1]));
        assert(report.deep_view() =~= (ReportV {
            problems: given.problems + wrong.take(k as int),
            ..given
        }));
    }
    assert(wrong.take(k as int) =~= wrong);
    let ghost before = report.deep_view();
    let ghost records = imports.records.deep_view();
    let ghost fv = failures.deep_view();
    let mut i: usize = 0;
    while i < failures.len()
        invariant
            i <= failures.len(),
            failures.len() == imports.records.len(),
            fv == failures.deep_view(),
            records == imports.records.deep_view(),
            report.decisions_imported <= before.decisions_imported + i,
            before.decisions_imported + imports.records.len() <= usize::MAX,
            report.deep_view() == imports_entered(before, records, fv, i as int),
        decreases failures.len() - i,
    {
        assert(fv[i as int] == failures@[i as int].deep_view());
        assert(records[i as int] == imports.records@[i as int].deep_view());
        let import: &Import = &imports.records[i];
        let ghost so_far = report.deep_view();
        match &failures[i] {
            None => {
                if import.fresh {
                    report.decisions_imported = report.decisions_imported + 1;
                    assert(report.deep_view() =~= (ReportV {
                        decisions_imported: so_far.decisions_imported + 1,
                        ..so_far
                    }));
                }
            },
            Some(why) => {
                let mut m = "could not store ".to_owned();
                m.append(import.record.id.as_str());
                m.append(": ");
                m.append(why.as_str());
                list::push(&mut report.problems, m);
                assert(report.deep_view() =~= with_problem(so_far, m@));
            },
        }
        i = i + 1;
    }
}

/// Enter what became of appending records to this device's own file.
pub fn enter_published(
    report: &mut SharedSyncReport,
    lines: &Vec<String>,
    append_failure: Option<String>,
)
    requires
        old(report).decisions_published + lines.len() <= usize::MAX,
    ensures
        final(report).deep_view() == match append_failure {
            None => (ReportV {
                decisions_published: old(report).decisions_published + lines.len(),
                ..old(report).deep_view()
            }),
            Some(why) => with_problem(old(report).deep_view(), why@),
        },
{
    let ghost before = report.deep_view();
    match append_failure {
        None => {
            report.decisions_published = report.decisions_published + lines.len();
            assert(report.deep_view() =~= (ReportV {
                decisions_published: before.decisions_published + lines.len(),
                ..before
            }));
        },
        Some(why) => {
            list::push(&mut report.problems, why);
            assert(report.deep_view() =~= with_problem(before, why@));
        },
    }
}

/// Every write is accounted for: each value is counted as applied or is a problem, and nothing is
/// lost of what the report held.
pub proof fn every_setting_is_accounted_for(
    report: ReportV,
    writes: Seq<StoredValueV>,
    failures: Seq<Option<Seq<char>>>,
    n: int,
)
    requires
        0 <= n <= failures.len(),
    ensures
        ({
            let r = settings_entered(report, writes, failures, n);
            &&& (r.settings_applied - report.settings_applied) + (r.problems.len()
                - report.problems.len()) == n
            &&& report.problems.is_prefix_of(r.problems)
            &&& r.settings_published == report.settings_published
        }),
    decreases n,
{
    if n > 0 {
        every_setting_is_accounted_for(report, writes, failures, n - 1);
    }
}

} // verus!
