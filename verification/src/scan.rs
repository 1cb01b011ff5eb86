use vstd::prelude::*;

use vstd::string::StrSliceExecFns;

use crate::chars::{chars_of, same_text};
use crate::cli::OutputFormat;
use crate::exit_policy::{apply_fail_on_stale, apply_no_fail_on_findings};
use crate::format::push_char;
use crate::outcome::ExitStatus;

verus! {

/// What a scan does once its groups are detected.
#[derive(Debug, Clone, Copy, PartialEq, Eq, Structural)]
pub enum ScanMode {
    /// Record the groups as a new baseline.
    WriteBaseline,
    /// Compare the groups with a baseline and report the debt.
    BaselineStatus,
    /// As `BaselineStatus`, and drop accepted debt that no longer exists.
    PruneBaseline,
    /// Report the groups, after any baseline and focus filtering.
    Report,
}

/// The mode of a scan and the flags that shape its exit status.
#[derive(Debug, Clone, Copy, PartialEq, Eq, Structural)]
pub struct ScanOptions {
    pub mode: ScanMode,
    pub fail_on_stale: bool,
    pub no_fail_on_findings: bool,
}

/// Where a scan stands.
#[derive(Debug, Clone, Copy, PartialEq, Eq, Structural)]
pub enum ScanState {
    /// Waiting for the detected groups.
    Detecting(ScanOptions),
    /// Waiting for the new baseline to be written.
    Writing(ScanOptions),
    /// Waiting for the comparison with the baseline.
    Comparing(ScanOptions),
    /// Waiting for the pruned baseline to be written; the run then ends
    /// with `status`.
    Pruning { options: ScanOptions, status: ExitStatus },
    /// Waiting for the report.
    Reporting(ScanOptions),
    /// The run has ended with this status.
    Done(ExitStatus),
}

/// What the caller reports back after doing what the last action asked.
#[derive(Debug, Clone, Copy, PartialEq, Eq, Structural)]
pub enum ScanEvent {
    /// Duplicate groups were detected.
    Detected,
    /// The baseline was written.
    BaselineWritten,
    /// The baseline was compared: whether some debt is active, whether some
    /// is stale, and whether pruning would change the baseline file.
    Compared { has_active: bool, has_stale: bool, pruned_differs: bool },
    /// The report was built: whether it holds findings, and whether every
    /// source was processed.
    Reported { has_findings: bool, complete: bool },
    /// The step failed with an operational error.
    Failed,
}

/// What the caller does next.
#[derive(Debug, Clone, Copy, PartialEq, Eq, Structural)]
pub enum ScanAction {
    /// Build the baseline from the groups and write it; print nothing.
    WriteBaseline,
    /// Read the baseline and compare the groups with it.
    CompareBaseline,
    /// Write the pruned baseline over the old one.
    RewriteBaseline,
    /// Print the baseline status and exit with `status`.
    RenderStatus(ExitStatus),
    /// Filter and report the groups.
    BuildReport,
    /// Print the report and exit with `status`.
    RenderReport(ExitStatus),
    /// Exit with `status` and no further output.
    Finish(ExitStatus),
}

/// Exit status of a baseline comparison: findings while some debt is
/// active, and with `--fail-on-stale` also while some is stale.
pub open spec fn comparison_status(options: ScanOptions, has_active: bool, has_stale: bool) -> ExitStatus {
    if has_active || (options.fail_on_stale && has_stale) {
        ExitStatus::Findings
    } else {
        ExitStatus::Success
    }
}

/// Exit status of a report: an error when a source could not be
/// processed, findings when some were reported unless
/// `--no-fail-on-findings`, else success.
pub open spec fn report_status(options: ScanOptions, has_findings: bool, complete: bool) -> ExitStatus {
    if !complete {
        ExitStatus::Error
    } else if has_findings && !options.no_fail_on_findings {
        ExitStatus::Findings
    } else {
        ExitStatus::Success
    }
}

/// The next state and action of a scan.
pub open spec fn next_scan(state: ScanState, event: ScanEvent) -> (ScanState, ScanAction) {
    match (state, event) {
        (ScanState::Done(status), _) => (ScanState::Done(status), ScanAction::Finish(status)),
        (_, ScanEvent::Failed) => (ScanState::Done(ExitStatus::Error), ScanAction::Finish(ExitStatus::Error)),
        (ScanState::Detecting(o), ScanEvent::Detected) => match o.mode {
            ScanMode::WriteBaseline => (ScanState::Writing(o), ScanAction::WriteBaseline),
            ScanMode::BaselineStatus => (ScanState::Comparing(o), ScanAction::CompareBaseline),
            ScanMode::PruneBaseline => (ScanState::Comparing(o), ScanAction::CompareBaseline),
            ScanMode::Report => (ScanState::Reporting(o), ScanAction::BuildReport),
        },
        (ScanState::Writing(_), ScanEvent::BaselineWritten) => (
            ScanState::Done(ExitStatus::Success),
            ScanAction::Finish(ExitStatus::Success),
        ),
        (ScanState::Comparing(o), ScanEvent::Compared { has_active, has_stale, pruned_differs }) => {
            let status = comparison_status(o, has_active, has_stale);
            if o.mode == ScanMode::PruneBaseline && pruned_differs {
                (ScanState::Pruning { options: o, status }, ScanAction::RewriteBaseline)
            } else {
                (ScanState::Done(status), ScanAction::RenderStatus(status))
            }
        },
        (ScanState::Pruning { options: _, status }, ScanEvent::BaselineWritten) => (
            ScanState::Done(status),
            ScanAction::RenderStatus(status),
        ),
        (ScanState::Reporting(o), ScanEvent::Reported { has_findings, complete }) => {
            let status = report_status(o, has_findings, complete);
            (ScanState::Done(status), ScanAction::RenderReport(status))
        },
        (_, _) => (ScanState::Done(ExitStatus::Error), ScanAction::Finish(ExitStatus::Error)),
    }
}

/// The decisions of a scan after detection: which step comes next, and
/// with which exit status it ends. Exit status 0 means no finding failed
/// the scan, 1 that findings (or active, or with `--fail-on-stale` stale,
/// baseline debt) were reported, 2 an operational error. An event that
/// the state does not wait for ends the run with an error.
pub fn scan_outcome(state: ScanState, event: ScanEvent) -> (next: (ScanState, ScanAction))
    ensures
        next == next_scan(state, event),
{
    match (state, event) {
        (ScanState::Done(status), _) => (ScanState::Done(status), ScanAction::Finish(status)),
        (_, ScanEvent::Failed) => (ScanState::Done(ExitStatus::Error), ScanAction::Finish(ExitStatus::Error)),
        (ScanState::Detecting(o), ScanEvent::Detected) => match o.mode {
            ScanMode::WriteBaseline => (ScanState::Writing(o), ScanAction::WriteBaseline),
            ScanMode::BaselineStatus => (ScanState::Comparing(o), ScanAction::CompareBaseline),
            ScanMode::PruneBaseline => (ScanState::Comparing(o), ScanAction::CompareBaseline),
            ScanMode::Report => (ScanState::Reporting(o), ScanAction::BuildReport),
        },
        (ScanState::Writing(_), ScanEvent::BaselineWritten) => (
            ScanState::Done(ExitStatus::Success),
            ScanAction::Finish(ExitStatus::Success),
        ),
        (ScanState::Comparing(o), ScanEvent::Compared { has_active, has_stale, pruned_differs }) => {
            let found = if has_active {
                ExitStatus::Findings
            } else {
                ExitStatus::Success
            };
            let status = apply_fail_on_stale(found, has_stale, o.fail_on_stale);
            let prune = match o.mode {
                ScanMode::PruneBaseline => true,
                _ => false,
            };
            if prune && pruned_differs {
                (ScanState::Pruning { options: o, status }, ScanAction::RewriteBaseline)
            } else {
                (ScanState::Done(status), ScanAction::RenderStatus(status))
            }
        },
        (ScanState::Pruning { options: _, status }, ScanEvent::BaselineWritten) => (
            ScanState::Done(status),
            ScanAction::RenderStatus(status),
        ),
        (ScanState::Reporting(o), ScanEvent::Reported { has_findings, complete }) => {
            let found = if !complete {
                ExitStatus::Error
            } else if has_findings {
                ExitStatus::Findings
            } else {
                ExitStatus::Success
            };
            let status = apply_no_fail_on_findings(found, o.no_fail_on_findings);
            (ScanState::Done(status), ScanAction::RenderReport(status))
        },
        (_, _) => (ScanState::Done(ExitStatus::Error), ScanAction::Finish(ExitStatus::Error)),
    }
}

/// A report scan never ends with findings under `--no-fail-on-findings`,
/// and ends with an error exactly when a source failed.
pub proof fn law_report_exit_status(options: ScanOptions, has_findings: bool, complete: bool)
    requires
        options.mode == ScanMode::Report,
    ensures
        ({
            let (s1, a1) = next_scan(ScanState::Detecting(options), ScanEvent::Detected);
            let (s2, a2) = next_scan(s1, ScanEvent::Reported { has_findings, complete });
            &&& a1 == ScanAction::BuildReport
            &&& (a2 == ScanAction::RenderReport(ExitStatus::Error) <==> !complete)
            &&& options.no_fail_on_findings ==> a2 != ScanAction::RenderReport(ExitStatus::Findings)
            &&& (a2 == ScanAction::RenderReport(ExitStatus::Success)) <==> complete && (!has_findings
                || options.no_fail_on_findings)
        }),
{
}

/// A baseline comparison ends with exit status findings exactly when some
/// debt is active or, with `--fail-on-stale`, some is stale, and with
/// success otherwise; it never ends with an error. Active debt always
/// fails the run, whatever the flags and whether pruning rewrites the
/// baseline.
pub proof fn law_baseline_exit_status(
    options: ScanOptions,
    has_active: bool,
    has_stale: bool,
    pruned_differs: bool,
)
    ensures
        ({
            let (s1, a1) = next_scan(ScanState::Comparing(options), ScanEvent::Compared { has_active, has_stale, pruned_differs });
            let fails = has_active || (options.fail_on_stale && has_stale);
            let expected = if fails {
                ExitStatus::Findings
            } else {
                ExitStatus::Success
            };
            &&& options.mode == ScanMode::PruneBaseline && pruned_differs ==> a1 == ScanAction::RewriteBaseline
                && next_scan(s1, ScanEvent::BaselineWritten) == (ScanState::Done(expected), ScanAction::RenderStatus(expected))
            &&& !(options.mode == ScanMode::PruneBaseline && pruned_differs) ==> s1 == ScanState::Done(expected)
                && a1 == ScanAction::RenderStatus(expected)
            &&& has_active ==> expected == ExitStatus::Findings
        }),
        (options.mode == ScanMode::BaselineStatus || options.mode == ScanMode::PruneBaseline) ==> next_scan(
            ScanState::Detecting(options),
            ScanEvent::Detected,
        ) == (ScanState::Comparing(options), ScanAction::CompareBaseline),
{
}

/// Active baseline debt fails a comparison: whatever the flags, whether
/// stale debt exists and whether pruning changes the file, the status
/// rendered, now or after the rewrite, is findings.
pub proof fn law_active_debt_fails(options: ScanOptions, has_stale: bool, pruned_differs: bool)
    ensures
        ({
            let (s1, a1) = next_scan(
                ScanState::Comparing(options),
                ScanEvent::Compared { has_active: true, has_stale, pruned_differs },
            );
            ||| a1 == ScanAction::RenderStatus(ExitStatus::Findings)
            ||| a1 == ScanAction::RewriteBaseline && next_scan(s1, ScanEvent::BaselineWritten).1 == ScanAction::RenderStatus(
                ExitStatus::Findings,
            )
        }),
{
}

// ----------------------------------------------------------------------
// Report targets.
/// Why a `--report FORMAT=PATH` target was refused.
#[derive(Debug, Clone, PartialEq, Eq)]
pub enum ReportTargetError {
    /// The target has no `=`.
    MissingSeparator(String),
    /// The format before `=` is not one the tool writes.
    UnsupportedFormat(String),
}

/// Index of the first `c` in `s`, if any.
pub open spec fn first_index(s: Seq<char>, c: char) -> Option<int> {
    if exists|i: int| 0 <= i < s.len() && s[i] == c {
        Some(choose|i: int| 0 <= i < s.len() && s[i] == c && forall|j: int| 0 <= j < i ==> s[j] != c)
    } else {
        None
    }
}

/// The output format named `name`.
pub open spec fn named_format(name: Seq<char>) -> Option<OutputFormat> {
    if name == "text"@ {
        Some(OutputFormat::Text)
    } else if name == "json"@ {
        Some(OutputFormat::Json)
    } else if name == "markdown"@ {
        Some(OutputFormat::Markdown)
    } else if name == "sarif"@ {
        Some(OutputFormat::Sarif)
    } else {
        None
    }
}

/// Splits a `--report` target at its first `=` into a format and a path.
pub fn parse_report_target(target: &str) -> (result: Result<(OutputFormat, String), ReportTargetError>)
    ensures
        first_index(target@, '=') is None ==> (result matches Err(ReportTargetError::MissingSeparator(t)) && t@
            == target@),
        first_index(target@, '=') matches Some(i) ==> {
            let name = target@.take(i);
            match named_format(name) {
                Some(format) => result matches Ok((f, path)) && f == format && path@ == target@.skip(i + 1),
                None => result matches Err(ReportTargetError::UnsupportedFormat(n)) && n@ == name,
            }
        },
{
    let chars = chars_of(target);
    let mut i: usize = 0;
    while i < chars.len() && chars[i] != '='
        invariant
            chars@ == target@,
            i <= chars@.len(),
            forall|j: int| 0 <= j < i ==> chars@[j] != '=',
        decreases chars@.len() - i,
    {
        i = i + 1;
    }
    if i == chars.len() {
        proof {
            assert(!(exists|k: int| 0 <= k < target@.len() && target@[k] == '='));
        }
        return Err(ReportTargetError::MissingSeparator(target.to_owned()));
    }
    proof {
        assert(target@[i as int] == '=');
        let k = choose|k: int| 0 <= k < target@.len() && target@[k] == '=' && forall|j: int| 0 <= j < k ==> target@[j] != '=';
        if k < i {
            assert(chars@[k] != '=');
        }
        if (i as int) < k {
            assert(target@[i as int] != '=');
        }
        assert(k == i);
    }
    let mut name = String::new();
    let mut j: usize = 0;
    while j < i
        invariant
            chars@ == target@,
            i < chars@.len(),
            j <= i,
            name@ == target@.take(j as int),
        decreases i - j,
    {
        push_char(&mut name, chars[j]);
        proof {
            assert(target@.take(j + 1) =~= target@.take(j as int).push(target@[j as int]));
        }
        j = j + 1;
    }
    let mut path = String::new();
    let mut k: usize = i + 1;
    while k < chars.len()
        invariant
            chars@ == target@,
            i < k <= chars@.len(),
            path@ == target@.subrange(i + 1, k as int),
        decreases chars@.len() - k,
    {
        push_char(&mut path, chars[k]);
        proof {
            assert(target@.subrange(i + 1, k + 1) =~= target@.subrange(i + 1, k as int).push(target@[k as int]));
        }
        k = k + 1;
    }
    proof {
        assert(target@.subrange(i + 1, k as int) =~= target@.skip(i + 1));
    }
    let n = name.as_str();
    if same_text(n, "text") {
        Ok((OutputFormat::Text, path))
    } else if same_text(n, "json") {
        Ok((OutputFormat::Json, path))
    } else if same_text(n, "markdown") {
        Ok((OutputFormat::Markdown, path))
    } else if same_text(n, "sarif") {
        Ok((OutputFormat::Sarif, path))
    } else {
        Err(ReportTargetError::UnsupportedFormat(name))
    }
}

} // verus!
