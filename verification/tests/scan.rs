use arid::cli::OutputFormat;
use arid::outcome::ExitStatus;
use arid::scan::{parse_report_target, scan_outcome, ReportTargetError, ScanAction, ScanEvent, ScanMode, ScanOptions, ScanState};

fn options(mode: ScanMode) -> ScanOptions {
    ScanOptions { mode, fail_on_stale: false, no_fail_on_findings: false }
}

#[test]
fn report_scan_exit_follows_findings_and_failures() {
    let o = options(ScanMode::Report);
    let (state, action) = scan_outcome(ScanState::Detecting(o), ScanEvent::Detected);
    assert_eq!(action, ScanAction::BuildReport);
    let (_, found) = scan_outcome(state, ScanEvent::Reported { has_findings: true, complete: true });
    assert_eq!(found, ScanAction::RenderReport(ExitStatus::Findings));
    let (_, clean) = scan_outcome(state, ScanEvent::Reported { has_findings: false, complete: true });
    assert_eq!(clean, ScanAction::RenderReport(ExitStatus::Success));
    let (_, broken) = scan_outcome(state, ScanEvent::Reported { has_findings: true, complete: false });
    assert_eq!(broken, ScanAction::RenderReport(ExitStatus::Error));
    let quiet = ScanOptions { no_fail_on_findings: true, ..o };
    let (_, tolerated) = scan_outcome(ScanState::Reporting(quiet), ScanEvent::Reported { has_findings: true, complete: true });
    assert_eq!(tolerated, ScanAction::RenderReport(ExitStatus::Success));
}

#[test]
fn write_baseline_prints_nothing_and_succeeds() {
    let (state, action) = scan_outcome(ScanState::Detecting(options(ScanMode::WriteBaseline)), ScanEvent::Detected);
    assert_eq!(action, ScanAction::WriteBaseline);
    let (done, finish) = scan_outcome(state, ScanEvent::BaselineWritten);
    assert_eq!(done, ScanState::Done(ExitStatus::Success));
    assert_eq!(finish, ScanAction::Finish(ExitStatus::Success));
}

#[test]
fn pruning_rewrites_only_a_changed_baseline() {
    let o = options(ScanMode::PruneBaseline);
    let (state, _) = scan_outcome(ScanState::Detecting(o), ScanEvent::Detected);
    let (_, unchanged) = scan_outcome(state, ScanEvent::Compared { has_active: false, has_stale: false, pruned_differs: false });
    assert_eq!(unchanged, ScanAction::RenderStatus(ExitStatus::Success));
    let (pruning, rewrite) = scan_outcome(state, ScanEvent::Compared { has_active: true, has_stale: true, pruned_differs: true });
    assert_eq!(rewrite, ScanAction::RewriteBaseline);
    let (_, status) = scan_outcome(pruning, ScanEvent::BaselineWritten);
    assert_eq!(status, ScanAction::RenderStatus(ExitStatus::Findings));
}

#[test]
fn stale_debt_fails_only_when_asked() {
    let o = options(ScanMode::BaselineStatus);
    let (_, lenient) = scan_outcome(ScanState::Comparing(o), ScanEvent::Compared { has_active: false, has_stale: true, pruned_differs: true });
    assert_eq!(lenient, ScanAction::RenderStatus(ExitStatus::Success));
    let strict = ScanOptions { fail_on_stale: true, ..o };
    let (_, failing) = scan_outcome(ScanState::Comparing(strict), ScanEvent::Compared { has_active: false, has_stale: true, pruned_differs: false });
    assert_eq!(failing, ScanAction::RenderStatus(ExitStatus::Findings));
}

#[test]
fn a_failed_step_ends_with_an_error() {
    let (state, action) = scan_outcome(ScanState::Comparing(options(ScanMode::BaselineStatus)), ScanEvent::Failed);
    assert_eq!(state, ScanState::Done(ExitStatus::Error));
    assert_eq!(action, ScanAction::Finish(ExitStatus::Error));
    assert_eq!(ExitStatus::Error.code(), 2);
}

#[test]
fn report_targets_split_at_the_first_equals_sign() {
    assert_eq!(parse_report_target("json=out/a=b.json"), Ok((OutputFormat::Json, "out/a=b.json".to_owned())));
    assert_eq!(parse_report_target("sarif="), Ok((OutputFormat::Sarif, String::new())));
    assert_eq!(parse_report_target("report.json"), Err(ReportTargetError::MissingSeparator("report.json".to_owned())));
    assert_eq!(parse_report_target("html=out.html"), Err(ReportTargetError::UnsupportedFormat("html".to_owned())));
}
