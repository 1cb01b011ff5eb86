use arid::exit_policy::{apply_fail_on_stale, apply_no_fail_on_findings};
use arid::outcome::{ExitStatus, RunResult};

#[test]
fn exit_status_codes_match_cli_contract() {
    assert_eq!(ExitStatus::Success.code(), 0);
    assert_eq!(ExitStatus::Findings.code(), 1);
    assert_eq!(ExitStatus::Error.code(), 2);
}

#[test]
fn process_result_exposes_streams_and_status() {
    let result = RunResult::new("out".to_owned(), "err".to_owned(), ExitStatus::Findings);
    assert_eq!(result.stdout(), "out");
    assert_eq!(result.stderr(), "err");
    assert_eq!(result.exit_status(), ExitStatus::Findings);
}

#[test]
fn failure_is_a_deterministic_error_outcome() {
    let result = RunResult::failure("broken");
    assert_eq!(result.stdout(), "");
    assert_eq!(result.stderr(), "error: broken\n");
    assert_eq!(result.exit_status(), ExitStatus::Error);
}

#[test]
fn no_fail_only_maps_findings_to_success() {
    assert_eq!(apply_no_fail_on_findings(ExitStatus::Findings, true), ExitStatus::Success);
    assert_eq!(apply_no_fail_on_findings(ExitStatus::Success, true), ExitStatus::Success);
    assert_eq!(apply_no_fail_on_findings(ExitStatus::Error, true), ExitStatus::Error);
}

#[test]
fn default_policy_preserves_all_statuses() {
    for status in [ExitStatus::Success, ExitStatus::Findings, ExitStatus::Error] {
        assert_eq!(apply_no_fail_on_findings(status, false), status);
    }
}

#[test]
fn fail_on_stale_promotes_success_to_findings() {
    assert_eq!(apply_fail_on_stale(ExitStatus::Success, true, true), ExitStatus::Findings);
}

#[test]
fn fail_on_stale_preserves_existing_findings() {
    assert_eq!(apply_fail_on_stale(ExitStatus::Findings, true, true), ExitStatus::Findings);
    assert_eq!(apply_fail_on_stale(ExitStatus::Findings, false, true), ExitStatus::Findings);
}

#[test]
fn fail_on_stale_never_masks_errors() {
    assert_eq!(apply_fail_on_stale(ExitStatus::Error, true, true), ExitStatus::Error);
}

#[test]
fn stale_policy_is_informational_without_flag() {
    assert_eq!(apply_fail_on_stale(ExitStatus::Success, true, false), ExitStatus::Success);
}
