use vstd::prelude::*;

use crate::outcome::ExitStatus;

verus! {

/// With `--no-fail-on-findings`, findings end the run successfully; every
/// other status is kept.
pub fn apply_no_fail_on_findings(status: ExitStatus, no_fail_on_findings: bool) -> (result: ExitStatus)
    ensures
        result == (if no_fail_on_findings && status == ExitStatus::Findings {
            ExitStatus::Success
        } else {
            status
        }),
{
    if no_fail_on_findings && status == ExitStatus::Findings {
        ExitStatus::Success
    } else {
        status
    }
}

/// With `--fail-on-stale`, stale debt turns a non-error status into
/// findings; errors are never masked.
pub fn apply_fail_on_stale(status: ExitStatus, has_stale: bool, fail_on_stale: bool) -> (result: ExitStatus)
    ensures
        result == (if fail_on_stale && has_stale && status != ExitStatus::Error {
            ExitStatus::Findings
        } else {
            status
        }),
{
    if fail_on_stale && has_stale && status != ExitStatus::Error {
        ExitStatus::Findings
    } else {
        status
    }
}

} // verus!
