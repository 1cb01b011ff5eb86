use vstd::prelude::*;
use vstd::string::StringExecFns;

verus! {

/// How a run ended, as the process exit code reports it.
#[derive(Debug, Clone, Copy, PartialEq, Eq, Structural)]
pub enum ExitStatus {
    Success,
    Findings,
    Error,
}

impl ExitStatus {
    /// The process exit code: 0 for success, 1 for findings, 2 for errors.
    pub fn code(self) -> (code: u8)
        ensures
            code == match self {
                ExitStatus::Success => 0u8,
                ExitStatus::Findings => 1u8,
                ExitStatus::Error => 2u8,
            },
    {
        match self {
            ExitStatus::Success => 0,
            ExitStatus::Findings => 1,
            ExitStatus::Error => 2,
        }
    }
}

/// What one run prints and how it ends.
#[derive(Debug, Clone)]
pub struct RunResult {
    stdout: String,
    stderr: String,
    exit_status: ExitStatus,
}

impl RunResult {
    pub closed spec fn stdout_view(&self) -> Seq<char> {
        self.stdout@
    }

    pub closed spec fn stderr_view(&self) -> Seq<char> {
        self.stderr@
    }

    pub closed spec fn status(&self) -> ExitStatus {
        self.exit_status
    }

    /// A result with the given streams and status.
    pub fn new(stdout: String, stderr: String, exit_status: ExitStatus) -> (result: Self)
        ensures
            result.stdout_view() == stdout@,
            result.stderr_view() == stderr@,
            result.status() == exit_status,
    {
        RunResult { stdout, stderr, exit_status }
    }

    /// An error result: nothing on stdout, `error: <message>` and a newline
    /// on stderr.
    pub fn failure(message: &str) -> (result: Self)
        ensures
            result.stdout_view() == Seq::<char>::empty(),
            result.stderr_view() == seq!['e', 'r', 'r', 'o', 'r', ':', ' '] + message@ + seq!['\n'],
            result.status() == ExitStatus::Error,
    {
        let mut stderr = String::from_str("error: ");
        stderr.append(message);
        stderr.append("\n");
        proof {
            reveal_strlit("error: ");
            reveal_strlit("\n");
        }
        RunResult { stdout: String::new(), stderr, exit_status: ExitStatus::Error }
    }

    /// What the run printed on standard output.
    pub fn stdout(&self) -> (out: &str)
        ensures
            out@ == self.stdout_view(),
    {
        self.stdout.as_str()
    }

    /// What the run printed on standard error.
    pub fn stderr(&self) -> (err: &str)
        ensures
            err@ == self.stderr_view(),
    {
        self.stderr.as_str()
    }

    /// How the run ended.
    pub fn exit_status(&self) -> (status: ExitStatus)
        ensures
            status == self.status(),
    {
        self.exit_status
    }
}

} // verus!
