use vstd::prelude::*;

use crate::focus::relative_form;
use crate::paths::project_relative_path;

verus! {

/// Stable machine-readable categories of operational failures.
#[derive(Debug, Clone, Copy, PartialEq, Eq, Structural)]
pub enum ErrorKind {
    Configuration,
    Discovery,
    Read,
    Parse,
    Normalization,
    Baseline,
    Output,
    Internal,
}

impl ErrorKind {
    /// The kebab-case name the JSON output uses.
    pub fn as_str(self) -> (name: &'static str)
        ensures
            name@ == error_kind_name(self),
    {
        proof {
            reveal_strlit("configuration");
            reveal_strlit("discovery");
            reveal_strlit("read");
            reveal_strlit("parse");
            reveal_strlit("normalization");
            reveal_strlit("baseline");
            reveal_strlit("output");
            reveal_strlit("internal");
        }
        match self {
            ErrorKind::Configuration => "configuration",
            ErrorKind::Discovery => "discovery",
            ErrorKind::Read => "read",
            ErrorKind::Parse => "parse",
            ErrorKind::Normalization => "normalization",
            ErrorKind::Baseline => "baseline",
            ErrorKind::Output => "output",
            ErrorKind::Internal => "internal",
        }
    }
}

/// Name of an error kind in machine-readable output.
pub open spec fn error_kind_name(kind: ErrorKind) -> Seq<char> {
    match kind {
        ErrorKind::Configuration => "configuration"@,
        ErrorKind::Discovery => "discovery"@,
        ErrorKind::Read => "read"@,
        ErrorKind::Parse => "parse"@,
        ErrorKind::Normalization => "normalization"@,
        ErrorKind::Baseline => "baseline"@,
        ErrorKind::Output => "output"@,
        ErrorKind::Internal => "internal"@,
    }
}

/// A failure of the run itself, as opposed to a finding.
#[derive(Debug, Clone)]
pub struct OperationalError {
    pub kind: ErrorKind,
    pub message: String,
    /// Project-relative path the failure concerns, if any.
    pub path: Option<String>,
}

impl OperationalError {
    /// An error of `kind` with `message` and no path.
    pub fn new(kind: ErrorKind, message: String) -> (error: Self)
        ensures
            error.kind == kind,
            error.message@ == message@,
            error.path is None,
    {
        OperationalError { kind, message, path: None }
    }

    /// This error, naming `path` by its project-relative form when it has
    /// one; otherwise unchanged.
    pub fn with_project_path(self, path: &str, project_root: &str) -> (error: Self)
        ensures
            error.kind == self.kind,
            error.message@ == self.message@,
            relative_form(path@, project_root@) is None ==> error.path == self.path,
            relative_form(path@, project_root@) matches Some(relative) ==> (error.path matches Some(p) && p@
                == relative),
    {
        match project_relative_path(path, project_root) {
            Ok(relative) => OperationalError { kind: self.kind, message: self.message, path: Some(relative) },
            Err(_) => self,
        }
    }
}

} // verus!
