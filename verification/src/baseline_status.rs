use vstd::prelude::*;
use vstd::string::StringExecFns;

use crate::format::{decimal, push_decimal};

verus! {

/// Version of the baseline status schema.
pub const BASELINE_STATUS_SCHEMA_VERSION: u8 = 1;

/// Occurrences of duplicate debt by state.
#[derive(Debug, Clone, Copy, PartialEq, Eq, Structural)]
pub struct DebtCounts {
    pub accepted: u64,
    pub active: u64,
    pub stale: u64,
}

impl Default for DebtCounts {
    fn default() -> (counts: Self)
        ensures
            counts.accepted == 0 && counts.active == 0 && counts.stale == 0,
    {
        DebtCounts { accepted: 0, active: 0, stale: 0 }
    }
}

impl DebtCounts {
    /// Adds `other` to these counts.
    pub fn add(&mut self, other: Self)
        requires
            old(self).accepted + other.accepted <= u64::MAX,
            old(self).active + other.active <= u64::MAX,
            old(self).stale + other.stale <= u64::MAX,
        ensures
            final(self).accepted == old(self).accepted + other.accepted,
            final(self).active == old(self).active + other.active,
            final(self).stale == old(self).stale + other.stale,
    {
        self.accepted = self.accepted + other.accepted;
        self.active = self.active + other.active;
        self.stale = self.stale + other.stale;
    }
}

/// Debt of one path within one group.
#[derive(Debug, PartialEq, Eq)]
pub struct BaselineStatusPath {
    pub path: String,
    pub accepted: u64,
    pub active: u64,
    pub stale: u64,
}

/// Debt of one duplicate group, by path.
#[derive(Debug, PartialEq, Eq)]
pub struct BaselineStatusGroup {
    pub fingerprint: String,
    pub lines: u32,
    pub paths: Vec<BaselineStatusPath>,
    pub summary: DebtCounts,
}

/// `a` and `b` hold the same values.
pub open spec fn same_status_path(a: BaselineStatusPath, b: BaselineStatusPath) -> bool {
    a.path@ == b.path@ && a.accepted == b.accepted && a.active == b.active && a.stale == b.stale
}

/// `a` and `b` hold the same values.
pub open spec fn same_status_group(a: BaselineStatusGroup, b: BaselineStatusGroup) -> bool {
    &&& a.fingerprint@ == b.fingerprint@
    &&& a.lines == b.lines
    &&& a.summary == b.summary
    &&& a.paths@.len() == b.paths@.len()
    &&& forall|k: int| 0 <= k < a.paths@.len() ==> same_status_path(#[trigger] a.paths@[k], b.paths@[k])
}

impl Clone for BaselineStatusPath {
    fn clone(&self) -> (copy: Self)
        ensures
            same_status_path(copy, *self),
    {
        BaselineStatusPath {
            path: self.path.clone(),
            accepted: self.accepted,
            active: self.active,
            stale: self.stale,
        }
    }
}

impl Clone for BaselineStatusGroup {
    fn clone(&self) -> (copy: Self)
        ensures
            same_status_group(copy, *self),
    {
        let mut paths: Vec<BaselineStatusPath> = Vec::new();
        let mut i: usize = 0;
        while i < self.paths.len()
            invariant
                i <= self.paths@.len(),
                paths@.len() == i,
                forall|k: int| 0 <= k < i ==> same_status_path(#[trigger] paths@[k], self.paths@[k]),
            decreases self.paths@.len() - i,
        {
            paths.push(self.paths[i].clone());
            i = i + 1;
        }
        BaselineStatusGroup {
            fingerprint: self.fingerprint.clone(),
            lines: self.lines,
            paths,
            summary: self.summary,
        }
    }
}

/// Debt of a whole run against a baseline.
#[derive(Debug, Clone, PartialEq, Eq)]
pub struct BaselineStatus {
    pub schema_version: u8,
    pub groups: Vec<BaselineStatusGroup>,
    pub summary: DebtCounts,
}

/// Sum of one count over group summaries.
pub open spec fn total_accepted(groups: Seq<BaselineStatusGroup>) -> int
    decreases groups.len(),
{
    if groups.len() == 0 {
        0
    } else {
        total_accepted(groups.drop_last()) + groups.last().summary.accepted
    }
}

/// Sum of one count over group summaries.
pub open spec fn total_active(groups: Seq<BaselineStatusGroup>) -> int
    decreases groups.len(),
{
    if groups.len() == 0 {
        0
    } else {
        total_active(groups.drop_last()) + groups.last().summary.active
    }
}

/// Sum of one count over group summaries.
pub open spec fn total_stale(groups: Seq<BaselineStatusGroup>) -> int
    decreases groups.len(),
{
    if groups.len() == 0 {
        0
    } else {
        total_stale(groups.drop_last()) + groups.last().summary.stale
    }
}

pub proof fn lemma_totals_prefix(groups: Seq<BaselineStatusGroup>, i: int)
    requires
        0 <= i <= groups.len(),
    ensures
        total_accepted(groups.take(i)) <= total_accepted(groups),
        total_active(groups.take(i)) <= total_active(groups),
        total_stale(groups.take(i)) <= total_stale(groups),
    decreases groups.len(),
{
    if i < groups.len() {
        assert(groups.drop_last().take(i) =~= groups.take(i));
        lemma_totals_prefix(groups.drop_last(), i);
    } else {
        assert(groups.take(i) =~= groups);
    }
}

impl BaselineStatus {
    /// The status of `groups`, with their summaries added up.
    pub fn new(groups: Vec<BaselineStatusGroup>) -> (status: Self)
        requires
            total_accepted(groups@) <= u64::MAX,
            total_active(groups@) <= u64::MAX,
            total_stale(groups@) <= u64::MAX,
        ensures
            status.schema_version == BASELINE_STATUS_SCHEMA_VERSION,
            status.groups@ == groups@,
            status.summary.accepted == total_accepted(groups@),
            status.summary.active == total_active(groups@),
            status.summary.stale == total_stale(groups@),
    {
        let mut summary = DebtCounts::default();
        let mut i: usize = 0;
        while i < groups.len()
            invariant
                i <= groups@.len(),
                total_accepted(groups@) <= u64::MAX,
                total_active(groups@) <= u64::MAX,
                total_stale(groups@) <= u64::MAX,
                summary.accepted == total_accepted(groups@.take(i as int)),
                summary.active == total_active(groups@.take(i as int)),
                summary.stale == total_stale(groups@.take(i as int)),
            decreases groups@.len() - i,
        {
            proof {
                assert(groups@.take(i + 1).drop_last() =~= groups@.take(i as int));
                lemma_totals_prefix(groups@, i + 1);
            }
            summary.add(groups[i].summary);
            i = i + 1;
        }
        proof {
            assert(groups@.take(i as int) =~= groups@);
        }
        BaselineStatus { schema_version: BASELINE_STATUS_SCHEMA_VERSION, groups, summary }
    }

    /// True when some debt is not accepted.
    pub fn has_active(&self) -> (active: bool)
        ensures
            active == (self.summary.active > 0),
    {
        self.summary.active > 0
    }

    /// True when some accepted debt no longer exists.
    pub fn has_stale(&self) -> (stale: bool)
        ensures
            stale == (self.summary.stale > 0),
    {
        self.summary.stale > 0
    }
}

/// The line for one path of a group.
pub open spec fn path_status_line(p: BaselineStatusPath) -> Seq<char> {
    "  "@ + p.path@ + ": accepted "@ + decimal(p.accepted as nat) + ", active "@ + decimal(p.active as nat)
        + ", stale "@ + decimal(p.stale as nat) + "\n"@
}

/// The lines for the first `n` paths.
pub open spec fn path_status_lines(paths: Seq<BaselineStatusPath>, n: int) -> Seq<char>
    decreases n,
{
    if n <= 0 {
        seq![]
    } else {
        path_status_lines(paths, n - 1) + path_status_line(paths[n - 1])
    }
}

/// The block for one group: a blank line, its fingerprint and line count,
/// then its paths.
pub open spec fn group_status_block(g: BaselineStatusGroup) -> Seq<char> {
    "\n"@ + g.fingerprint@ + " ("@ + decimal(g.lines as nat) + " lines)\n"@ + path_status_lines(
        g.paths@,
        g.paths@.len() as int,
    )
}

/// The blocks for the first `n` groups.
pub open spec fn group_status_blocks(groups: Seq<BaselineStatusGroup>, n: int) -> Seq<char>
    decreases n,
{
    if n <= 0 {
        seq![]
    } else {
        group_status_blocks(groups, n - 1) + group_status_block(groups[n - 1])
    }
}

/// The whole human-readable baseline status.
pub open spec fn baseline_status_text(status: BaselineStatus) -> Seq<char> {
    "Baseline status\n"@ + "Accepted occurrences: "@ + decimal(status.summary.accepted as nat) + "\n"@
        + "Active occurrences: "@ + decimal(status.summary.active as nat) + "\n"@ + "Stale occurrences: "@
        + decimal(status.summary.stale as nat) + "\n"@ + group_status_blocks(
        status.groups@,
        status.groups@.len() as int,
    )
}

fn push_path_status_line(out: &mut String, path: &BaselineStatusPath)
    ensures
        final(out)@ == old(out)@ + path_status_line(*path),
{
    let ghost start = out@;
    out.append("  ");
    out.append(path.path.as_str());
    out.append(": accepted ");
    push_decimal(out, path.accepted);
    out.append(", active ");
    push_decimal(out, path.active);
    out.append(", stale ");
    push_decimal(out, path.stale);
    out.append("\n");
    proof {
        assert(out@ =~= start + path_status_line(*path));
    }
}

fn push_group_status_block(out: &mut String, group: &BaselineStatusGroup)
    ensures
        final(out)@ == old(out)@ + group_status_block(*group),
{
    let ghost start = out@;
    out.append("\n");
    out.append(group.fingerprint.as_str());
    out.append(" (");
    push_decimal(out, group.lines as u64);
    out.append(" lines)\n");
    let ghost head = out@;
    let mut p: usize = 0;
    while p < group.paths.len()
        invariant
            p <= group.paths@.len(),
            out@ == head + path_status_lines(group.paths@, p as int),
        decreases group.paths@.len() - p,
    {
        push_path_status_line(out, &group.paths[p]);
        p = p + 1;
    }
    proof {
        assert(out@ =~= start + group_status_block(*group));
    }
}

/// The human-readable baseline status: totals, then each group's
/// fingerprint and line count with the debt of each of its paths.
pub fn render_baseline_status_text(status: &BaselineStatus) -> (text: String)
    ensures
        text@ == baseline_status_text(*status),
{
    let mut output = String::new();
    output.append("Baseline status\n");
    output.append("Accepted occurrences: ");
    push_decimal(&mut output, status.summary.accepted);
    output.append("\n");
    output.append("Active occurrences: ");
    push_decimal(&mut output, status.summary.active);
    output.append("\n");
    output.append("Stale occurrences: ");
    push_decimal(&mut output, status.summary.stale);
    output.append("\n");
    let ghost head = output@;
    proof {
        assert(head =~= "Baseline status\n"@ + "Accepted occurrences: "@ + decimal(status.summary.accepted as nat)
            + "\n"@ + "Active occurrences: "@ + decimal(status.summary.active as nat) + "\n"@
            + "Stale occurrences: "@ + decimal(status.summary.stale as nat) + "\n"@);
    }
    let mut g: usize = 0;
    while g < status.groups.len()
        invariant
            g <= status.groups@.len(),
            output@ == head + group_status_blocks(status.groups@, g as int),
        decreases status.groups@.len() - g,
    {
        push_group_status_block(&mut output, &status.groups[g]);
        g = g + 1;
    }
    proof {
        assert(output@ =~= baseline_status_text(*status));
    }
    output
}

} // verus!
