use vstd::prelude::*;
use vstd::string::{StrSliceExecFns, StringExecFns};

use crate::error::OperationalError;
use crate::format::{decimal, push_char, push_decimal};
use crate::report::{
    context_name, distribution_name, scope_name, unit, Finding, Location, Report,
};

verus! {

// ----------------------------------------------------------------------
// Code spans and fences.
/// `n` backticks.
pub open spec fn backticks(n: nat) -> Seq<char> {
    Seq::new(n, |i: int| '`')
}

/// The longest run of backticks in `s`, and the run that ends it.
pub open spec fn run_state(s: Seq<char>) -> (nat, nat)
    decreases s.len(),
{
    if s.len() == 0 {
        (0, 0)
    } else {
        let (longest, current) = run_state(s.drop_last());
        if s.last() == '`' {
            let c = current + 1;
            (if c > longest {
                c
            } else {
                longest
            }, c)
        } else {
            (longest, 0)
        }
    }
}

/// Length of the longest run of backticks in `s`.
pub open spec fn longest_run(s: Seq<char>) -> nat {
    run_state(s).0
}

/// `value` as a Markdown code span: a fence one backtick longer than any
/// run inside, with a space of padding where `value` begins or ends with a
/// backtick.
pub open spec fn inline_code(value: Seq<char>) -> Seq<char> {
    let fence = backticks(longest_run(value) + 1);
    let pad = value.len() > 0 && (value[0] == '`' || value.last() == '`');
    fence + (if pad {
        seq![' ']
    } else {
        seq![]
    }) + value + (if pad {
        seq![' ']
    } else {
        seq![]
    }) + fence
}

/// Length of the fence of a source block: longer than any backtick run
/// inside, and at least three.
pub open spec fn fence_length(source: Seq<char>) -> nat {
    if longest_run(source) + 1 < 3 {
        3
    } else {
        longest_run(source) + 1
    }
}

/// `source` as a fenced Python code block.
pub open spec fn source_fence(source: Seq<char>) -> Seq<char> {
    let fence = backticks(fence_length(source));
    fence + "python\n"@ + source + (if source.len() > 0 && source.last() == '\n' {
        seq![]
    } else {
        seq!['\n']
    }) + fence + "\n"@
}

/// Length of the longest run of backticks in `value`.
pub fn longest_backtick_run(value: &str) -> (longest: usize)
    ensures
        longest == longest_run(value@),
{
    let n = value.unicode_len();
    let mut longest: usize = 0;
    let mut current: usize = 0;
    let mut i: usize = 0;
    while i < n
        invariant
            n == value@.len(),
            i <= n,
            run_state(value@.take(i as int)) == (longest as nat, current as nat),
            current <= i,
            longest <= i,
        decreases n - i,
    {
        proof {
            assert(value@.take(i + 1).drop_last() =~= value@.take(i as int));
            assert(value@.take(i + 1).last() == value@[i as int]);
        }
        if value.get_char(i) == '`' {
            current = current + 1;
            if current > longest {
                longest = current;
            }
        } else {
            current = 0;
        }
        i = i + 1;
    }
    proof {
        assert(value@.take(i as int) =~= value@);
    }
    longest
}

fn push_backticks(out: &mut String, n: usize)
    ensures
        final(out)@ == old(out)@ + backticks(n as nat),
{
    let ghost start = out@;
    let mut k: usize = 0;
    while k < n
        invariant
            k <= n,
            out@ == start + backticks(k as nat),
        decreases n - k,
    {
        push_char(out, '`');
        proof {
            assert(backticks((k + 1) as nat) =~= backticks(k as nat).push('`'));
        }
        k = k + 1;
    }
}

/// Appends `value` as a Markdown code span.
pub fn push_inline_code(out: &mut String, value: &str)
    ensures
        final(out)@ == old(out)@ + inline_code(value@),
{
    let ghost start = out@;
    let longest = longest_backtick_run(value);
    let n = value.unicode_len();
    let pad = n > 0 && (value.get_char(0) == '`' || value.get_char(n - 1) == '`');
    push_char(out, '`');
    push_backticks(out, longest);
    proof {
        assert(seq!['`'] + backticks(longest as nat) =~= backticks((longest + 1) as nat));
    }
    let ghost fenced = out@;
    if pad {
        push_char(out, ' ');
    }
    out.append(value);
    if pad {
        push_char(out, ' ');
    }
    push_char(out, '`');
    push_backticks(out, longest);
    proof {
        let fence = backticks((longest + 1) as nat);
        let p: Seq<char> = if pad {
            seq![' ']
        } else {
            seq![]
        };
        assert(out@ =~= start + (fence + p + value@ + p + fence));
    }
}

/// Appends `source` as a fenced Python code block.
pub fn push_source_fence(out: &mut String, source: &str)
    ensures
        final(out)@ == old(out)@ + source_fence(source@),
{
    let ghost start = out@;
    let longest = longest_backtick_run(source);
    let ghost fence = backticks(fence_length(source@));
    if longest < 2 {
        push_backticks(out, 3);
    } else {
        push_char(out, '`');
        push_backticks(out, longest);
        proof {
            assert(seq!['`'] + backticks(longest as nat) =~= backticks((longest + 1) as nat));
        }
    }
    proof {
        assert(out@ =~= start + fence);
    }
    out.append("python\n");
    out.append(source);
    let n = source.unicode_len();
    let newline = n > 0 && source.get_char(n - 1) == '\n';
    if !newline {
        push_char(out, '\n');
    }
    let ghost body = out@;
    if longest < 2 {
        push_backticks(out, 3);
    } else {
        push_char(out, '`');
        push_backticks(out, longest);
        proof {
            assert(seq!['`'] + backticks(longest as nat) =~= backticks((longest + 1) as nat));
        }
    }
    proof {
        assert(out@ =~= body + fence);
    }
    out.append("\n");
    proof {
        let nl: Seq<char> = if newline {
            seq![]
        } else {
            seq!['\n']
        };
        assert(out@ =~= start + (fence + "python\n"@ + source@ + nl + fence + "\n"@));
    }
}

// ----------------------------------------------------------------------
// The document.
/// The list item of one processing error.
pub open spec fn error_item(e: OperationalError) -> Seq<char> {
    "- "@ + (match e.path {
        Some(p) => inline_code(p@) + ": "@,
        None => seq![],
    }) + e.message@ + "\n"@
}

/// The list items of the first `n` errors.
pub open spec fn error_items(errors: Seq<OperationalError>, n: int) -> Seq<char>
    decreases n,
{
    if n <= 0 {
        seq![]
    } else {
        error_items(errors, n - 1) + error_item(errors[n - 1])
    }
}

pub open spec fn incomplete_warning() -> Seq<char> {
    "> **Warning:** Scan incomplete. Results include only successfully processed source.\n\n"@
}

/// Title, incompleteness warning with the processing errors, and the
/// note for a report without findings.
pub open spec fn markdown_preamble(report: Report, complete: bool, errors: Seq<OperationalError>) -> Seq<char> {
    "# Arid duplicate-code report\n\n"@ + (if !complete {
        incomplete_warning() + if errors.len() > 0 {
            "## Processing errors\n\n"@ + error_items(errors, errors.len() as int) + "\n"@
        } else {
            seq![]
        }
    } else {
        seq![]
    }) + if report.findings@.len() == 0 {
        if complete {
            "No duplicate code found.\n\n"@
        } else {
            "No duplicate code found in successfully processed source.\n\n"@
        }
    } else {
        seq![]
    }
}

/// The heading and metadata of one finding.
pub open spec fn markdown_finding_head(f: Finding) -> Seq<char> {
    "## `"@ + f.code@ + "` \u{2014} "@ + decimal(f.lines as nat) + " duplicated "@ + unit(f.lines as int, "line"@, "lines"@)
        + "\n\n"@ + "**Context:** "@ + context_name(f.context) + "  \n"@ + "**Scope:** "@ + scope_name(f.scope)
        + "  \n"@
}

/// The occurrence line of one finding.
pub open spec fn markdown_occurrences(f: Finding) -> Seq<char> {
    "**Occurrences:** "@ + decimal(f.occurrences as nat) + " across "@ + decimal(f.files as nat) + " "@ + unit(
        f.files as int,
        "file"@,
        "files"@,
    ) + " _("@ + distribution_name(f.distribution) + ")_\n\n"@
}

/// `path:start-end` of a location.
pub open spec fn location_label(l: Location) -> Seq<char> {
    l.path@ + ":"@ + decimal(l.start_line as nat) + "-"@ + decimal(l.end_line as nat)
}

/// The heading of one location, and its source when shown.
pub open spec fn markdown_location(l: Location) -> Seq<char> {
    "### "@ + inline_code(location_label(l)) + "\n\n"@ + match l.source {
        Some(text) => source_fence(text@) + "\n"@,
        None => seq![],
    }
}

/// The first `n` locations.
pub open spec fn markdown_locations(locations: Seq<Location>, n: int) -> Seq<char>
    decreases n,
{
    if n <= 0 {
        seq![]
    } else {
        markdown_locations(locations, n - 1) + markdown_location(locations[n - 1])
    }
}

/// The section of one finding.
pub open spec fn markdown_finding(f: Finding) -> Seq<char> {
    markdown_finding_head(f) + markdown_occurrences(f) + markdown_locations(f.locations@, f.locations@.len() as int)
}

/// The sections of the first `n` findings.
pub open spec fn markdown_findings(findings: Seq<Finding>, n: int) -> Seq<char>
    decreases n,
{
    if n <= 0 {
        seq![]
    } else {
        markdown_findings(findings, n - 1) + markdown_finding(findings[n - 1])
    }
}

/// The first summary items.
pub open spec fn markdown_summary_head(report: Report) -> Seq<char> {
    "## Summary\n\n"@ + "- **Files:** "@ + decimal(report.files as nat) + "\n"@ + "- **Source lines:** "@ + decimal(
        report.source_lines as nat,
    ) + "\n"@ + "- **Analyzed lines:** "@ + decimal(report.analyzed_lines as nat) + "\n"@
}

/// The remaining summary items; `percent` is the duplication percentage
/// formatted with two decimals.
pub open spec fn markdown_summary_tail(report: Report, percent: Seq<char>) -> Seq<char> {
    "- **Duplicate groups:** "@ + decimal(report.duplicate_groups as nat) + "\n"@ + "- **Duplicate lines:** "@
        + decimal(report.duplicate_lines as nat) + "\n"@ + "- **Duplication:** "@ + percent + "%\n"@
}

/// The Markdown document of a report.
pub open spec fn markdown_text(
    report: Report,
    percent: Seq<char>,
    complete: bool,
    errors: Seq<OperationalError>,
) -> Seq<char> {
    markdown_preamble(report, complete, errors) + markdown_findings(report.findings@, report.findings@.len() as int)
        + markdown_summary_head(report) + markdown_summary_tail(report, percent)
}

fn push_error_item(out: &mut String, e: &OperationalError)
    ensures
        final(out)@ == old(out)@ + error_item(*e),
{
    let ghost start = out@;
    out.append("- ");
    match &e.path {
        Some(path) => {
            push_inline_code(out, path.as_str());
            out.append(": ");
        },
        None => {},
    }
    out.append(e.message.as_str());
    out.append("\n");
    proof {
        assert(out@ =~= start + error_item(*e));
    }
}

fn push_preamble(out: &mut String, report: &Report, complete: bool, errors: &Vec<OperationalError>)
    ensures
        final(out)@ == old(out)@ + markdown_preamble(*report, complete, errors@),
{
    let ghost start = out@;
    out.append("# Arid duplicate-code report\n\n");
    let ghost titled = out@;
    if !complete {
        out.append("> **Warning:** Scan incomplete. Results include only successfully processed source.\n\n");
        if errors.len() > 0 {
            out.append("## Processing errors\n\n");
            let ghost listed = out@;
            let mut k: usize = 0;
            while k < errors.len()
                invariant
                    k <= errors@.len(),
                    out@ == listed + error_items(errors@, k as int),
                decreases errors@.len() - k,
            {
                push_error_item(out, &errors[k]);
                k = k + 1;
            }
            out.append("\n");
        }
    }
    let ghost warned = out@;
    proof {
        assert(warned =~= titled + (if !complete {
            incomplete_warning() + if errors@.len() > 0 {
                "## Processing errors\n\n"@ + error_items(errors@, errors@.len() as int) + "\n"@
            } else {
                seq![]
            }
        } else {
            seq![]
        }));
    }
    if report.findings.len() == 0 {
        if complete {
            out.append("No duplicate code found.\n\n");
        } else {
            out.append("No duplicate code found in successfully processed source.\n\n");
        }
    }
    proof {
        assert(out@ =~= start + markdown_preamble(*report, complete, errors@));
    }
}

fn push_finding_head(out: &mut String, f: &Finding)
    ensures
        final(out)@ == old(out)@ + markdown_finding_head(*f),
{
    let ghost start = out@;
    out.append("## `");
    out.append(f.code.as_str());
    out.append("` \u{2014} ");
    push_decimal(out, f.lines as u64);
    out.append(" duplicated ");
    if f.lines == 1 {
        out.append("line");
    } else {
        out.append("lines");
    }
    out.append("\n\n");
    out.append("**Context:** ");
    out.append(f.context.as_str());
    out.append("  \n");
    out.append("**Scope:** ");
    out.append(f.scope.as_str());
    out.append("  \n");
    proof {
        assert(out@ =~= start + markdown_finding_head(*f));
    }
}

fn push_occurrences(out: &mut String, f: &Finding)
    ensures
        final(out)@ == old(out)@ + markdown_occurrences(*f),
{
    let ghost start = out@;
    out.append("**Occurrences:** ");
    push_decimal(out, f.occurrences as u64);
    out.append(" across ");
    push_decimal(out, f.files as u64);
    out.append(" ");
    if f.files == 1 {
        out.append("file");
    } else {
        out.append("files");
    }
    out.append(" _(");
    out.append(f.distribution.as_str());
    out.append(")_\n\n");
    proof {
        assert(out@ =~= start + markdown_occurrences(*f));
    }
}

fn push_location(out: &mut String, l: &Location)
    ensures
        final(out)@ == old(out)@ + markdown_location(*l),
{
    let ghost start = out@;
    let mut label = String::new();
    label.append(l.path.as_str());
    label.append(":");
    push_decimal(&mut label, l.start_line);
    label.append("-");
    push_decimal(&mut label, l.end_line);
    proof {
        assert(label@ =~= location_label(*l));
    }
    out.append("### ");
    push_inline_code(out, label.as_str());
    out.append("\n\n");
    match &l.source {
        Some(text) => {
            push_source_fence(out, text.as_str());
            out.append("\n");
        },
        None => {},
    }
    proof {
        assert(out@ =~= start + markdown_location(*l));
    }
}

fn push_finding(out: &mut String, f: &Finding)
    ensures
        final(out)@ == old(out)@ + markdown_finding(*f),
{
    let ghost start = out@;
    push_finding_head(out, f);
    push_occurrences(out, f);
    let ghost head = out@;
    let mut k: usize = 0;
    while k < f.locations.len()
        invariant
            k <= f.locations@.len(),
            out@ == head + markdown_locations(f.locations@, k as int),
        decreases f.locations@.len() - k,
    {
        push_location(out, &f.locations[k]);
        k = k + 1;
    }
    proof {
        assert(out@ =~= start + markdown_finding(*f));
    }
}

fn push_summary_head(out: &mut String, report: &Report)
    ensures
        final(out)@ == old(out)@ + markdown_summary_head(*report),
{
    let ghost start = out@;
    out.append("## Summary\n\n");
    out.append("- **Files:** ");
    push_decimal(out, report.files);
    out.append("\n");
    out.append("- **Source lines:** ");
    push_decimal(out, report.source_lines);
    out.append("\n");
    out.append("- **Analyzed lines:** ");
    push_decimal(out, report.analyzed_lines);
    out.append("\n");
    proof {
        assert(out@ =~= start + markdown_summary_head(*report));
    }
}

fn push_summary_tail(out: &mut String, report: &Report, percent: &str)
    ensures
        final(out)@ == old(out)@ + markdown_summary_tail(*report, percent@),
{
    let ghost start = out@;
    out.append("- **Duplicate groups:** ");
    push_decimal(out, report.duplicate_groups);
    out.append("\n");
    out.append("- **Duplicate lines:** ");
    push_decimal(out, report.duplicate_lines);
    out.append("\n");
    out.append("- **Duplication:** ");
    out.append(percent);
    out.append("%\n");
    proof {
        assert(out@ =~= start + markdown_summary_tail(*report, percent@));
    }
}

/// Renders `report` as a Markdown document. `percent` is the duplication
/// percentage formatted with two decimals; `complete` is false for a scan
/// that skipped sources after `errors`.
pub fn render_markdown(report: &Report, percent: &str, complete: bool, errors: &Vec<OperationalError>) -> (output:
    String)
    ensures
        output@ == markdown_text(*report, percent@, complete, errors@),
{
    let mut output = String::new();
    push_preamble(&mut output, report, complete, errors);
    let ghost head = output@;
    let mut k: usize = 0;
    while k < report.findings.len()
        invariant
            k <= report.findings@.len(),
            output@ == head + markdown_findings(report.findings@, k as int),
        decreases report.findings@.len() - k,
    {
        push_finding(&mut output, &report.findings[k]);
        k = k + 1;
    }
    let ghost body = output@;
    push_summary_head(&mut output, report);
    push_summary_tail(&mut output, report, percent);
    proof {
        assert(output@ =~= markdown_text(*report, percent@, complete, errors@));
    }
    output
}

} // verus!
