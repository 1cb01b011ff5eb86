use vstd::prelude::*;
use vstd::string::StrSliceExecFns;

verus! {

/// Report representation.
#[derive(Debug, Clone, Copy, PartialEq, Eq, Structural)]
pub enum OutputFormat {
    Text,
    Json,
    Markdown,
    Sarif,
}

/// When text output uses terminal color.
#[derive(Debug, Clone, Copy, PartialEq, Eq, Structural)]
pub enum ColorWhen {
    Auto,
    Always,
    Never,
}

/// The command line of one invocation, as plain values.
#[derive(Debug, Clone)]
pub struct Cli {
    /// Files or directories to scan; the current directory when empty.
    pub paths: Vec<String>,
    pub config: Option<String>,
    pub no_config: bool,
    pub project_root: Option<String>,
    pub show_config: bool,
    pub list_files: bool,
    pub capabilities: bool,
    pub explain_path: Option<String>,
    pub suppression_status: bool,
    pub min_lines: Option<u32>,
    pub ignore_comments: bool,
    pub no_ignore_comments: bool,
    pub ignore_docstrings: bool,
    pub no_ignore_docstrings: bool,
    pub ignore_imports: bool,
    pub no_ignore_imports: bool,
    pub ignore_signatures: bool,
    pub no_ignore_signatures: bool,
    pub same_file: bool,
    pub no_same_file: bool,
    pub hidden: bool,
    pub no_hidden: bool,
    pub no_ignore_files: bool,
    pub exclude: Vec<String>,
    pub workers: usize,
    pub format: Option<OutputFormat>,
    pub color: Option<ColorWhen>,
    pub json: bool,
    pub show_source: bool,
    pub keep_going: bool,
    pub stdin_path: Option<String>,
    pub focus: Vec<String>,
    pub report: Vec<String>,
    pub no_fail_on_findings: bool,
    pub fail_on_stale: bool,
    pub baseline: Option<String>,
    pub baseline_status: Option<String>,
    pub prune_baseline: Option<String>,
    pub write_baseline: Option<String>,
}

/// The output format the command line selects: JSON with `--json`, else
/// `--format`, else text.
pub open spec fn selected_format(json: bool, format: Option<OutputFormat>) -> OutputFormat {
    if json {
        OutputFormat::Json
    } else {
        match format {
            Some(f) => f,
            None => OutputFormat::Text,
        }
    }
}

impl Cli {
    /// The selected output format.
    pub fn output_format(&self) -> (format: OutputFormat)
        ensures
            format == selected_format(self.json, self.format),
    {
        if self.json {
            OutputFormat::Json
        } else {
            match self.format {
                Some(format) => format,
                None => OutputFormat::Text,
            }
        }
    }
}

/// Largest worker count that `auto` selects.
pub const MAX_AUTO_WORKERS: usize = 4;

/// The worker count `--workers auto` selects.
pub open spec fn auto_worker_count_of(available: Option<usize>) -> usize {
    match available {
        Some(n) => if n < 1 {
            1
        } else if n > MAX_AUTO_WORKERS {
            MAX_AUTO_WORKERS
        } else {
            n
        },
        None => 1,
    }
}

/// Worker count for `--workers auto`: the available parallelism, at least
/// 1 and at most 4; 1 when it is unknown.
pub fn auto_worker_count(available: Option<usize>) -> (workers: usize)
    ensures
        workers == auto_worker_count_of(available),
{
    let n = match available {
        Some(n) => n,
        None => 1,
    };
    if n < 1 {
        1
    } else if n > MAX_AUTO_WORKERS {
        MAX_AUTO_WORKERS
    } else {
        n
    }
}

/// Numeric value of a run of decimal digits.
pub open spec fn digits_value(s: Seq<char>) -> nat
    decreases s.len(),
{
    if s.len() == 0 {
        0
    } else {
        10 * digits_value(s.drop_last()) + ((s.last() as u32) - ('0' as u32)) as nat
    }
}

pub open spec fn all_digits(s: Seq<char>) -> bool {
    forall|i: int| 0 <= i < s.len() ==> '0' <= #[trigger] s[i] <= '9'
}

/// The digits of an unsigned integer literal as `str::parse` reads it: an
/// optional `+`, then the digits.
pub open spec fn unsigned_digits(s: Seq<char>) -> Seq<char> {
    if s.len() > 0 && s[0] == '+' {
        s.drop_first()
    } else {
        s
    }
}

/// What `usize::from_str` gives for `s`.
pub open spec fn parsed_usize(s: Seq<char>) -> Option<nat> {
    let d = unsigned_digits(s);
    if d.len() > 0 && all_digits(d) && digits_value(d) <= usize::MAX {
        Some(digits_value(d))
    } else {
        None
    }
}

pub open spec fn worker_syntax_message() -> Seq<char> {
    "worker count must be a positive integer or 'auto'"@
}

pub open spec fn worker_zero_message() -> Seq<char> {
    "worker count must be at least 1"@
}

proof fn lemma_digits_value_grows(s: Seq<char>, k: int)
    requires
        0 <= k <= s.len(),
        all_digits(s),
    ensures
        digits_value(s.take(k)) <= digits_value(s),
    decreases s.len() - k,
{
    if k < s.len() {
        lemma_digits_value_grows(s, k + 1);
        assert(s.take(k + 1).drop_last() =~= s.take(k));
        assert(s.take(k + 1)[k] == s[k]);
    } else {
        assert(s.take(k) =~= s);
    }
}

/// Reads an unsigned integer the way `usize::from_str` does.
pub fn parse_usize(text: &str) -> (value: Option<usize>)
    ensures
        match value {
            Some(v) => parsed_usize(text@) == Some(v as nat),
            None => parsed_usize(text@) is None,
        },
{
    let n = text.unicode_len();
    let start: usize = if n > 0 && text.get_char(0) == '+' {
        1
    } else {
        0
    };
    let ghost d = unsigned_digits(text@);
    proof {
        assert(d =~= text@.skip(start as int));
    }
    if start == n {
        return None;
    }
    let mut value: usize = 0;
    let mut i: usize = start;
    while i < n
        invariant
            n == text@.len(),
            start <= i <= n,
            d == text@.skip(start as int),
            d == unsigned_digits(text@),
            all_digits(d.take(i - start)),
            value == digits_value(d.take(i - start)),
        decreases n - i,
    {
        let c = text.get_char(i);
        proof {
            assert(d.take(i + 1 - start).drop_last() =~= d.take(i - start));
            assert(d.take(i + 1 - start).last() == c);
        }
        if c < '0' || c > '9' {
            proof {
                assert(!('0' <= d[i - start] <= '9'));
            }
            return None;
        }
        let digit = ((c as u32) - ('0' as u32)) as usize;
        let next = match value.checked_mul(10) {
            Some(tens) => tens.checked_add(digit),
            None => None,
        };
        match next {
            Some(v) => {
                value = v;
            },
            None => {
                proof {
                    if all_digits(d) {
                        assert(all_digits(d.take(i + 1 - start)));
                        lemma_digits_value_grows(d, i + 1 - start);
                    }
                }
                return None;
            },
        }
        i = i + 1;
    }
    proof {
        assert(d.take(i - start) =~= d);
    }
    Some(value)
}

/// Reads `--workers`: `auto` picks `auto_worker_count(available)`, where
/// `available` is the machine's parallelism when known; otherwise a
/// positive integer.
pub fn parse_worker_count(value: &str, available: Option<usize>) -> (result: Result<usize, String>)
    ensures
        value@ == "auto"@ ==> result == Ok::<usize, String>(auto_worker_count_of(available)),
        value@ != "auto"@ ==> match parsed_usize(value@) {
            None => result matches Err(m) && m@ == worker_syntax_message(),
            Some(n) => if n == 0 {
                result matches Err(m) && m@ == worker_zero_message()
            } else {
                result == Ok::<usize, String>(n as usize)
            },
        },
{
    proof {
        reveal_strlit("auto");
    }
    if value.unicode_len() == 4 && value.get_char(0) == 'a' && value.get_char(1) == 'u' && value.get_char(2) == 't'
        && value.get_char(3) == 'o' {
        proof {
            assert(value@ =~= "auto"@);
        }
        return Ok(auto_worker_count(available));
    }
    proof {
        if value@ == "auto"@ {
            assert(value@[0] == 'a' && value@[1] == 'u' && value@[2] == 't' && value@[3] == 'o');
        }
    }
    match parse_usize(value) {
        None => Err(String::from_str("worker count must be a positive integer or 'auto'")),
        Some(0) => Err(String::from_str("worker count must be at least 1")),
        Some(n) => Ok(n),
    }
}

} // verus!
