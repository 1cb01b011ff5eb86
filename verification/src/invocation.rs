use vstd::prelude::*;
use vstd::string::StringExecFns;

use crate::cli::{selected_format, Cli, ColorWhen, OutputFormat};
use crate::config::{LoadedSettings, ProjectOptions, SettingsOverrides};
use crate::error::{ErrorKind, OperationalError};

verus! {

/// The color-related environment variables, read once by the caller.
#[derive(Debug, Clone, Copy, PartialEq, Eq, Structural)]
pub struct ColorEnvironment {
    no_color: bool,
    clicolor_force: bool,
    clicolor_disabled: bool,
}

impl ColorEnvironment {
    pub closed spec fn no_color_set(self) -> bool {
        self.no_color
    }

    pub closed spec fn force_set(self) -> bool {
        self.clicolor_force
    }

    pub closed spec fn disabled_set(self) -> bool {
        self.clicolor_disabled
    }

    /// `NO_COLOR` set, `CLICOLOR_FORCE` set, `CLICOLOR=0`.
    pub fn new(no_color: bool, clicolor_force: bool, clicolor_disabled: bool) -> (environment: Self)
        ensures
            environment.no_color_set() == no_color,
            environment.force_set() == clicolor_force,
            environment.disabled_set() == clicolor_disabled,
    {
        ColorEnvironment { no_color, clicolor_force, clicolor_disabled }
    }
}

impl Default for ColorEnvironment {
    fn default() -> (environment: Self)
        ensures
            !environment.no_color_set() && !environment.force_set() && !environment.disabled_set(),
    {
        ColorEnvironment::new(false, false, false)
    }
}

/// What a run knows about its output environment.
#[derive(Debug, Clone)]
pub struct RunContext {
    text_color_capable: bool,
    color_environment: ColorEnvironment,
    stdin_source: Option<String>,
}

impl RunContext {
    pub closed spec fn color_capable(&self) -> bool {
        self.text_color_capable
    }

    pub closed spec fn environment(&self) -> ColorEnvironment {
        self.color_environment
    }

    pub closed spec fn stdin(&self) -> Option<Seq<char>> {
        match self.stdin_source {
            Some(s) => Some(s@),
            None => None,
        }
    }

    /// A context with no color and no standard-input source.
    pub fn non_terminal() -> (context: Self)
        ensures
            !context.color_capable(),
            !context.environment().no_color_set() && !context.environment().force_set(),
            !context.environment().disabled_set(),
            context.stdin() is None,
    {
        RunContext::new(false, ColorEnvironment::new(false, false, false))
    }

    /// A context without standard-input source.
    pub fn new(text_color_capable: bool, color_environment: ColorEnvironment) -> (context: Self)
        ensures
            context.color_capable() == text_color_capable,
            context.environment() == color_environment,
            context.stdin() is None,
    {
        RunContext { text_color_capable, color_environment, stdin_source: None }
    }

    /// This context with `source` as the standard-input source.
    pub fn with_stdin_source(self, source: String) -> (context: Self)
        ensures
            context.color_capable() == self.color_capable(),
            context.environment() == self.environment(),
            context.stdin() == Some(source@),
    {
        RunContext {
            text_color_capable: self.text_color_capable,
            color_environment: self.color_environment,
            stdin_source: Some(source),
        }
    }

    /// The standard-input source, if any.
    pub fn stdin_source(&self) -> (source: Option<&str>)
        ensures
            match source {
                Some(s) => self.stdin() == Some(s@),
                None => self.stdin() is None,
            },
    {
        match &self.stdin_source {
            Some(s) => Some(s.as_str()),
            None => None,
        }
    }
}

/// Whether text output is colored: an explicit `--color` wins; otherwise
/// `NO_COLOR`, then `CLICOLOR_FORCE`, then `CLICOLOR=0`, then the terminal.
pub open spec fn text_color(explicit: Option<ColorWhen>, capable: bool, environment: ColorEnvironment) -> bool {
    match explicit {
        Some(ColorWhen::Auto) => capable,
        Some(ColorWhen::Always) => true,
        Some(ColorWhen::Never) => false,
        None => if environment.no_color_set() {
            false
        } else if environment.force_set() {
            true
        } else if environment.disabled_set() {
            false
        } else {
            capable
        },
    }
}

/// Decides whether text output is colored.
pub fn resolve_text_color(explicit: Option<ColorWhen>, context: &RunContext) -> (color: bool)
    ensures
        color == text_color(explicit, context.color_capable(), context.environment()),
{
    if let Some(choice) = explicit {
        return match choice {
            ColorWhen::Auto => context.text_color_capable,
            ColorWhen::Always => true,
            ColorWhen::Never => false,
        };
    }
    let environment = context.color_environment;
    if environment.no_color {
        false
    } else if environment.clicolor_force {
        true
    } else if environment.clicolor_disabled {
        false
    } else {
        context.text_color_capable
    }
}

/// The administrative mode flag the command line selects, if any.
pub open spec fn administrative_mode(cli: Cli) -> Option<Seq<char>> {
    if cli.baseline_status is Some {
        Some("--baseline-status"@)
    } else if cli.prune_baseline is Some {
        Some("--prune-baseline"@)
    } else if cli.show_config {
        Some("--show-config"@)
    } else if cli.list_files {
        Some("--list-files"@)
    } else {
        None
    }
}

/// The mode flag of a run that does not report a scan, if any.
pub open spec fn non_scan_mode(cli: Cli) -> Option<Seq<char>> {
    match administrative_mode(cli) {
        Some(mode) => Some(mode),
        None => if cli.write_baseline is Some {
            Some("--write-baseline"@)
        } else {
            None
        },
    }
}

/// The message for the first rule about output options that the command
/// line breaks, if it breaks one.
pub open spec fn output_conflict(cli: Cli, format: OutputFormat) -> Option<Seq<char>> {
    let scan_mode = non_scan_mode(cli);
    let admin_mode = administrative_mode(cli);
    if cli.fail_on_stale && cli.baseline_status is None {
        Some("--fail-on-stale requires --suppression-status or --baseline-status"@)
    } else if cli.stdin_path is Some && scan_mode is Some {
        Some("--stdin-path is not valid with "@ + scan_mode->0)
    } else if cli.keep_going && scan_mode is Some {
        Some("--keep-going is not valid with "@ + scan_mode->0)
    } else if cli.focus@.len() > 0 && scan_mode is Some {
        Some("--focus is not valid with "@ + scan_mode->0)
    } else if cli.no_fail_on_findings && scan_mode is Some {
        Some("--no-fail-on-findings is not valid with "@ + scan_mode->0)
    } else if cli.report@.len() > 0 && scan_mode is Some {
        Some("--report is not valid with "@ + scan_mode->0)
    } else if admin_mode is Some && cli.show_source {
        Some("--show-source is not valid with "@ + admin_mode->0)
    } else if admin_mode is Some && cli.color is Some {
        Some("--color is not valid with "@ + admin_mode->0)
    } else if admin_mode is Some && (format == OutputFormat::Markdown || format == OutputFormat::Sarif) {
        Some(admin_mode->0 + " supports only text or JSON output"@)
    } else if cli.color is Some && format != OutputFormat::Text {
        Some("--color is only valid with text output"@)
    } else {
        None
    }
}

fn administrative_mode_flag(cli: &Cli) -> (mode: Option<&'static str>)
    ensures
        match mode {
            Some(m) => administrative_mode(*cli) == Some(m@),
            None => administrative_mode(*cli) is None,
        },
{
    if cli.baseline_status.is_some() {
        Some("--baseline-status")
    } else if cli.prune_baseline.is_some() {
        Some("--prune-baseline")
    } else if cli.show_config {
        Some("--show-config")
    } else if cli.list_files {
        Some("--list-files")
    } else {
        None
    }
}

fn configuration_error(message: String) -> (error: OperationalError)
    ensures
        error.kind == ErrorKind::Configuration,
        error.message@ == message@,
        error.path is None,
{
    OperationalError::new(ErrorKind::Configuration, message)
}

/// Rejects output options that the selected mode does not support.
pub fn validate_output_options(cli: &Cli, output_format: OutputFormat) -> (result: Result<(), OperationalError>)
    ensures
        result is Ok <==> output_conflict(*cli, output_format) is None,
        result matches Err(e) ==> e.kind == ErrorKind::Configuration && e.message@ == output_conflict(
            *cli,
            output_format,
        )->0 && e.path is None,
{
    let administrative = administrative_mode_flag(cli);
    let non_scan: Option<&str> = match administrative {
        Some(mode) => Some(mode),
        None => if cli.write_baseline.is_some() {
            Some("--write-baseline")
        } else {
            None
        },
    };
    if cli.fail_on_stale && cli.baseline_status.is_none() {
        return Err(
            configuration_error(
                String::from_str("--fail-on-stale requires --suppression-status or --baseline-status"),
            ),
        );
    }
    if let Some(mode) = non_scan {
        if cli.stdin_path.is_some() {
            return Err(configuration_error(String::from_str("--stdin-path is not valid with ").concat(mode)));
        }
        if cli.keep_going {
            return Err(configuration_error(String::from_str("--keep-going is not valid with ").concat(mode)));
        }
        if cli.focus.len() > 0 {
            return Err(configuration_error(String::from_str("--focus is not valid with ").concat(mode)));
        }
        if cli.no_fail_on_findings {
            return Err(
                configuration_error(String::from_str("--no-fail-on-findings is not valid with ").concat(mode)),
            );
        }
        if cli.report.len() > 0 {
            return Err(configuration_error(String::from_str("--report is not valid with ").concat(mode)));
        }
    }
    if let Some(mode) = administrative {
        if cli.show_source {
            return Err(configuration_error(String::from_str("--show-source is not valid with ").concat(mode)));
        }
        if cli.color.is_some() {
            return Err(configuration_error(String::from_str("--color is not valid with ").concat(mode)));
        }
        if output_format == OutputFormat::Markdown || output_format == OutputFormat::Sarif {
            return Err(configuration_error(String::from_str(mode).concat(" supports only text or JSON output")));
        }
    }
    if cli.color.is_some() && output_format != OutputFormat::Text {
        return Err(configuration_error(String::from_str("--color is only valid with text output")));
    }
    Ok(())
}

/// Whether a run prints its total time: only text scans that report
/// findings do.
pub fn should_time_scan(cli: &Cli) -> (timed: bool)
    ensures
        timed == (selected_format(cli.json, cli.format) == OutputFormat::Text && !cli.capabilities
            && !cli.show_config && !cli.list_files && !cli.suppression_status && cli.explain_path is None
            && cli.baseline_status is None && cli.prune_baseline is None && cli.write_baseline is None),
{
    cli.output_format() == OutputFormat::Text && !cli.capabilities && !cli.show_config && !cli.list_files
        && !cli.suppression_status && cli.explain_path.is_none() && cli.baseline_status.is_none()
        && cli.prune_baseline.is_none() && cli.write_baseline.is_none()
}

/// Value of a pair of opposite flags: `Some(true)` for the first,
/// `Some(false)` for the second, `None` for neither.
pub fn boolean_override(enabled: bool, disabled: bool) -> (value: Option<bool>)
    requires
        !(enabled && disabled),
    ensures
        value == (if enabled {
            Some(true)
        } else if disabled {
            Some(false)
        } else {
            None
        }),
{
    if enabled {
        Some(true)
    } else if disabled {
        Some(false)
    } else {
        None
    }
}

/// No pair of opposite flags is set together.
pub open spec fn flags_consistent(cli: Cli) -> bool {
    &&& !(cli.ignore_comments && cli.no_ignore_comments)
    &&& !(cli.ignore_docstrings && cli.no_ignore_docstrings)
    &&& !(cli.ignore_imports && cli.no_ignore_imports)
    &&& !(cli.ignore_signatures && cli.no_ignore_signatures)
    &&& !(cli.same_file && cli.no_same_file)
    &&& !(cli.hidden && cli.no_hidden)
}

/// True when no pair of opposite flags is set together.
pub fn flags_are_consistent(cli: &Cli) -> (consistent: bool)
    ensures
        consistent == flags_consistent(*cli),
{
    !(cli.ignore_comments && cli.no_ignore_comments) && !(cli.ignore_docstrings && cli.no_ignore_docstrings) && !(
    cli.ignore_imports && cli.no_ignore_imports) && !(cli.ignore_signatures && cli.no_ignore_signatures) && !(
    cli.same_file && cli.no_same_file) && !(cli.hidden && cli.no_hidden)
}

/// The settings overrides the command line gives.
pub fn settings_overrides(cli: &Cli) -> (overrides: SettingsOverrides)
    requires
        flags_consistent(*cli),
    ensures
        overrides.min_lines == cli.min_lines,
        overrides.ignore_comments == (if cli.ignore_comments {
            Some(true)
        } else if cli.no_ignore_comments {
            Some(false)
        } else {
            None
        }),
        overrides.ignore_docstrings == (if cli.ignore_docstrings {
            Some(true)
        } else if cli.no_ignore_docstrings {
            Some(false)
        } else {
            None
        }),
        overrides.ignore_imports == (if cli.ignore_imports {
            Some(true)
        } else if cli.no_ignore_imports {
            Some(false)
        } else {
            None
        }),
        overrides.ignore_signatures == (if cli.ignore_signatures {
            Some(true)
        } else if cli.no_ignore_signatures {
            Some(false)
        } else {
            None
        }),
        overrides.same_file == (if cli.same_file {
            Some(true)
        } else if cli.no_same_file {
            Some(false)
        } else {
            None
        }),
        overrides.hidden == (if cli.hidden {
            Some(true)
        } else if cli.no_hidden {
            Some(false)
        } else {
            None
        }),
        overrides.exclude is Some <==> cli.exclude@.len() > 0,
        overrides.exclude matches Some(e) ==> e@.len() == cli.exclude@.len() && forall|i: int|
            0 <= i < e@.len() ==> #[trigger] e@[i]@ == cli.exclude@[i]@,
{
    let exclude = if cli.exclude.len() > 0 {
        Some(copy_strings(&cli.exclude))
    } else {
        None
    };
    SettingsOverrides {
        min_lines: cli.min_lines,
        ignore_comments: boolean_override(cli.ignore_comments, cli.no_ignore_comments),
        ignore_docstrings: boolean_override(cli.ignore_docstrings, cli.no_ignore_docstrings),
        ignore_imports: boolean_override(cli.ignore_imports, cli.no_ignore_imports),
        ignore_signatures: boolean_override(cli.ignore_signatures, cli.no_ignore_signatures),
        same_file: boolean_override(cli.same_file, cli.no_same_file),
        hidden: boolean_override(cli.hidden, cli.no_hidden),
        exclude,
    }
}

/// Copies of `strings`, in order.
pub fn copy_strings(strings: &Vec<String>) -> (copy: Vec<String>)
    ensures
        copy@.len() == strings@.len(),
        forall|i: int| 0 <= i < strings@.len() ==> #[trigger] copy@[i]@ == strings@[i]@,
{
    let mut copy: Vec<String> = Vec::new();
    let mut i: usize = 0;
    while i < strings.len()
        invariant
            i <= strings@.len(),
            copy@.len() == i,
            forall|t: int| 0 <= t < i ==> #[trigger] copy@[t]@ == strings@[t]@,
        decreases strings@.len() - i,
    {
        copy.push(strings[i].clone());
        i = i + 1;
    }
    copy
}

/// Copy of an optional string.
pub fn copy_option(value: &Option<String>) -> (copy: Option<String>)
    ensures
        copy is Some <==> value is Some,
        copy matches Some(c) ==> c@ == value->0@,
{
    match value {
        Some(s) => Some(s.clone()),
        None => None,
    }
}

/// The project selection the command line gives.
pub fn project_options(cli: &Cli) -> (options: ProjectOptions)
    ensures
        options.config is Some <==> cli.config is Some,
        options.config matches Some(c) ==> c@ == cli.config->0@,
        options.no_config == cli.no_config,
        options.project_root is Some <==> cli.project_root is Some,
        options.project_root matches Some(r) ==> r@ == cli.project_root->0@,
{
    ProjectOptions {
        config: copy_option(&cli.config),
        no_config: cli.no_config,
        project_root: copy_option(&cli.project_root),
    }
}

/// The paths to scan: the command-line paths, or the current directory.
pub fn scan_paths(cli: &Cli) -> (paths: Vec<String>)
    ensures
        cli.paths@.len() == 0 ==> paths@.len() == 1 && paths@[0]@ == "."@,
        cli.paths@.len() > 0 ==> paths@.len() == cli.paths@.len() && forall|i: int|
            0 <= i < paths@.len() ==> #[trigger] paths@[i]@ == cli.paths@[i]@,
{
    if cli.paths.len() == 0 {
        let mut paths: Vec<String> = Vec::new();
        paths.push(String::from_str("."));
        paths
    } else {
        copy_strings(&cli.paths)
    }
}

/// The baseline to apply: `--baseline`, else the configured one.
pub fn selected_baseline_path(cli: &Cli, loaded: &LoadedSettings) -> (path: Option<String>)
    ensures
        cli.baseline is Some ==> path is Some && path->0@ == cli.baseline->0@,
        cli.baseline is None ==> (path is Some <==> loaded.settings.baseline is Some),
        cli.baseline is None && path is Some ==> path->0@ == loaded.settings.baseline->0@,
{
    match &cli.baseline {
        Some(path) => Some(path.clone()),
        None => copy_option(&loaded.settings.baseline),
    }
}

} // verus!
