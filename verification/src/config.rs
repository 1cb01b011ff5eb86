use vstd::prelude::*;
use vstd::string::{StrSliceExecFns, StringExecFns};

use crate::detect::DetectionOptions;
use crate::format::{decimal, push_decimal};
use crate::model::NormalizationOptions;

verus! {

/// Effective settings of one run.
#[derive(Debug, Clone, PartialEq, Eq)]
pub struct Settings {
    pub min_lines: u32,
    pub ignore_comments: bool,
    pub ignore_docstrings: bool,
    pub ignore_imports: bool,
    pub ignore_signatures: bool,
    pub same_file: bool,
    pub hidden: bool,
    pub exclude: Vec<String>,
    pub baseline: Option<String>,
}

impl Default for Settings {
    fn default() -> (settings: Self)
        ensures
            settings.min_lines == 4,
            settings.ignore_comments && settings.ignore_docstrings,
            settings.ignore_imports && settings.ignore_signatures,
            settings.same_file && !settings.hidden,
            settings.exclude@.len() == 0,
            settings.baseline is None,
    {
        Settings {
            min_lines: 4,
            ignore_comments: true,
            ignore_docstrings: true,
            ignore_imports: true,
            ignore_signatures: true,
            same_file: true,
            hidden: false,
            exclude: Vec::new(),
            baseline: None,
        }
    }
}

impl Settings {
    /// The normalization switches of these settings.
    pub fn normalization_options(&self) -> (options: NormalizationOptions)
        ensures
            options.ignore_comments == self.ignore_comments,
            options.ignore_docstrings == self.ignore_docstrings,
            options.ignore_imports == self.ignore_imports,
            options.ignore_signatures == self.ignore_signatures,
    {
        NormalizationOptions {
            ignore_comments: self.ignore_comments,
            ignore_docstrings: self.ignore_docstrings,
            ignore_imports: self.ignore_imports,
            ignore_signatures: self.ignore_signatures,
        }
    }

    /// The detection options of these settings.
    pub fn detection_options(&self) -> (options: DetectionOptions)
        ensures
            options.min_lines == self.min_lines,
            options.same_file == self.same_file,
    {
        DetectionOptions { min_lines: self.min_lines, same_file: self.same_file }
    }
}

/// Settings given on the command line; `Some` replaces the project
/// setting, `None` leaves it.
#[derive(Debug, Clone, PartialEq, Eq)]
pub struct SettingsOverrides {
    pub min_lines: Option<u32>,
    pub ignore_comments: Option<bool>,
    pub ignore_docstrings: Option<bool>,
    pub ignore_imports: Option<bool>,
    pub ignore_signatures: Option<bool>,
    pub same_file: Option<bool>,
    pub hidden: Option<bool>,
    pub exclude: Option<Vec<String>>,
}

impl Default for SettingsOverrides {
    fn default() -> (overrides: Self)
        ensures
            overrides.min_lines is None,
            overrides.ignore_comments is None,
            overrides.ignore_docstrings is None,
            overrides.ignore_imports is None,
            overrides.ignore_signatures is None,
            overrides.same_file is None,
            overrides.hidden is None,
            overrides.exclude is None,
    {
        SettingsOverrides {
            min_lines: None,
            ignore_comments: None,
            ignore_docstrings: None,
            ignore_imports: None,
            ignore_signatures: None,
            same_file: None,
            hidden: None,
            exclude: None,
        }
    }
}

/// Explicit project and configuration selection.
#[derive(Debug, Clone, PartialEq, Eq)]
pub struct ProjectOptions {
    pub config: Option<String>,
    pub no_config: bool,
    pub project_root: Option<String>,
}

impl Default for ProjectOptions {
    fn default() -> (options: Self)
        ensures
            options.config is None,
            !options.no_config,
            options.project_root is None,
    {
        ProjectOptions { config: None, no_config: false, project_root: None }
    }
}

/// Resolved settings, with the configuration file and project root they
/// came from.
#[derive(Debug, Clone, PartialEq, Eq)]
pub struct LoadedSettings {
    pub settings: Settings,
    /// The `pyproject.toml` the settings were read from, if any.
    pub config_path: Option<String>,
    /// Root for project-relative settings such as `exclude`.
    pub project_root: String,
}

/// The `[tool.arid]` table of a `pyproject.toml`.
#[derive(Debug, Clone, PartialEq, Eq)]
pub struct AridConfig {
    pub min_lines: Option<u32>,
    pub ignore_comments: Option<bool>,
    pub ignore_docstrings: Option<bool>,
    pub ignore_imports: Option<bool>,
    pub ignore_signatures: Option<bool>,
    pub same_file: Option<bool>,
    pub hidden: Option<bool>,
    pub exclude: Option<Vec<String>>,
    pub baseline: Option<String>,
}

/// Why settings could not be resolved.
#[derive(Debug, Clone, PartialEq, Eq)]
pub enum ConfigError {
    CurrentDirectory(String),
    MissingSearchPath(String),
    ConflictingConfigSelection,
    MissingConfig(String),
    ConfigNotFile(String),
    InvalidConfigName(String),
    MissingProjectRoot(String),
    ProjectRootNotDirectory(String),
    ContradictoryConfigRoot { config: String, project_root: String },
    Read { path: String, message: String },
    Parse { path: String, message: String },
    InvalidMinLines,
}

/// `Some(value)` replaces `current`; `None` keeps it.
pub open spec fn overridden<T>(current: T, value: Option<T>) -> T {
    match value {
        Some(v) => v,
        None => current,
    }
}

/// The scalar settings of `s` after applying `c` (the lists are compared
/// separately).
pub open spec fn scalars_overridden(
    s: Settings,
    old: Settings,
    min_lines: Option<u32>,
    ignore_comments: Option<bool>,
    ignore_docstrings: Option<bool>,
    ignore_imports: Option<bool>,
    ignore_signatures: Option<bool>,
    same_file: Option<bool>,
    hidden: Option<bool>,
) -> bool {
    &&& s.min_lines == overridden(old.min_lines, min_lines)
    &&& s.ignore_comments == overridden(old.ignore_comments, ignore_comments)
    &&& s.ignore_docstrings == overridden(old.ignore_docstrings, ignore_docstrings)
    &&& s.ignore_imports == overridden(old.ignore_imports, ignore_imports)
    &&& s.ignore_signatures == overridden(old.ignore_signatures, ignore_signatures)
    &&& s.same_file == overridden(old.same_file, same_file)
    &&& s.hidden == overridden(old.hidden, hidden)
}

/// `value` if given, else `current`.
fn pick_u32(current: u32, value: Option<u32>) -> (picked: u32)
    ensures
        picked == overridden(current, value),
{
    match value {
        Some(v) => v,
        None => current,
    }
}

/// `value` if given, else `current`.
fn pick_bool(current: bool, value: Option<bool>) -> (picked: bool)
    ensures
        picked == overridden(current, value),
{
    match value {
        Some(v) => v,
        None => current,
    }
}

/// Applies the `[tool.arid]` table over `settings`.
pub fn apply_project_config(settings: &mut Settings, config: AridConfig)
    ensures
        scalars_overridden(
            *final(settings),
            *old(settings),
            config.min_lines,
            config.ignore_comments,
            config.ignore_docstrings,
            config.ignore_imports,
            config.ignore_signatures,
            config.same_file,
            config.hidden,
        ),
        final(settings).exclude@ == match config.exclude {
            Some(v) => v@,
            None => old(settings).exclude@,
        },
        final(settings).baseline == match config.baseline {
            Some(b) => Some(b),
            None => old(settings).baseline,
        },
{
    settings.min_lines = pick_u32(settings.min_lines, config.min_lines);
    settings.ignore_comments = pick_bool(settings.ignore_comments, config.ignore_comments);
    settings.ignore_docstrings = pick_bool(settings.ignore_docstrings, config.ignore_docstrings);
    settings.ignore_imports = pick_bool(settings.ignore_imports, config.ignore_imports);
    settings.ignore_signatures = pick_bool(settings.ignore_signatures, config.ignore_signatures);
    settings.same_file = pick_bool(settings.same_file, config.same_file);
    settings.hidden = pick_bool(settings.hidden, config.hidden);
    if let Some(value) = config.exclude {
        settings.exclude = value;
    }
    if let Some(value) = config.baseline {
        settings.baseline = Some(value);
    }
}

/// Applies command-line overrides over `settings`.
pub fn apply_overrides(settings: &mut Settings, overrides: SettingsOverrides)
    ensures
        scalars_overridden(
            *final(settings),
            *old(settings),
            overrides.min_lines,
            overrides.ignore_comments,
            overrides.ignore_docstrings,
            overrides.ignore_imports,
            overrides.ignore_signatures,
            overrides.same_file,
            overrides.hidden,
        ),
        final(settings).exclude@ == match overrides.exclude {
            Some(v) => v@,
            None => old(settings).exclude@,
        },
        final(settings).baseline == old(settings).baseline,
{
    settings.min_lines = pick_u32(settings.min_lines, overrides.min_lines);
    settings.ignore_comments = pick_bool(settings.ignore_comments, overrides.ignore_comments);
    settings.ignore_docstrings = pick_bool(settings.ignore_docstrings, overrides.ignore_docstrings);
    settings.ignore_imports = pick_bool(settings.ignore_imports, overrides.ignore_imports);
    settings.ignore_signatures = pick_bool(settings.ignore_signatures, overrides.ignore_signatures);
    settings.same_file = pick_bool(settings.same_file, overrides.same_file);
    settings.hidden = pick_bool(settings.hidden, overrides.hidden);
    if let Some(value) = overrides.exclude {
        settings.exclude = value;
    }
}

/// `path` joined under `root`, unless it is absolute.
pub open spec fn joined_path(root: Seq<char>, path: Seq<char>) -> Seq<char> {
    if path.len() > 0 && path[0] == '/' {
        path
    } else if root.len() == 0 || root.last() == '/' {
        root + path
    } else {
        root + seq!['/'] + path
    }
}

/// `path` resolved against `root`: absolute paths stay, relative ones are
/// joined under it.
pub fn join_path(root: &str, path: &str) -> (joined: String)
    ensures
        joined@ == joined_path(root@, path@),
{
    if path.unicode_len() > 0 && path.get_char(0) == '/' {
        return path.to_owned();
    }
    let mut joined = root.to_owned();
    let root_len = root.unicode_len();
    if root_len > 0 && root.get_char(root_len - 1) != '/' {
        joined.append("/");
        proof {
            reveal_strlit("/");
        }
    }
    joined.append(path);
    joined
}

/// Resolves a relative baseline path against the project root.
pub fn resolve_project_paths(settings: &mut Settings, project_root: &str)
    ensures
        final(settings).baseline == match old(settings).baseline {
            Some(b) => Some(final(settings).baseline->0),
            None => None::<String>,
        },
        old(settings).baseline matches Some(b) ==> final(settings).baseline->0@ == joined_path(
            project_root@,
            b@,
        ),
        final(settings).min_lines == old(settings).min_lines,
        final(settings).exclude@ == old(settings).exclude@,
        scalars_overridden(*final(settings), *old(settings), None, None, None, None, None, None, None),
{
    let joined = match &settings.baseline {
        Some(path) => Some(join_path(project_root, path.as_str())),
        None => None,
    };
    if let Some(path) = joined {
        settings.baseline = Some(path);
    }
}

/// Rejects settings with `min_lines` zero.
pub fn validate_settings(settings: &Settings) -> (result: Result<(), ConfigError>)
    ensures
        result is Ok <==> settings.min_lines >= 1,
        result matches Err(e) ==> e == ConfigError::InvalidMinLines,
{
    if settings.min_lines == 0 {
        return Err(ConfigError::InvalidMinLines);
    }
    Ok(())
}

/// The `[tool.arid]` table, or one that sets nothing when there is none.
pub open spec fn table_or_empty(config: Option<AridConfig>) -> AridConfig {
    match config {
        Some(c) => c,
        None => AridConfig {
            min_lines: None,
            ignore_comments: None,
            ignore_docstrings: None,
            ignore_imports: None,
            ignore_signatures: None,
            same_file: None,
            hidden: None,
            exclude: None,
            baseline: None,
        },
    }
}

/// A setting: the command line's value, else the table's, else the default.
pub open spec fn layered<T>(default: T, table: Option<T>, cli: Option<T>) -> T {
    overridden(overridden(default, table), cli)
}

/// The excluded patterns: the command line's, else the table's, else none.
pub open spec fn layered_exclude(table: Option<Vec<String>>, cli: Option<Vec<String>>) -> Seq<String> {
    match cli {
        Some(v) => v@,
        None => match table {
            Some(v) => v@,
            None => seq![],
        },
    }
}

/// Effective settings: built-in defaults, then the `[tool.arid]` table if
/// one was found, then command-line overrides, with a relative baseline
/// resolved against `project_root`.
pub fn resolve_settings(config: Option<AridConfig>, overrides: SettingsOverrides, project_root: &str) -> (result: Result<
    Settings,
    ConfigError,
>)
    ensures
        result matches Ok(s) ==> s.min_lines >= 1,
        result is Ok <==> overridden(
            match config {
                Some(c) => overridden(4u32, c.min_lines),
                None => 4u32,
            },
            overrides.min_lines,
        ) >= 1,
        result matches Err(e) ==> e == ConfigError::InvalidMinLines,
        result matches Ok(s) ==> s.min_lines == overridden(
            match config {
                Some(c) => overridden(4u32, c.min_lines),
                None => 4u32,
            },
            overrides.min_lines,
        ),
        result matches Ok(s) ==> {
            let t = table_or_empty(config);
            &&& s.ignore_comments == layered(true, t.ignore_comments, overrides.ignore_comments)
            &&& s.ignore_docstrings == layered(true, t.ignore_docstrings, overrides.ignore_docstrings)
            &&& s.ignore_imports == layered(true, t.ignore_imports, overrides.ignore_imports)
            &&& s.ignore_signatures == layered(true, t.ignore_signatures, overrides.ignore_signatures)
            &&& s.same_file == layered(true, t.same_file, overrides.same_file)
            &&& s.hidden == layered(false, t.hidden, overrides.hidden)
            &&& s.exclude@ == layered_exclude(t.exclude, overrides.exclude)
            &&& match t.baseline {
                Some(b) => s.baseline matches Some(p) && p@ == joined_path(project_root@, b@),
                None => s.baseline is None,
            }
        },
{
    let mut settings = Settings::default();
    if let Some(config) = config {
        apply_project_config(&mut settings, config);
    }
    apply_overrides(&mut settings, overrides);
    resolve_project_paths(&mut settings, project_root);
    match validate_settings(&settings) {
        Ok(()) => Ok(settings),
        Err(error) => Err(error),
    }
}

/// Rejects an explicit configuration file together with `--no-config`,
/// before anything is read.
pub fn check_config_selection(options: &ProjectOptions) -> (result: Result<(), ConfigError>)
    ensures
        result is Err <==> options.config is Some && options.no_config,
        result matches Err(e) ==> e == ConfigError::ConflictingConfigSelection,
{
    if options.config.is_some() && options.no_config {
        return Err(ConfigError::ConflictingConfigSelection);
    }
    Ok(())
}

/// `true` or `false`, as settings are shown.
pub open spec fn flag_text(b: bool) -> Seq<char> {
    if b {
        "true"@
    } else {
        "false"@
    }
}

/// The lines listing the first `n` exclude patterns.
pub open spec fn exclude_lines(patterns: Seq<String>, n: int) -> Seq<char>
    decreases n,
{
    if n <= 0 {
        seq![]
    } else {
        exclude_lines(patterns, n - 1) + "  "@ + patterns[n - 1]@ + "\n"@
    }
}

/// The project root and configuration source lines.
pub open spec fn config_source(loaded: LoadedSettings, no_config: bool) -> Seq<char> {
    "Project root: "@ + loaded.project_root@ + "\n"@ + if no_config {
        "Configuration: disabled (--no-config)\n"@
    } else {
        match loaded.config_path {
            Some(p) => "Configuration: "@ + p@ + "\n"@,
            None => "Configuration: none\n"@,
        }
    }
}

/// A labelled flag line.
pub open spec fn flag_line(label: Seq<char>, value: bool) -> Seq<char> {
    label + flag_text(value) + "\n"@
}

/// One line per scalar setting.
pub open spec fn config_settings(s: Settings) -> Seq<char> {
    "Min lines: "@ + decimal(s.min_lines as nat) + "\n"@ + flag_line("Ignore comments: "@, s.ignore_comments) + flag_line(
        "Ignore docstrings: "@,
        s.ignore_docstrings,
    ) + flag_line("Ignore imports: "@, s.ignore_imports) + flag_line("Ignore signatures: "@, s.ignore_signatures)
        + flag_line("Same-file detection: "@, s.same_file) + flag_line("Hidden files: "@, s.hidden)
}

/// The source and settings lines of the configuration text.
pub open spec fn config_head(loaded: LoadedSettings, no_config: bool) -> Seq<char> {
    config_source(loaded, no_config) + config_settings(loaded.settings)
}

/// The exclude and baseline lines of the configuration text.
pub open spec fn config_tail(settings: Settings, baseline: Option<Seq<char>>) -> Seq<char> {
    (if settings.exclude@.len() == 0 {
        "Exclude: none\n"@
    } else {
        "Exclude:\n"@ + exclude_lines(settings.exclude@, settings.exclude@.len() as int)
    }) + match baseline {
        Some(p) => "Baseline: "@ + p + "\n"@,
        None => "Baseline: disabled\n"@,
    }
}

/// The text form of the effective configuration.
pub open spec fn config_text(loaded: LoadedSettings, no_config: bool, baseline: Option<Seq<char>>) -> Seq<char> {
    config_head(loaded, no_config) + config_tail(loaded.settings, baseline)
}

fn push_flag_line(out: &mut String, label: &str, value: bool)
    ensures
        final(out)@ == old(out)@ + flag_line(label@, value),
{
    let ghost start = out@;
    out.append(label);
    if value {
        out.append("true");
    } else {
        out.append("false");
    }
    out.append("\n");
    proof {
        assert(out@ =~= start + flag_line(label@, value));
    }
}

fn push_config_source(out: &mut String, loaded: &LoadedSettings, no_config: bool)
    ensures
        final(out)@ == old(out)@ + config_source(*loaded, no_config),
{
    let ghost start = out@;
    out.append("Project root: ");
    out.append(loaded.project_root.as_str());
    out.append("\n");
    if no_config {
        out.append("Configuration: disabled (--no-config)\n");
    } else {
        match &loaded.config_path {
            Some(p) => {
                out.append("Configuration: ");
                out.append(p.as_str());
                out.append("\n");
            },
            None => {
                out.append("Configuration: none\n");
            },
        }
    }
    proof {
        assert(out@ =~= start + config_source(*loaded, no_config));
    }
}

#[verifier::spinoff_prover]
#[verifier::rlimit(40)]
fn push_config_settings(out: &mut String, s: &Settings)
    ensures
        final(out)@ == old(out)@ + config_settings(*s),
{
    let ghost start = out@;
    out.append("Min lines: ");
    push_decimal(out, s.min_lines as u64);
    out.append("\n");
    let ghost a = out@;
    push_flag_line(out, "Ignore comments: ", s.ignore_comments);
    let ghost b = out@;
    push_flag_line(out, "Ignore docstrings: ", s.ignore_docstrings);
    let ghost c = out@;
    push_flag_line(out, "Ignore imports: ", s.ignore_imports);
    let ghost d = out@;
    push_flag_line(out, "Ignore signatures: ", s.ignore_signatures);
    let ghost e = out@;
    push_flag_line(out, "Same-file detection: ", s.same_file);
    let ghost f = out@;
    push_flag_line(out, "Hidden files: ", s.hidden);
    proof {
        let l0 = "Min lines: "@ + decimal(s.min_lines as nat) + "\n"@;
        let l1 = flag_line("Ignore comments: "@, s.ignore_comments);
        let l2 = flag_line("Ignore docstrings: "@, s.ignore_docstrings);
        let l3 = flag_line("Ignore imports: "@, s.ignore_imports);
        let l4 = flag_line("Ignore signatures: "@, s.ignore_signatures);
        let l5 = flag_line("Same-file detection: "@, s.same_file);
        let l6 = flag_line("Hidden files: "@, s.hidden);
        assert(a =~= start + l0);
        assert(out@ =~= start + l0 + l1 + l2 + l3 + l4 + l5 + l6);
    }
}

fn push_config_head(out: &mut String, loaded: &LoadedSettings, no_config: bool)
    ensures
        final(out)@ == old(out)@ + config_head(*loaded, no_config),
{
    let ghost start = out@;
    push_config_source(out, loaded, no_config);
    push_config_settings(out, &loaded.settings);
    proof {
        assert(out@ =~= start + config_head(*loaded, no_config));
    }
}

fn push_config_tail(out: &mut String, settings: &Settings, baseline_path: Option<&str>)
    ensures
        final(out)@ == old(out)@ + config_tail(
            *settings,
            match baseline_path {
                Some(p) => Some(p@),
                None => None,
            },
        ),
{
    let ghost start = out@;
    if settings.exclude.len() == 0 {
        out.append("Exclude: none\n");
    } else {
        out.append("Exclude:\n");
        let ghost listed = out@;
        let mut k: usize = 0;
        while k < settings.exclude.len()
            invariant
                k <= settings.exclude@.len(),
                out@ == listed + exclude_lines(settings.exclude@, k as int),
            decreases settings.exclude@.len() - k,
        {
            out.append("  ");
            out.append(settings.exclude[k].as_str());
            out.append("\n");
            k = k + 1;
        }
    }
    let ghost mid = out@;
    match baseline_path {
        Some(p) => {
            out.append("Baseline: ");
            out.append(p);
            out.append("\n");
        },
        None => {
            out.append("Baseline: disabled\n");
        },
    }
    proof {
        assert(out@ =~= start + config_tail(
            *settings,
            match baseline_path {
                Some(p) => Some(p@),
                None => None,
            },
        ));
    }
}

/// Renders the effective configuration: the project root, where the
/// settings came from, each setting, and the baseline in use.
pub fn render_config_text(loaded: &LoadedSettings, no_config: bool, baseline_path: Option<&str>) -> (text: String)
    ensures
        text@ == config_text(
            *loaded,
            no_config,
            match baseline_path {
                Some(p) => Some(p@),
                None => None,
            },
        ),
{
    let mut out = String::new();
    push_config_head(&mut out, loaded, no_config);
    push_config_tail(&mut out, &loaded.settings, baseline_path);
    proof {
        assert(out@ =~= config_text(
            *loaded,
            no_config,
            match baseline_path {
                Some(p) => Some(p@),
                None => None,
            },
        ));
    }
    out
}

} // verus!
