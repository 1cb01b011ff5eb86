use arid::cli::{auto_worker_count, Cli, ColorWhen, OutputFormat, MAX_AUTO_WORKERS};
use arid::format::format_count;
use arid::invocation::{
    boolean_override, flags_are_consistent, resolve_text_color, should_time_scan, validate_output_options,
    ColorEnvironment, RunContext,
};

fn cli(paths: &[&str]) -> Cli {
    Cli {
        paths: paths.iter().map(|p| (*p).to_owned()).collect(),
        config: None,
        no_config: false,
        project_root: None,
        show_config: false,
        list_files: false,
        capabilities: false,
        explain_path: None,
        suppression_status: false,
        min_lines: None,
        ignore_comments: false,
        no_ignore_comments: false,
        ignore_docstrings: false,
        no_ignore_docstrings: false,
        ignore_imports: false,
        no_ignore_imports: false,
        ignore_signatures: false,
        no_ignore_signatures: false,
        same_file: false,
        no_same_file: false,
        hidden: false,
        no_hidden: false,
        no_ignore_files: false,
        exclude: Vec::new(),
        workers: 1,
        format: None,
        color: None,
        json: false,
        show_source: false,
        keep_going: false,
        stdin_path: None,
        focus: Vec::new(),
        report: Vec::new(),
        no_fail_on_findings: false,
        fail_on_stale: false,
        baseline: None,
        baseline_status: None,
        prune_baseline: None,
        write_baseline: None,
    }
}

#[test]
fn automatic_worker_selection_is_bounded_and_has_serial_fallback() {
    assert_eq!(auto_worker_count(None), 1);
    assert_eq!(auto_worker_count(Some(1)), 1);
    assert_eq!(auto_worker_count(Some(2)), 2);
    assert_eq!(auto_worker_count(Some(MAX_AUTO_WORKERS)), MAX_AUTO_WORKERS);
    assert_eq!(auto_worker_count(Some(MAX_AUTO_WORKERS + 8)), MAX_AUTO_WORKERS);
}

#[test]
fn times_only_normal_text_scans() {
    assert!(should_time_scan(&cli(&["."])));

    let mut json = cli(&["."]);
    json.json = true;
    assert!(!should_time_scan(&json));

    let mut suppression = cli(&["."]);
    suppression.suppression_status = true;
    assert!(!should_time_scan(&suppression));

    let mut explain = cli(&["."]);
    explain.explain_path = Some("src/a.py".to_owned());
    assert!(!should_time_scan(&explain));

    let mut status = cli(&["."]);
    status.baseline_status = Some("debt.json".to_owned());
    assert!(!should_time_scan(&status));
}

#[test]
fn formats_counts_with_thousands_separators() {
    assert_eq!(format_count(0), "0");
    assert_eq!(format_count(999), "999");
    assert_eq!(format_count(1_000), "1,000");
    assert_eq!(format_count(12_345_678), "12,345,678");
}

#[test]
fn json_flag_selects_json_output() {
    let mut json = cli(&[]);
    json.json = true;
    assert_eq!(json.output_format(), OutputFormat::Json);
    let mut markdown = cli(&[]);
    markdown.format = Some(OutputFormat::Markdown);
    assert_eq!(markdown.output_format(), OutputFormat::Markdown);
    assert_eq!(cli(&[]).output_format(), OutputFormat::Text);
}

#[test]
fn color_environment_precedence_is_deterministic() {
    let capable = RunContext::new(true, ColorEnvironment::default());
    assert!(resolve_text_color(None, &capable));
    assert!(!resolve_text_color(Some(ColorWhen::Never), &capable));

    let no_color = RunContext::new(true, ColorEnvironment::new(true, true, false));
    assert!(!resolve_text_color(None, &no_color));
    assert!(resolve_text_color(Some(ColorWhen::Always), &no_color));

    let forced = RunContext::new(false, ColorEnvironment::new(false, true, true));
    assert!(resolve_text_color(None, &forced));

    let disabled = RunContext::new(true, ColorEnvironment::new(false, false, true));
    assert!(!resolve_text_color(None, &disabled));
    assert!(resolve_text_color(Some(ColorWhen::Auto), &disabled));
}

#[test]
fn fail_on_stale_requires_status_mode_message() {
    let mut flags = cli(&["."]);
    flags.fail_on_stale = true;
    let error = validate_output_options(&flags, OutputFormat::Text).unwrap_err();
    assert_eq!(
        error.message,
        "--fail-on-stale requires --suppression-status or --baseline-status"
    );
}

#[test]
fn color_is_rejected_for_non_text_output() {
    let mut flags = cli(&["."]);
    flags.color = Some(ColorWhen::Always);
    let error = validate_output_options(&flags, OutputFormat::Json).unwrap_err();
    assert_eq!(error.message, "--color is only valid with text output");

    let mut admin = cli(&["."]);
    admin.show_config = true;
    let error = validate_output_options(&admin, OutputFormat::Sarif).unwrap_err();
    assert_eq!(error.message, "--show-config supports only text or JSON output");

    let mut scan = cli(&["."]);
    scan.keep_going = true;
    scan.write_baseline = Some("debt.json".to_owned());
    let error = validate_output_options(&scan, OutputFormat::Text).unwrap_err();
    assert_eq!(error.message, "--keep-going is not valid with --write-baseline");
}

#[test]
fn opposite_flags_give_overrides() {
    assert_eq!(boolean_override(true, false), Some(true));
    assert_eq!(boolean_override(false, true), Some(false));
    assert_eq!(boolean_override(false, false), None);
}

#[test]
fn run_context_carries_standard_input_source() {
    let context = RunContext::non_terminal().with_stdin_source("value = 1\n".to_owned());
    assert_eq!(context.stdin_source(), Some("value = 1\n"));
    assert_eq!(RunContext::non_terminal().stdin_source(), None);
}

#[test]
fn opposite_flags_are_inconsistent() {
    let mut plain = cli(&["."]);
    assert!(flags_are_consistent(&plain));
    plain.hidden = true;
    assert!(flags_are_consistent(&plain));
    plain.no_hidden = true;
    assert!(!flags_are_consistent(&plain));
}
