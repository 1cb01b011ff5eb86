use arid::cli::Cli;
use arid::path_explanation::{
    candidate_roots, explain_descendant, explain_root, explanation_path, is_python_file, matching_root,
    render_path_explanation_text, sort_by_priority, traversal_exclusion_reasons, validate_explain_options,
    InspectedPath, PathDecision, PathKind, PathReason,
};

#[test]
fn python_files_are_recognised_by_extension() {
    assert!(is_python_file("src/a.py"));
    assert!(is_python_file("/abs/stub.pyi"));
    assert!(is_python_file("a.py/"));
    assert!(is_python_file("pkg/..py"));
    assert!(!is_python_file(".py"));
    assert!(!is_python_file("notes.txt"));
    assert!(!is_python_file("a.PY"));
    assert!(!is_python_file("a.pyc"));
    assert!(!is_python_file("py"));
    assert!(!is_python_file("dir/.."));
    assert!(!is_python_file("/"));
    assert!(!is_python_file(""));
}

#[test]
fn explicit_file_root_is_included() {
    let e = explain_root(Ok(false), true, true, false, PathKind::File, "src/a.py".to_owned()).unwrap();
    assert_eq!(e.decision, PathDecision::Include);
    assert_eq!(e.reasons, vec![PathReason::ExplicitFile]);
    assert!(e.explicit);
}

#[test]
fn excluded_non_python_root_lists_both_reasons() {
    let e = explain_root(Ok(true), false, true, false, PathKind::File, "notes.txt".to_owned()).unwrap();
    assert_eq!(e.decision, PathDecision::Exclude);
    assert_eq!(e.reasons, vec![PathReason::AridExclude, PathReason::UnsupportedSourceType]);
}

#[test]
fn symlinked_directory_root_is_excluded() {
    let e = explain_root(Ok(false), true, true, true, PathKind::Directory, "link".to_owned()).unwrap();
    assert_eq!(e.decision, PathDecision::Exclude);
    assert_eq!(e.reasons, vec![PathReason::SymlinkDirectory]);
    assert!(e.symlink);
}

#[test]
fn exclude_evaluation_failure_is_a_discovery_error() {
    let error = explain_root(Err("bad glob".to_owned()), true, true, false, PathKind::File, "a.py".to_owned())
        .unwrap_err();
    assert_eq!(error.message, "failed to evaluate Arid excludes: bad glob");
    assert_eq!(error.kind.as_str(), "discovery");
}

#[test]
fn hidden_and_unsupported_reasons_are_ordered() {
    let reasons = traversal_exclusion_reasons(None, Ok(false), Ok(true), Ok(true), Ok(false), true, PathKind::File, false)
        .unwrap();
    assert_eq!(reasons, vec![PathReason::Hidden, PathReason::UnsupportedSourceType]);
}

#[test]
fn arid_exclude_is_distinct_from_ignore_files() {
    let reasons = traversal_exclusion_reasons(None, Ok(true), Ok(true), Ok(false), Ok(true), true, PathKind::File, true)
        .unwrap();
    assert_eq!(reasons, vec![PathReason::AridExclude, PathReason::IgnoreFile]);
}

#[test]
fn symlink_on_the_way_decides_alone() {
    let reasons = traversal_exclusion_reasons(
        Some(PathReason::SymlinkTraversal),
        Ok(true),
        Ok(true),
        Ok(true),
        Ok(true),
        true,
        PathKind::File,
        false,
    )
    .unwrap();
    assert_eq!(reasons, vec![PathReason::SymlinkTraversal]);
}

#[test]
fn unexplained_exclusion_is_internal_error() {
    let error = traversal_exclusion_reasons(None, Ok(false), Ok(true), Ok(false), Ok(false), false, PathKind::File, true)
        .unwrap_err();
    assert_eq!(error.kind.as_str(), "internal");
}

#[test]
fn outside_scan_roots_is_excluded() {
    let e = explain_descendant("elsewhere.py".to_owned(), PathKind::File, false, &Vec::new());
    assert_eq!(e.decision, PathDecision::Exclude);
    assert_eq!(e.reasons, vec![PathReason::OutsideScanRoots]);
    assert!(!e.explicit);
}

#[test]
fn any_walk_that_keeps_the_path_includes_it() {
    let e = explain_descendant(
        "a.py".to_owned(),
        PathKind::File,
        false,
        &vec![vec![PathReason::Hidden], Vec::new()],
    );
    assert_eq!(e.decision, PathDecision::Include);
    assert_eq!(e.reasons, vec![PathReason::Discovered]);
}

#[test]
fn reasons_of_all_walks_are_merged_once_and_ordered() {
    let e = explain_descendant(
        "a.py".to_owned(),
        PathKind::File,
        false,
        &vec![
            vec![PathReason::IgnoreFile, PathReason::UnsupportedSourceType],
            vec![PathReason::AridExclude, PathReason::IgnoreFile],
        ],
    );
    assert_eq!(e.decision, PathDecision::Exclude);
    assert_eq!(
        e.reasons,
        vec![PathReason::AridExclude, PathReason::IgnoreFile, PathReason::UnsupportedSourceType]
    );
}

#[test]
fn priority_sort_is_stable() {
    let sorted = sort_by_priority(&vec![
        PathReason::Discovered,
        PathReason::SymlinkTraversal,
        PathReason::OutsideScanRoots,
        PathReason::SymlinkDirectory,
    ]);
    assert_eq!(
        sorted,
        vec![
            PathReason::OutsideScanRoots,
            PathReason::SymlinkTraversal,
            PathReason::SymlinkDirectory,
            PathReason::Discovered,
        ]
    );
}

fn root(path: &str, kind: Option<PathKind>) -> InspectedPath {
    InspectedPath { path: path.to_owned(), kind, symlink: false }
}

#[test]
fn roots_are_matched_by_components() {
    let roots = vec![
        root("/p/src", Some(PathKind::Directory)),
        root("/p/src/a.py", Some(PathKind::File)),
        root("/p", Some(PathKind::Directory)),
        root("/p/sr", Some(PathKind::Directory)),
    ];
    assert_eq!(matching_root(&roots, "/p/src//a.py"), Some(1));
    assert_eq!(matching_root(&roots, "/q"), None);
    assert_eq!(candidate_roots(&roots, "/p/src/b.py"), vec![0, 2]);
}

#[test]
fn explanation_paths_are_project_relative_where_possible() {
    assert_eq!(explanation_path("/project/src/a.py", "/project"), "src/a.py");
    assert_eq!(explanation_path("/elsewhere/a.py", "/project"), "/elsewhere/a.py");
}

#[test]
fn text_explanation_lists_every_field() {
    let e = explain_root(Ok(true), false, true, false, PathKind::File, "notes.txt".to_owned()).unwrap();
    assert_eq!(
        render_path_explanation_text(&e),
        [
            "Path explanation\n",
            "Path: notes.txt\n",
            "Kind: file\n",
            "Symlink: false\n",
            "Explicit: true\n",
            "Decision: exclude\n",
            "Reasons: arid-exclude, unsupported-source-type\n",
        ]
        .concat()
    );
}

fn plain_cli() -> Cli {
    Cli {
        paths: Vec::new(),
        config: None,
        no_config: false,
        project_root: None,
        show_config: false,
        list_files: false,
        capabilities: false,
        explain_path: Some("a.py".to_owned()),
        suppression_status: false,
        min_lines: None,
        ignore_comments: false,
        no_ignore_comments: false,
        ignore_docstrings: false,
        no_ignore_docstrings: false,
        ignore_imports: false,
        no_ignore_imports: false,
        ignore_signatures: false,
        no_ignore_signatures: false,
        same_file: false,
        no_same_file: false,
        hidden: false,
        no_hidden: false,
        no_ignore_files: false,
        exclude: Vec::new(),
        workers: 1,
        format: None,
        color: None,
        json: false,
        show_source: false,
        keep_going: false,
        stdin_path: None,
        focus: Vec::new(),
        report: Vec::new(),
        no_fail_on_findings: false,
        fail_on_stale: false,
        baseline: None,
        baseline_status: None,
        prune_baseline: None,
        write_baseline: None,
    }
}

#[test]
fn explain_path_rejects_other_modes_and_formats() {
    assert!(validate_explain_options(&plain_cli()).is_ok());

    let mut cli = plain_cli();
    cli.keep_going = true;
    cli.show_source = true;
    assert_eq!(validate_explain_options(&cli).unwrap_err().message, "--keep-going is not valid with --explain-path");

    let mut cli = plain_cli();
    cli.format = Some(arid::cli::OutputFormat::Sarif);
    assert_eq!(
        validate_explain_options(&cli).unwrap_err().message,
        "--explain-path supports only text or JSON output"
    );

    let mut cli = plain_cli();
    cli.json = true;
    assert!(validate_explain_options(&cli).is_ok());
}
