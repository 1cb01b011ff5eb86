use arid::capabilities::build_capabilities;

#[test]
fn capabilities_match_v1_contract() {
    let capabilities = build_capabilities("0.1.0");

    assert_eq!(capabilities.schema_version, 1);
    assert_eq!(capabilities.tool_version, "0.1.0");
    assert_eq!(capabilities.report_schema_versions, vec![4]);
    assert_eq!(capabilities.baseline_schema_versions, vec![1]);
    assert_eq!(capabilities.error_schema_versions, vec![1]);
    assert_eq!(capabilities.finding_fingerprint_versions, vec![1]);
    assert_eq!(capabilities.formats, vec!["json", "markdown", "sarif", "text"]);
    assert_eq!(
        capabilities.features,
        vec![
            "baseline-prune",
            "baseline-status",
            "focus",
            "keep-going",
            "no-fail-on-findings",
            "stdin-path",
            "workers-auto",
        ]
    );
}

#[test]
fn capability_string_arrays_are_lexically_sorted() {
    let capabilities = build_capabilities("0.1.0");
    let mut formats = capabilities.formats.clone();
    formats.sort_unstable();
    assert_eq!(capabilities.formats, formats);

    let mut features = capabilities.features.clone();
    features.sort_unstable();
    assert_eq!(capabilities.features, features);
}

#[test]
fn capabilities_are_deterministic() {
    assert_eq!(build_capabilities("0.1.0"), build_capabilities("0.1.0"));
}
