use arid::error::{ErrorKind, OperationalError};
use arid::format::relative_uri;
use arid::paths::{
    project_relative_path, selector_matches_source, validate_project_relative_path,
    ProjectPathError,
};

#[test]
fn serializes_project_relative_path_with_forward_slashes() {
    assert_eq!(project_relative_path("project/src/a.py", "project").unwrap(), "src/a.py");
}

#[test]
fn accepts_unicode_components() {
    assert_eq!(project_relative_path("project/src/π.py", "project").unwrap(), "src/π.py");
}

#[test]
fn rejects_path_outside_root() {
    assert!(matches!(
        project_relative_path("elsewhere/a.py", "project"),
        Err(ProjectPathError::OutsideRoot { .. })
    ));
}

#[test]
fn rejects_project_root_itself() {
    assert!(matches!(
        project_relative_path("project", "project"),
        Err(ProjectPathError::InvalidSerialized(path)) if path.is_empty()
    ));
}

#[test]
fn serialized_contract_matches_baseline_v1_rules() {
    for valid in ["a.py", "src/a.py", "src/π.py"] {
        assert!(validate_project_relative_path(valid).is_ok(), "{valid:?}");
    }
    for invalid in [
        "",
        "/a.py",
        "a.py/",
        "src//a.py",
        "./a.py",
        "src/../a.py",
        "src\\a.py",
        "C:/src/a.py",
        "a\0.py",
    ] {
        assert!(validate_project_relative_path(invalid).is_err(), "{invalid:?}");
    }
}

#[test]
fn adds_safe_project_relative_path() {
    let error = OperationalError::new(ErrorKind::Read, "failed".to_owned())
        .with_project_path("project/src/a.py", "project");
    assert_eq!(error.path.as_deref(), Some("src/a.py"));
}

#[test]
fn omits_path_outside_project_root() {
    let error = OperationalError::new(ErrorKind::Read, "failed".to_owned())
        .with_project_path("elsewhere/a.py", "project");
    assert_eq!(error.path, None);
}

#[test]
fn directory_selector_uses_path_component_ancestry() {
    assert!(selector_matches_source("src", "src/a.py"));
    assert!(selector_matches_source("src", "src/pkg/a.py"));
    assert!(!selector_matches_source("src", "src2/a.py"));
    assert!(!selector_matches_source("src/pkg", "src/package/a.py"));
}

#[test]
fn relative_uri_normalizes_separators_and_percent_encodes_utf8() {
    assert_eq!(relative_uri("tests\\unit/a file.py"), "tests/unit/a%20file.py");
    assert_eq!(relative_uri("src/naïve.py"), "src/na%C3%AFve.py");
    assert_eq!(relative_uri("src/a#b?.py"), "src/a%23b%3F.py");
}

#[test]
fn path_components_follow_std_rules() {
    assert_eq!(project_relative_path("./project/./src//a.py", "./project").unwrap(), "src/a.py");
    assert_eq!(project_relative_path("/root/project/a.py", "/root/project/").unwrap(), "a.py");
    assert!(matches!(
        project_relative_path("project/../a.py", "project"),
        Err(ProjectPathError::InvalidPath(_))
    ));
    assert!(matches!(
        project_relative_path("root/a.py", "/root"),
        Err(ProjectPathError::OutsideRoot { .. })
    ));
}

#[test]
fn error_kinds_have_stable_names() {
    assert_eq!(ErrorKind::Configuration.as_str(), "configuration");
    assert_eq!(ErrorKind::Internal.as_str(), "internal");
}
