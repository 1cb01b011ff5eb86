use arid::baseline::{
    validate_baseline_groups, Baseline, BaselineError, BaselineGroup, BaselineNormalization,
    BaselinePathCount,
};
use arid::baseline_filter::{compare_group_status, prune_group};
use arid::baseline_status::{
    render_baseline_status_text, BaselineStatus, BaselineStatusGroup, BaselineStatusPath,
    DebtCounts,
};
use arid::model::NormalizationOptions;

fn baseline_group(occurrences: &[(&str, u32)]) -> BaselineGroup {
    BaselineGroup {
        fingerprint: format!("sha256:{}", "0".repeat(64)),
        lines: 2,
        occurrences: occurrences
            .iter()
            .map(|(path, count)| BaselinePathCount { path: (*path).to_owned(), count: *count })
            .collect(),
    }
}

fn status() -> BaselineStatus {
    BaselineStatus::new(vec![BaselineStatusGroup {
        fingerprint: format!("sha256:{}", "0".repeat(64)),
        lines: 2,
        paths: vec![
            BaselineStatusPath { path: "a.py".to_owned(), accepted: 1, active: 0, stale: 1 },
            BaselineStatusPath { path: "b.py".to_owned(), accepted: 1, active: 1, stale: 0 },
        ],
        summary: DebtCounts { accepted: 2, active: 1, stale: 1 },
    }])
}

#[test]
fn normalization_snapshot_contains_only_identity_settings() {
    let snapshot = BaselineNormalization::from(NormalizationOptions {
        ignore_comments: false,
        ignore_docstrings: true,
        ignore_imports: false,
        ignore_signatures: true,
    });

    assert_eq!(
        snapshot,
        BaselineNormalization {
            ignore_comments: false,
            ignore_docstrings: true,
            ignore_imports: false,
            ignore_signatures: true,
        }
    );
}

#[test]
fn debt_math_classifies_accepted_active_and_stale_counts() {
    let current = baseline_group(&[("a.py", 2), ("b.py", 1), ("c.py", 1)]);
    let baseline = baseline_group(&[("a.py", 1), ("b.py", 2), ("d.py", 3)]);
    let status = compare_group_status(Some(&current), Some(&baseline));

    assert_eq!(status.summary, DebtCounts { accepted: 2, active: 2, stale: 4 });
    assert_eq!(status.paths[0].path, "a.py");
    assert_eq!(status.paths[3].path, "d.py");
}

#[test]
fn pruning_keeps_only_accepted_intersection() {
    let current = baseline_group(&[("a.py", 2), ("b.py", 1), ("c.py", 4)]);
    let baseline = baseline_group(&[("a.py", 1), ("b.py", 3), ("d.py", 2)]);

    assert_eq!(
        prune_group(&current, &baseline).unwrap().occurrences,
        vec![
            BaselinePathCount { path: "a.py".to_owned(), count: 1 },
            BaselinePathCount { path: "b.py".to_owned(), count: 1 },
        ]
    );
}

#[test]
fn missing_baseline_fingerprint_is_wholly_active() {
    let current = baseline_group(&[("a.py", 2), ("b.py", 1)]);
    let status = compare_group_status(Some(&current), None);

    assert_eq!(status.summary, DebtCounts { accepted: 0, active: 3, stale: 0 });
}

#[test]
fn missing_current_fingerprint_is_wholly_stale() {
    let baseline = baseline_group(&[("a.py", 2), ("b.py", 1)]);
    let status = compare_group_status(None, Some(&baseline));

    assert_eq!(status.summary, DebtCounts { accepted: 0, active: 0, stale: 3 });
}

#[test]
fn status_summary_controls_active_state() {
    assert!(status().has_active());

    let empty = BaselineStatus::new(Vec::new());
    assert!(!empty.has_active());
    assert_eq!(empty.summary, DebtCounts::default());
}

#[test]
fn text_lists_totals_and_path_states() {
    let rendered = render_baseline_status_text(&status());

    assert!(rendered.starts_with("Baseline status\n"));
    assert!(rendered.contains("Accepted occurrences: 2"));
    assert!(rendered.contains("Active occurrences: 1"));
    assert!(rendered.contains("Stale occurrences: 1"));
    assert!(rendered.contains("a.py: accepted 1, active 0, stale 1"));
    assert!(rendered.contains("b.py: accepted 1, active 1, stale 0"));
}

#[test]
fn pruning_drops_groups_without_accepted_paths() {
    let current = baseline_group(&[("c.py", 4)]);
    let baseline = baseline_group(&[("a.py", 1)]);
    assert!(prune_group(&current, &baseline).is_none());
}

#[test]
fn validation_sorts_paths_and_rejects_repeats() {
    let mut baseline = Baseline {
        version: 1,
        normalization: BaselineNormalization {
            ignore_comments: true,
            ignore_docstrings: true,
            ignore_imports: true,
            ignore_signatures: true,
        },
        groups: vec![baseline_group(&[("b.py", 1), ("a.py", 2)])],
    };
    validate_baseline_groups(&mut baseline).unwrap();
    assert_eq!(baseline.groups[0].occurrences[0].path, "a.py");
    assert_eq!(baseline.groups[0].occurrences[1].path, "b.py");

    let mut repeated = Baseline {
        version: 1,
        normalization: baseline.normalization,
        groups: vec![baseline_group(&[("a.py", 1), ("a.py", 2)])],
    };
    assert!(matches!(
        validate_baseline_groups(&mut repeated),
        Err(BaselineError::DuplicateBaselinePath { .. })
    ));

    let mut bad_path = Baseline {
        version: 1,
        normalization: baseline.normalization,
        groups: vec![baseline_group(&[("../a.py", 1)])],
    };
    assert!(matches!(
        validate_baseline_groups(&mut bad_path),
        Err(BaselineError::InvalidBaselinePath { .. })
    ));
}

#[test]
fn baseline_status_text_is_exact() {
    let rendered = render_baseline_status_text(&status());
    let expected = format!(
        "Baseline status\nAccepted occurrences: 2\nActive occurrences: 1\nStale occurrences: 1\n\nsha256:{} (2 lines)\n  a.py: accepted 1, active 0, stale 1\n  b.py: accepted 1, active 1, stale 0\n",
        "0".repeat(64)
    );
    assert_eq!(rendered, expected);
}
