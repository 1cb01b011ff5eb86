use arid::cli::{auto_worker_count, parse_usize, parse_worker_count, MAX_AUTO_WORKERS};

#[test]
fn accepts_auto_workers() {
    let workers = parse_worker_count("auto", Some(2)).unwrap();
    assert!((1..=MAX_AUTO_WORKERS).contains(&workers));
    let workers = parse_worker_count("auto", None).unwrap();
    assert!((1..=MAX_AUTO_WORKERS).contains(&workers));
}

#[test]
fn rejects_zero_workers() {
    assert!(parse_worker_count("0", Some(8)).is_err());
}

#[test]
fn rejects_invalid_workers() {
    let error = parse_worker_count("many", Some(8)).unwrap_err();
    assert!(error.contains("positive integer or 'auto'"));
}

#[test]
fn explicit_worker_counts_are_kept() {
    assert_eq!(parse_worker_count("3", Some(1)), Ok(3));
    assert_eq!(parse_worker_count("+12", None), Ok(12));
    assert_eq!(parse_worker_count("0", None), Err("worker count must be at least 1".to_owned()));
    assert!(parse_worker_count("", None).is_err());
    assert!(parse_worker_count("+", None).is_err());
    assert!(parse_worker_count("-1", None).is_err());
    assert!(parse_worker_count("Auto", None).is_err());
}

#[test]
fn auto_workers_follow_available_parallelism() {
    assert_eq!(parse_worker_count("auto", Some(3)), Ok(3));
    assert_eq!(parse_worker_count("auto", Some(64)), Ok(MAX_AUTO_WORKERS));
    assert_eq!(parse_worker_count("auto", None), Ok(auto_worker_count(None)));
}

#[test]
fn unsigned_parse_matches_std() {
    for text in ["0", "7", "+7", "0042", "18446744073709551615", "18446744073709551616", "", "+", "1_000", " 1", "٣"] {
        assert_eq!(parse_usize(text), text.parse::<usize>().ok(), "{text}");
    }
}
