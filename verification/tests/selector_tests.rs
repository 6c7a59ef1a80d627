use avorion_tail::selector::{select_latest, SelectError};

fn names(list: &[&str]) -> Vec<String> {
    list.iter().map(|s| s.to_string()).collect()
}

#[test]
fn selector_picks_newer_of_two_distinct_timestamps() {
    let files = names(&[
        "clientlog_2023-01-01 00-00-00.log",
        "clientlog_2023-06-01 00-00-00.log",
    ]);
    let r = select_latest(&files, "clientlog");
    assert_eq!(r, Ok(Some("clientlog_2023-06-01 00-00-00.log".to_string())));
}

#[test]
fn selector_picks_newest_regardless_of_listing_order() {
    let files = names(&[
        "clientlog_2024-01-01 00-00-00.log",
        "clientlog_2023-01-01 00-00-00.log",
        "clientlog_2023-12-31 23-59-59.log",
    ]);
    let r = select_latest(&files, "clientlog");
    assert_eq!(r, Ok(Some("clientlog_2024-01-01 00-00-00.log".to_string())));
}

#[test]
fn selector_orders_within_one_day_by_time_fields() {
    let files = names(&[
        "clientlog_2023-05-05 10-00-59.log",
        "clientlog_2023-05-05 10-01-00.log",
        "clientlog_2023-05-05 09-59-59.log",
    ]);
    let r = select_latest(&files, "clientlog");
    assert_eq!(r, Ok(Some("clientlog_2023-05-05 10-01-00.log".to_string())));
}

#[test]
fn selector_keeps_last_of_equal_timestamps() {
    let files = names(&[
        "clientlog_2023-01-01 00-00-00.first",
        "clientlog_2023-01-01 00-00-00.second",
    ]);
    let r = select_latest(&files, "clientlog");
    assert_eq!(r, Ok(Some("clientlog_2023-01-01 00-00-00.second".to_string())));
}

#[test]
fn selector_returns_empty_when_nothing_matches_prefix() {
    let files = names(&["server.log", "notes.txt", "client.cfg"]);
    let r = select_latest(&files, "clientlog");
    assert_eq!(r, Ok(None));
}

#[test]
fn selector_returns_empty_on_empty_directory() {
    let files: Vec<String> = Vec::new();
    let r = select_latest(&files, "clientlog");
    assert_eq!(r, Ok(None));
}

#[test]
fn selector_ignores_non_matching_names_even_if_malformed() {
    let files = names(&["short", "clientlog_2023-01-01 00-00-00.log"]);
    let r = select_latest(&files, "clientlog");
    assert_eq!(r, Ok(Some("clientlog_2023-01-01 00-00-00.log".to_string())));
}

#[test]
fn selector_rejects_matching_name_too_short_for_window() {
    let files = names(&["clientlog_short", "clientlog_2023-01-01 00-00-00.log"]);
    let r = select_latest(&files, "clientlog");
    assert_eq!(r, Err(SelectError::NameTooShort("clientlog_short".to_string())));
}

#[test]
fn selector_rejects_matching_name_with_unparsable_window() {
    let files = names(&["clientlog_9999-99-99 99-99-99.log"]);
    let r = select_latest(&files, "clientlog");
    assert_eq!(
        r,
        Err(SelectError::BadTimestamp("clientlog_9999-99-99 99-99-99.log".to_string()))
    );
}

#[test]
fn selector_reports_first_malformed_candidate() {
    let files = names(&[
        "clientlog_2023-01-01 00-00-00.log",
        "clientlog_bad timestamp here.log",
        "clientlog_tiny",
    ]);
    let r = select_latest(&files, "clientlog");
    assert_eq!(
        r,
        Err(SelectError::BadTimestamp("clientlog_bad timestamp here.log".to_string()))
    );
}

#[test]
fn selector_rejects_window_with_wrong_separators() {
    let files = names(&["clientlog_2023-01-01 00:00:00.log"]);
    let r = select_latest(&files, "clientlog");
    assert_eq!(
        r,
        Err(SelectError::BadTimestamp("clientlog_2023-01-01 00:00:00.log".to_string()))
    );
}
