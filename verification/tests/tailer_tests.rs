use avorion_tail::selector::select_latest;
use avorion_tail::tailer::{line_has_marker, re_read, split_lines, TailState};

fn bytes(s: &str) -> Vec<u8> {
    s.as_bytes().to_vec()
}

fn lines_as_strings(lines: &[Vec<u8>]) -> Vec<String> {
    lines.iter().map(|l| String::from_utf8(l.clone()).unwrap()).collect()
}

#[test]
fn split_two_terminated_lines() {
    let out = split_lines(&bytes("a\nb\n"));
    assert_eq!(lines_as_strings(&out), vec!["a", "b"]);
}

#[test]
fn split_unterminated_final_line() {
    let out = split_lines(&bytes("a\nb"));
    assert_eq!(lines_as_strings(&out), vec!["a", "b"]);
}

#[test]
fn split_empty_content_has_no_lines() {
    let out = split_lines(&bytes(""));
    assert!(out.is_empty());
}

#[test]
fn split_lone_newline_is_one_empty_line() {
    let out = split_lines(&bytes("\n"));
    assert_eq!(lines_as_strings(&out), vec![""]);
}

#[test]
fn split_strips_carriage_return_before_newline() {
    let out = split_lines(&bytes("a\r\nb\n"));
    assert_eq!(lines_as_strings(&out), vec!["a", "b"]);
}

#[test]
fn split_keeps_bare_trailing_carriage_return() {
    let out = split_lines(&bytes("a\r"));
    assert_eq!(lines_as_strings(&out), vec!["a\r"]);
}

#[test]
fn marker_found_anywhere_in_line() {
    assert!(line_has_marker(&bytes("<>")));
    assert!(line_has_marker(&bytes("a<>b")));
    assert!(line_has_marker(&bytes("say: <> done")));
    assert!(!line_has_marker(&bytes("")));
    assert!(!line_has_marker(&bytes("<")));
    assert!(!line_has_marker(&bytes("< >")));
    assert!(!line_has_marker(&bytes("><")));
}

#[test]
fn re_read_emits_matching_lines_in_file_order() {
    let (n, out) = re_read(&bytes("one<>\nplain\ntwo<>\n"), 0);
    assert_eq!(n, 3);
    assert_eq!(lines_as_strings(&out), vec!["one<>", "two<>"]);
}

#[test]
fn re_read_skips_consumed_lines() {
    let (n, out) = re_read(&bytes("old<>\nnew<>\n"), 1);
    assert_eq!(n, 3);
    assert_eq!(lines_as_strings(&out), vec!["new<>"]);
}

#[test]
fn re_read_filters_out_lines_without_marker() {
    let (n, out) = re_read(&bytes("plain\nstill plain\n"), 0);
    assert_eq!(n, 2);
    assert!(out.is_empty());
}

#[test]
fn re_read_of_empty_content_changes_nothing() {
    let (n, out) = re_read(&bytes(""), 5);
    assert_eq!(n, 5);
    assert!(out.is_empty());
}

#[test]
fn re_read_with_count_past_end_emits_nothing() {
    let (n, out) = re_read(&bytes("late<>\n"), 5);
    assert_eq!(n, 6);
    assert!(out.is_empty());
}

#[test]
fn consumed_count_drifts_on_duplicate_notification() {
    let content = bytes("x<>\ny<>\n");
    let (n1, out1) = re_read(&content, 0);
    assert_eq!(n1, 2);
    assert_eq!(out1.len(), 2);
    let (n2, out2) = re_read(&content, n1);
    assert_eq!(n2, 4);
    assert!(out2.is_empty());
    assert!(n2 > 2);
}

#[test]
fn drifted_count_swallows_an_appended_matching_line() {
    let mut state = TailState::new();
    let content = bytes("x<>\ny<>\n");
    let first = state.observe(&content);
    assert_eq!(first.len(), 2);
    let second = state.observe(&content);
    assert!(second.is_empty());
    assert_eq!(state.consumed, 4);
    let grown = bytes("x<>\ny<>\nz<>\n");
    let third = state.observe(&grown);
    assert!(third.is_empty());
    assert_eq!(state.consumed, 7);
}

#[test]
fn tail_state_starts_at_zero_and_never_decreases() {
    let mut state = TailState::new();
    assert_eq!(state.consumed, 0);
    let mut last = 0u64;
    for content in ["a\n", "a\nb\n", ""] {
        state.observe(&bytes(content));
        assert!(state.consumed >= last);
        last = state.consumed;
    }
}

#[test]
fn scenario_select_then_tail() {
    let files = vec![
        "clientlog_2023-01-01 00-00-00.log".to_string(),
        "clientlog_2023-01-02 00-00-00.log".to_string(),
    ];
    let picked = select_latest(&files, "clientlog").unwrap().unwrap();
    assert_eq!(picked, "clientlog_2023-01-02 00-00-00.log");
    let content = bytes("a<>\nb\nc<>\n");
    let (n1, out1) = re_read(&content, 0);
    assert_eq!(lines_as_strings(&out1), vec!["a<>", "c<>"]);
    assert_eq!(n1, 3);
    let grown = bytes("a<>\nb\nc<>\nd<>\n");
    let (n2, out2) = re_read(&grown, n1);
    assert_eq!(lines_as_strings(&out2), vec!["d<>"]);
    assert_eq!(n2, 7);
}
