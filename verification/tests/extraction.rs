use fileserve::extract::extract_file_path;
use fileserve::extract::find_sub;

#[test]
fn extracts_simple_path() {
    let r = extract_file_path(b"GET /index.html HTTP/1.1");
    assert_eq!(r, Some(b"index.html".to_vec()));
}

#[test]
fn strips_all_leading_slashes() {
    let r = extract_file_path(b"GET ///a.txt HTTP/1.1");
    assert_eq!(r, Some(b"a.txt".to_vec()));
}

#[test]
fn missing_get_marker_yields_no_path() {
    assert_eq!(extract_file_path(b"POST /x HTTP/1.1"), None);
}

#[test]
fn missing_http_marker_yields_no_path() {
    assert_eq!(extract_file_path(b"GET /x HTTP/1.0"), None);
}

#[test]
fn lowercase_method_is_not_recognized() {
    assert_eq!(extract_file_path(b"get /x HTTP/1.1"), None);
}

#[test]
fn empty_input_yields_no_path() {
    assert_eq!(extract_file_path(b""), None);
}

#[test]
fn closing_marker_before_opening_yields_no_path() {
    assert_eq!(extract_file_path(b" HTTP/1.1 GET /x"), None);
}

#[test]
fn closing_marker_overlapping_opening_yields_no_path() {
    // The first ` HTTP/1.1` starts at the space inside `GET `, one byte
    // before the path would begin: the range is inverted.
    assert_eq!(extract_file_path(b"GET HTTP/1.1x HTTP/1.1"), None);
}

#[test]
fn adjacent_markers_yield_empty_path() {
    assert_eq!(extract_file_path(b"GET  HTTP/1.1"), Some(Vec::new()));
}

#[test]
fn path_of_only_slashes_yields_empty_path() {
    assert_eq!(extract_file_path(b"GET /// HTTP/1.1"), Some(Vec::new()));
}

#[test]
fn only_first_markers_delimit_the_path() {
    let r = extract_file_path(b"GET /a GET b HTTP/1.1 HTTP/1.1");
    assert_eq!(r, Some(b"a GET b".to_vec()));
}

#[test]
fn surrounding_text_is_ignored() {
    let r = extract_file_path(b"xx GET /pic.png HTTP/1.1\r\nHost: h\r\n");
    assert_eq!(r, Some(b"pic.png".to_vec()));
}

#[test]
fn interior_slashes_are_kept() {
    let r = extract_file_path(b"GET /dir/leaf.txt HTTP/1.1");
    assert_eq!(r, Some(b"dir/leaf.txt".to_vec()));
}

#[test]
fn find_sub_returns_first_occurrence() {
    assert_eq!(find_sub(b"abcabc", b"bc"), Some(1));
}

#[test]
fn find_sub_misses_absent_pattern() {
    assert_eq!(find_sub(b"abcabc", b"zz"), None);
}

#[test]
fn find_sub_finds_empty_pattern_at_start() {
    assert_eq!(find_sub(b"abc", b""), Some(0));
}

#[test]
fn find_sub_needs_room_for_the_pattern() {
    assert_eq!(find_sub(b"ab", b"abc"), None);
}
