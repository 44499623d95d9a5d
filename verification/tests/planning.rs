use fileserve::handler::plan_request;
use fileserve::handler::RequestAction;

#[test]
fn empty_read_plans_nothing() {
    let plan = plan_request(b"");
    assert_eq!(plan.echo, None);
    assert!(matches!(plan.action, RequestAction::Ignore));
}

#[test]
fn request_with_path_plans_a_file() {
    let plan = plan_request(b"GET /index.html HTTP/1.1");
    assert_eq!(plan.echo, Some(String::from("GET /index.html HTTP/1.1")));
    match plan.action {
        RequestAction::ServeFile(path) => assert_eq!(path, b"index.html".to_vec()),
        RequestAction::Ignore => panic!("expected a file to serve"),
    }
}

#[test]
fn request_without_path_is_echoed_only() {
    let plan = plan_request(b"hello");
    assert_eq!(plan.echo, Some(String::from("hello")));
    assert!(matches!(plan.action, RequestAction::Ignore));
}

#[test]
fn invalid_utf8_is_replaced_in_the_echo() {
    let plan = plan_request(&[0xff, b'a']);
    assert_eq!(plan.echo, Some(String::from("\u{fffd}a")));
    assert!(matches!(plan.action, RequestAction::Ignore));
}

#[test]
fn plan_names_the_file_whether_or_not_it_exists() {
    // The plan only names the file; opening it, and failing when it is
    // absent, is the binary's side of the split.
    let plan = plan_request(b"GET /missing.txt HTTP/1.1");
    match plan.action {
        RequestAction::ServeFile(path) => assert_eq!(path, b"missing.txt".to_vec()),
        RequestAction::Ignore => panic!("expected a file to serve"),
    }
}

#[test]
fn path_bytes_are_taken_from_the_raw_request() {
    let plan = plan_request(b"GET /logs/today.txt HTTP/1.1\r\n");
    match plan.action {
        RequestAction::ServeFile(path) => assert_eq!(path, b"logs/today.txt".to_vec()),
        RequestAction::Ignore => panic!("expected a file to serve"),
    }
}
