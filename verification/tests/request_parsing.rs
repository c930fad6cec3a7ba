use http_server::request::HttpRequest;
use http_server::HttpMethod;

fn parse(text: &str) -> HttpRequest {
    HttpRequest::parse(&String::from(text)).expect("request should parse")
}

#[test]
fn parses_request_line_host_and_headers() {
    let req = parse("GET /index.html HTTP/1.1\r\nHost: localhost:8080\r\nAccept: */*\r\n\r\n");
    assert_eq!(req.get_method().to_string(), "GET");
    assert!(matches!(req.get_method(), HttpMethod::GET));
    assert_eq!(req.get_path(), "/index.html");
    assert_eq!(req.get_http_version(), "HTTP/1.1");
    assert_eq!(req.get_host(), "localhost:8080");
    assert_eq!(req.get_headers(), &vec![String::from("Accept: */*")]);
}

#[test]
fn new_gives_the_same_request_as_parse() {
    let text = String::from("POST /form HTTP/1.0\nX-A: 1\n");
    let req = HttpRequest::new(&text);
    assert!(matches!(req.get_method(), HttpMethod::POST));
    assert_eq!(req.get_path(), "/form");
    assert_eq!(req.get_http_version(), "HTTP/1.0");
    assert_eq!(req.get_headers(), &vec![String::from("X-A: 1")]);
}

#[test]
fn custom_method_is_kept() {
    let req = parse("PUT /x HTTP/1.1\r\n");
    assert!(matches!(req.get_method(), HttpMethod::Custom(m) if m == "PUT"));
    assert_eq!(req.get_method().to_string(), "PUT");
}

#[test]
fn request_line_without_space_leaves_defaults() {
    let req = parse("GARBAGE\r\nHost: example.org\r\nX: y\r\n");
    assert!(matches!(req.get_method(), HttpMethod::Custom(m) if m.is_empty()));
    assert_eq!(req.get_path(), "");
    assert_eq!(req.get_http_version(), "");
    assert_eq!(req.get_host(), "example.org");
    assert_eq!(req.get_headers(), &vec![String::from("X: y")]);
}

#[test]
fn empty_text_gives_empty_request() {
    let req = parse("");
    assert_eq!(req.get_path(), "");
    assert_eq!(req.get_host(), "");
    assert!(req.get_headers().is_empty());
}

#[test]
fn host_line_without_space_is_kept_whole() {
    let req = parse("GET / HTTP/1.1\r\nHost:abc\r\n");
    assert_eq!(req.get_host(), "Host:abc");
    assert!(req.get_headers().is_empty());
}

#[test]
fn last_host_line_wins_and_empty_lines_are_skipped() {
    let req = parse("\r\n\r\nGET /p HTTP/1.1\r\nHost: a\r\n\r\nHost: b\r\nK: v\r\n");
    assert_eq!(req.get_path(), "/p");
    assert_eq!(req.get_host(), "b");
    assert_eq!(req.get_headers(), &vec![String::from("K: v")]);
}

#[test]
fn carriage_return_without_newline_stays() {
    let req = parse("GET /p HTTP/1.1\nA: b\r");
    assert_eq!(req.get_headers(), &vec![String::from("A: b\r")]);
}

#[test]
fn version_is_longest_suffix_of_version_characters() {
    let req = parse("GET /v1\r\n");
    assert_eq!(req.get_path(), "/v");
    assert_eq!(req.get_http_version(), "1");
    let req = parse("GET /HTTP\r\n");
    assert_eq!(req.get_path(), "");
    assert_eq!(req.get_http_version(), "/HTTP");
}

#[test]
fn path_is_trimmed() {
    let req = parse("GET  /a  HTTP/1.1\r\n");
    assert_eq!(req.get_path(), "/a");
    assert_eq!(req.get_http_version(), "HTTP/1.1");
}

#[test]
fn percent_escape_is_decoded() {
    let req = parse("GET /a%41bc HTTP/1.1\r\n");
    assert_eq!(req.get_path(), "/aAbc");
}

#[test]
fn consecutive_escapes_decode_one_character() {
    let req = parse("GET /x%F0%9F%98%ADyz HTTP/1.1\r\n");
    assert_eq!(req.get_path(), "/x\u{1F62D}yz");
}

#[test]
fn escape_with_bad_hex_is_left_in_place() {
    let req = parse("GET /ab%zzcd HTTP/1.1\r\n");
    assert_eq!(req.get_path(), "/ab%zzcd");
}

#[test]
fn plus_sign_hex_counts_as_digit_sign() {
    let req = parse("GET /ab%+Acd HTTP/1.1\r\n");
    assert_eq!(req.get_path(), "/ab\ncd");
}

#[test]
fn escape_after_multibyte_char_is_refused() {
    let text = String::from("GET /\u{e9}%41 HTTP/1.1\r\n");
    assert!(HttpRequest::parse(&text).is_none());
}

#[test]
fn path_without_escapes_is_unchanged() {
    let req = parse("GET /plain/path.html HTTP/1.1\r\n");
    assert_eq!(req.get_path(), "/plain/path.html");
}

#[test]
fn header_lookup_by_name() {
    let req = parse("GET / HTTP/1.1\r\nAccept: */*\r\nX-Key: a: b\r\n");
    assert_eq!(req.get_header(String::from("Accept")), Some(String::from("*/*")));
    assert_eq!(req.get_header(String::from("Accept:")), Some(String::from("*/*")));
    assert_eq!(req.get_header(String::from("X-Key")), Some(String::from("a: b")));
    assert_eq!(req.get_header(String::from("Missing")), None);
}

#[test]
fn plain_route_matches_equal_path() {
    let req = parse("GET /json HTTP/1.1\r\n");
    let (eq, vars) = req.compare_path(false, String::from("/json"));
    assert!(eq);
    assert!(vars.is_none());
    let (eq, vars) = req.compare_path(false, String::from("/json/"));
    assert!(!eq);
    assert!(vars.is_none());
}

#[test]
fn variable_route_binds_values() {
    let req = parse("GET /user/ali?123? HTTP/1.1\r\n");
    let (eq, vars) = req.compare_path(true, String::from("/user/{user}?{pass}?"));
    assert!(eq);
    assert_eq!(
        vars,
        Some(vec![
            (String::from("{user}"), String::from("ali")),
            (String::from("{pass}"), String::from("123")),
        ])
    );
}

#[test]
fn variable_route_with_missing_piece_does_not_match() {
    let req = parse("GET /admin/x HTTP/1.1\r\n");
    let (eq, vars) = req.compare_path(true, String::from("/user/{user}"));
    assert!(!eq);
    assert!(vars.is_none());
}

#[test]
fn variable_route_without_braces_matches_containing_path() {
    let req = parse("GET /a/b/c HTTP/1.1\r\n");
    let (eq, vars) = req.compare_path(true, String::from("/b/"));
    assert!(eq);
    assert_eq!(vars, Some(vec![]));
}

#[test]
fn variable_gets_empty_value_when_parts_run_out() {
    let req = parse("GET /user/ HTTP/1.1\r\n");
    let (eq, vars) = req.compare_path(true, String::from("/user/{user}"));
    assert!(eq);
    assert_eq!(vars, Some(vec![(String::from("{user}"), String::new())]));
}

#[test]
fn method_names_round_trip() {
    assert!(matches!(HttpMethod::from_string(String::from("GET")), HttpMethod::GET));
    assert!(matches!(HttpMethod::from_string(String::from("POST")), HttpMethod::POST));
    assert!(matches!(HttpMethod::from_string(String::from("get")), HttpMethod::Custom(s) if s == "get"));
    assert_eq!(HttpMethod::from_string(String::from("DELETE")).to_string(), "DELETE");
    assert_eq!(HttpMethod::POST.to_string(), "POST");
}

#[test]
fn path_is_trimmed_of_unicode_white_space() {
    let req = parse("GET \u{3000}/a\u{a0}\u{2009} HTTP/1.1\r\n");
    assert_eq!(req.get_path(), "/a");
    let req = parse("GET \u{200b}/a HTTP/1.1\r\n");
    assert_eq!(req.get_path(), "\u{200b}/a");
}
