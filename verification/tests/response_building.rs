use std::sync::Arc;

use http_server::file::HttpFile;
use http_server::response::{HttpResponse, HttpVariable};
use http_server::ResponseStatus;

#[test]
fn send_frames_content_with_length() {
    let mut resp = HttpResponse::new();
    resp.send(String::from("hi"));
    assert_eq!(resp.get_http_raw(), "HTTP/1.1 200 OK\r\nContent-Length: 2\r\n\r\nhi");
}

#[test]
fn new_response_has_nothing_to_send() {
    let resp = HttpResponse::new();
    assert_eq!(resp.get_http_raw(), "");
}

#[test]
fn headers_are_joined_and_length_counts_bytes() {
    let mut resp = HttpResponse::new();
    resp.add_header(String::from("Content-Type: text/plain"));
    resp.add_header(String::from("X-A: 1"));
    resp.send(String::from("h\u{e9}llo"));
    assert_eq!(
        resp.get_http_raw(),
        "HTTP/1.1 200 OK\r\nContent-Type: text/plain\r\nX-A: 1\r\nContent-Length: 6\r\n\r\nh\u{e9}llo"
    );
}

#[test]
fn status_is_written_in_status_line() {
    let mut resp = HttpResponse::new();
    resp.set_status(ResponseStatus::NotFound);
    resp.send(String::new());
    assert_eq!(resp.get_http_raw(), "HTTP/1.1 404 Not Found\r\nContent-Length: 0\r\n\r\n");
    resp.set_status(ResponseStatus::Custom(String::from("1902 Yeni Bir Hata")));
    resp.send(String::from("x"));
    assert_eq!(resp.get_http_raw(), "HTTP/1.1 1902 Yeni Bir Hata\r\nContent-Length: 1\r\n\r\nx");
}

#[test]
fn status_texts() {
    assert_eq!(ResponseStatus::OK.to_string(), "200 OK");
    assert_eq!(ResponseStatus::NotFound.to_string(), "404 Not Found");
    assert_eq!(ResponseStatus::Custom(String::from("500 Oops")).to_string(), "500 Oops");
}

#[test]
fn later_send_replaces_earlier_one() {
    let mut resp = HttpResponse::new();
    resp.send(String::from("first"));
    resp.send(String::from("second"));
    assert_eq!(resp.get_http_raw(), "HTTP/1.1 200 OK\r\nContent-Length: 6\r\n\r\nsecond");
}

#[test]
fn long_content_length() {
    let mut resp = HttpResponse::new();
    let body = "a".repeat(1234);
    resp.send(body.clone());
    let expected = format!("HTTP/1.1 200 OK\r\nContent-Length: 1234\r\n\r\n{}", body);
    assert_eq!(resp.get_http_raw(), &expected);
}

#[test]
fn send_file_sends_text_of_file() {
    let file = Arc::new(HttpFile::new(String::from("a.html"), Some(b"<p>x</p>".to_vec())).unwrap());
    let mut resp = HttpResponse::new();
    resp.send_file(&file);
    assert_eq!(resp.get_http_raw(), "HTTP/1.1 200 OK\r\nContent-Length: 8\r\n\r\n<p>x</p>");
}

#[test]
fn send_file_with_binary_content_sends_nothing() {
    let file = Arc::new(HttpFile::new(String::from("a.bin"), Some(vec![0xff, 0xfe])).unwrap());
    let mut resp = HttpResponse::new();
    resp.send(String::from("kept"));
    resp.send_file(&file);
    assert_eq!(resp.get_http_raw(), "HTTP/1.1 200 OK\r\nContent-Length: 4\r\n\r\nkept");
}

#[test]
fn first_variable_value_wins() {
    let mut resp = HttpResponse::new();
    resp.add_variabe((String::from("{a}"), String::from("1")));
    resp.add_variabe((String::from("{a}"), String::from("2")));
    assert_eq!(resp.get_variable(String::from("{a}")), "1");
}

#[test]
fn empty_or_missing_variable_reads_empty() {
    let mut resp = HttpResponse::new();
    resp.add_variabe((String::from("{b}"), String::new()));
    assert_eq!(resp.get_variable(String::from("{b}")), "");
    assert_eq!(resp.get_variable(String::from("{c}")), "");
}

#[test]
fn variable_value_is_set_only_when_not_empty() {
    let mut v = HttpVariable::new(String::from("{x}"));
    assert_eq!(v.to_string(), "");
    v.set_value(String::from("val"));
    assert_eq!(v.to_string(), "val");
    v.set_value(String::new());
    assert_eq!(v.to_string(), "");
}
