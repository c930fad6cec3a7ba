use http_server::request::HttpRequest;
use http_server::request_text;
use http_server::response::HttpResponse;
use http_server::{HandlerChoice, HttpServer};

type Handler = Box<dyn Fn(&mut HttpResponse, &HttpRequest)>;

fn server() -> HttpServer<Handler> {
    let mut server: HttpServer<Handler> = HttpServer::new(String::from("localhost"), 8080);
    server.get(String::from("/"), Box::new(|r: &mut HttpResponse, _q: &HttpRequest| r.send(String::from("home"))));
    server.get_with_variables(
        String::from("/user/{user}?{pass}?"),
        Box::new(|r: &mut HttpResponse, _q: &HttpRequest| {
            let text = format!("{}:{}", r.get_variable(String::from("{user}")), r.get_variable(String::from("{pass}")));
            r.send(text)
        }),
    );
    server
}

#[test]
fn host_is_ip_and_port() {
    let s = server();
    assert_eq!(s.get_host(), "localhost:8080");
    let t: HttpServer<u8> = HttpServer::new(String::from("0.0.0.0"), 0);
    assert_eq!(t.get_host(), "0.0.0.0:0");
}

#[test]
fn dispatch_picks_first_matching_route() {
    let s = server();
    let mut buf = b"GET / HTTP/1.1\r\nHost: localhost\r\n\r\n".to_vec();
    buf.resize(1024, 0);
    let (req, idx, mut resp) = s.dispatch(&buf).unwrap();
    assert_eq!(req.get_path(), "/");
    assert_eq!(idx, HandlerChoice::Route(0));
    (s.handler(0))(&mut resp, &req);
    assert_eq!(resp.get_http_raw(), "HTTP/1.1 200 OK\r\nContent-Length: 4\r\n\r\nhome");
}

#[test]
fn dispatch_binds_route_variables() {
    let s = server();
    let (req, idx, mut resp) = s.dispatch(b"GET /user/ali?42? HTTP/1.1\r\n").unwrap();
    assert_eq!(idx, HandlerChoice::Route(1));
    assert_eq!(resp.get_variable(String::from("{user}")), "ali");
    assert_eq!(resp.get_variable(String::from("{pass}")), "42");
    (s.handler(1))(&mut resp, &req);
    assert_eq!(resp.get_http_raw(), "HTTP/1.1 200 OK\r\nContent-Length: 6\r\n\r\nali:42");
}

#[test]
fn dispatch_without_match_has_no_route() {
    let mut s = server();
    let (_req, idx, mut resp) = s.dispatch(b"GET /nowhere HTTP/1.1\r\n").unwrap();
    assert_eq!(idx, HandlerChoice::DefaultNotFound);
    assert!(s.not_found_handler().is_none());
    HttpServer::<Handler>::send_default_not_found(&mut resp);
    assert_eq!(resp.get_http_raw(), "HTTP/1.1 200 OK\r\nContent-Length: 3\r\n\r\n404");
    s.not_found_page(Box::new(|r: &mut HttpResponse, _q: &HttpRequest| r.send(String::from("gone"))));
    assert!(s.not_found_handler().is_some());
    let (req, idx, mut resp) = s.dispatch(b"GET /nowhere HTTP/1.1\r\n").unwrap();
    assert_eq!(idx, HandlerChoice::NotFound);
    (s.not_found_handler().unwrap())(&mut resp, &req);
    assert_eq!(resp.get_http_raw(), "HTTP/1.1 200 OK\r\nContent-Length: 4\r\n\r\ngone");
}

#[test]
fn route_variables_read_back_first_value() {
    let mut s: HttpServer<u8> = HttpServer::new(String::from("h"), 1);
    s.get_with_variables(String::from("/{a}/{a}/{b}"), 0);
    let (_req, idx, resp) = s.dispatch(b"GET /x/y/ HTTP/1.1\r\n").unwrap();
    assert_eq!(idx, HandlerChoice::Route(0));
    assert_eq!(resp.get_variable(String::from("{a}")), "x");
    assert_eq!(resp.get_variable(String::from("{b}")), "");
    assert_eq!(resp.get_variable(String::from("{c}")), "");
}

#[test]
fn dispatch_refuses_invalid_utf8() {
    let s = server();
    assert!(s.dispatch(&[0x47, 0xff, 0x20]).is_none());
}

#[test]
fn dispatch_refuses_unparsable_path() {
    let s = server();
    assert!(s.dispatch("GET /\u{e9}%41 HTTP/1.1\r\n".as_bytes()).is_none());
}

#[test]
fn request_text_drops_zero_bytes() {
    assert_eq!(request_text(&[0x61, 0, 0x62, 0, 0]), Some(String::from("ab")));
    assert_eq!(request_text(&[0xc3]), None);
    assert_eq!(request_text(&[]), Some(String::new()));
}

#[test]
fn file_system_of_server_is_shared() {
    let mut s = server();
    s.get_file_system().add_file(String::from("index.html"), Some(b"<h1>x</h1>".to_vec()));
    assert_eq!(s.get_file_system().get_files().len(), 1);
}
