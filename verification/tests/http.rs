use lucifer::http::request::{match_method, Values};
use lucifer::http::response::{decimal_string, map_status_message};
use lucifer::http::{ContentType, Method, Response};

fn parse(bytes: &[u8]) -> Option<lucifer::http::Request> {
    Values::new(bytes).map(|v| v.into_request())
}

#[test]
fn parses_request_line_headers_and_body() {
    let raw = b"GET /index.html HTTP/1.1\r\nHost: example.org\r\nAccept: */*\r\n\r\nhello\0\0\0";
    let req = parse(raw).expect("request parses");
    assert_eq!(req.method, Method::GET);
    assert_eq!(req.target, "/index.html");
    assert_eq!(req.options.get("Host").unwrap(), " example.org");
    assert_eq!(req.options.get("Accept").unwrap(), " */*");
    assert!(req.options.get("host").is_none());
    assert_eq!(req.body, b"hello".to_vec());
}

#[test]
fn body_keeps_inner_zeros() {
    let req = parse(b"POST /a HTTP/1.1\r\n\r\na\0b\0\0").unwrap();
    assert_eq!(req.method, Method::POST);
    assert_eq!(req.body, b"a\0b".to_vec());
}

#[test]
fn unknown_method_is_refused() {
    assert!(parse(b"FETCH / HTTP/1.1\r\n\r\n").is_none());
}

#[test]
fn request_line_without_second_space_is_refused() {
    assert!(parse(b"GET /\r\n\r\n").is_none());
}

#[test]
fn request_line_without_space_is_refused() {
    assert!(parse(b"GET\r\n\r\n").is_none());
}

#[test]
fn buffer_without_line_break_is_get_of_empty_target() {
    let req = parse(b"abc").unwrap();
    assert_eq!(req.method, Method::GET);
    assert_eq!(req.target, "");
    assert_eq!(req.body, b"bc".to_vec());
}

#[test]
fn later_header_replaces_earlier_one() {
    let req = parse(b"PUT /x HTTP/1.1\r\nA: 1\r\nno colon here\r\nA: 2\r\n\r\n").unwrap();
    assert_eq!(req.method, Method::PUT);
    assert_eq!(req.options.get("A").unwrap(), " 2");
    assert!(req.options.get("no colon here").is_none());
}

#[test]
fn header_value_keeps_further_colons() {
    let req = parse(b"GET / HTTP/1.1\r\nHost: a:80\r\n\r\n").unwrap();
    assert_eq!(req.options.get("Host").unwrap(), " a:80");
}

#[test]
fn utf8_target_is_decoded() {
    let req = parse("GET /caf\u{e9} HTTP/1.1\r\n\r\n".as_bytes()).unwrap();
    assert_eq!(req.target, "/caf\u{e9}");
}

#[test]
fn invalid_utf8_is_replaced() {
    let req = parse(b"GET /a\xffb HTTP/1.1\r\n\r\n").unwrap();
    assert_eq!(req.target, "/a\u{fffd}b");
}

#[test]
fn head_without_blank_line_has_body_from_second_byte() {
    let req = parse(b"DELETE /d HTTP/1.1\r\nX: y\r\n").unwrap();
    assert_eq!(req.method, Method::DELETE);
    assert_eq!(req.target, "/d");
    assert_eq!(req.options.get("X").unwrap(), " y");
    assert_eq!(req.body, b"ELETE /d HTTP/1.1\r\nX: y\r\n".to_vec());
}

#[test]
fn body_accessor() {
    let v = Values::new(b"GET / HTTP/1.1\r\n\r\nxyz").unwrap();
    assert_eq!(v.body(), &b"xyz".to_vec());
}

#[test]
fn methods_by_name() {
    assert_eq!(match_method("GET"), Some(Method::GET));
    assert_eq!(match_method("POST"), Some(Method::POST));
    assert_eq!(match_method("PUT"), Some(Method::PUT));
    assert_eq!(match_method("PATCH"), Some(Method::PATCH));
    assert_eq!(match_method("DELETE"), Some(Method::DELETE));
    assert_eq!(match_method("HEAD"), Some(Method::HEAD));
    assert_eq!(match_method("TRACE"), Some(Method::TRACE));
    assert_eq!(match_method("OPTIONS"), Some(Method::OPTIONS));
    assert_eq!(match_method("CONNECT"), Some(Method::CONNECT));
    assert_eq!(match_method("get"), None);
    assert_eq!(match_method(""), None);
}

#[test]
fn content_types() {
    assert_eq!(ContentType::HTML.to_str(), "text/html");
    assert_eq!(ContentType::JS.to_str(), "text/javascript");
    assert_eq!(ContentType::JSON.to_str(), "application/json");
    assert_eq!(ContentType::CSS.to_str(), "text/css");
    assert_eq!(ContentType::ICO.to_str(), "image/vnd.microsoft.icon");
    assert_eq!(ContentType::PLAIN.to_str(), "text/plain");
    assert_eq!(ContentType::JSON.to_header(), "Content-Type: application/json");
}

#[test]
fn status_messages() {
    assert_eq!(map_status_message(200), "OK");
    assert_eq!(map_status_message(404), "Not Found");
    assert_eq!(map_status_message(418), "I'm a teapot");
    assert_eq!(map_status_message(599), "Network Connect Timeout Error");
    assert_eq!(map_status_message(299), "");
    assert_eq!(map_status_message(0), "");
}

#[test]
fn decimal_notation() {
    assert_eq!(decimal_string(0), "0");
    assert_eq!(decimal_string(7), "7");
    assert_eq!(decimal_string(404), "404");
    assert_eq!(decimal_string(u32::MAX), "4294967295");
}

#[test]
fn new_response() {
    let r = Response::new();
    assert_eq!(r.status, 200);
    assert!(r.fields.is_empty());
    assert!(r.body.is_empty());
    assert_eq!(r.content_type, ContentType::HTML);
}

#[test]
fn render_head() {
    let mut r = Response::new();
    r.set_status(404).add_header(String::from("Server: lucifer"));
    r.add_header(ContentType::PLAIN.to_header());
    r.send_message("gone");
    assert_eq!(
        r.render(),
        "HTTP/1.1 404 Not Found\r\nServer: lucifer\r\nContent-Type: text/plain\r\n\r\n"
    );
}

#[test]
fn bytes_for_the_wire() {
    let mut r = Response::new();
    r.add_header(String::from("A: b"));
    r.send_message("h\u{e9}");
    assert_eq!(r.to_bytes(), "HTTP/1.1 200 OK\r\nA: b\r\nh\u{e9}".as_bytes().to_vec());
}

#[test]
fn status_without_message() {
    let mut r = Response::new();
    r.set_status(299);
    assert_eq!(r.render(), "HTTP/1.1 299 \r\n\r\n");
    assert_eq!(r.to_bytes(), b"HTTP/1.1 299 \r\n".to_vec());
}

#[test]
fn send_message_replaces_body() {
    let mut r = Response::new();
    r.send_message("first");
    r.send_message("second");
    assert_eq!(r.body, b"second".to_vec());
}

#[test]
fn wire_bytes_follow_render() {
    let mut r = Response::new();
    r.set_status(201);
    r.add_header(String::from("Location: /x"));
    r.send_message("made");
    let rendered = r.render().into_bytes();
    let head = &rendered[..rendered.len() - 2];
    assert_eq!(&rendered[rendered.len() - 2..], b"\r\n");
    let mut expected = head.to_vec();
    expected.extend_from_slice(b"made");
    assert_eq!(r.to_bytes(), expected);
}
