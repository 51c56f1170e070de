use mazu::counter::Counter;
use mazu::http::{
    bad_request, classify_header, finish_reply, handle, has_flag, headers_only, identity_of,
    parse_request_line, response, route_request, Header, HeaderScan, Route,
};

#[test]
fn flags_parse() {
    assert!(has_flag("nocolor", "nocolor"));
    assert!(has_flag("a=1&nocolor", "nocolor"));
    assert!(has_flag("format=json", "format=json"));
    assert!(!has_flag("", "nocolor"));
    assert!(!has_flag("nocolors=1", "nocolor"));
}

#[test]
fn a_flag_may_carry_a_value() {
    assert!(has_flag("nocolor=1", "nocolor"));
    assert!(!has_flag("format=jsonp", "format=json"));
    assert!(!has_flag("x=format=json", "format=json"));
}

#[test]
fn head_keeps_headers_only() {
    let full = response(200, "text/plain", "hi\n");
    let head = headers_only(&full);
    assert!(head.ends_with(b"\r\n\r\n"));
    assert!(String::from_utf8_lossy(&head).contains("content-length: 3"));
}

#[test]
fn responses_are_exact() {
    let r = response(404, "text/plain; charset=utf-8", "此路無廟\n");
    let expected = "HTTP/1.1 404 Not Found\r\ncontent-type: text/plain; charset=utf-8\r\ncontent-length: 13\r\ncache-control: no-store\r\nconnection: close\r\n\r\n此路無廟\n";
    assert_eq!(String::from_utf8(r).unwrap(), expected);
    let odd = response(302, "text/plain", "");
    assert!(String::from_utf8(odd).unwrap().starts_with("HTTP/1.1 302 OK\r\n"));
    assert!(String::from_utf8(bad_request()).unwrap().starts_with("HTTP/1.1 400 Bad Request\r\n"));
}

#[test]
fn without_a_blank_line_head_is_everything() {
    assert_eq!(headers_only(b"abc\r\n"), b"abc\r\n".to_vec());
    assert_eq!(headers_only(b"a\r\n\r\nb\r\n\r\nc"), b"a\r\n\r\n".to_vec());
}

#[test]
fn routes() {
    assert!(matches!(route_request("POST", "/"), Route::Refused));
    assert!(matches!(route_request("GET", "/healthz"), Route::Health));
    assert!(matches!(route_request("HEAD", "/healthz?x"), Route::Health));
    assert!(matches!(route_request("GET", "/nope"), Route::Missing));
    assert!(matches!(route_request("GET", "/"), Route::Visit { json: false, color: true }));
    assert!(matches!(route_request("GET", "/json"), Route::Visit { json: true, color: true }));
    assert!(matches!(
        route_request("GET", "/?format=json&nocolor"),
        Route::Visit { json: true, color: false }
    ));
}

#[test]
fn identity_prefers_the_first_forwarded_address() {
    assert_eq!(identity_of(Some(" 9.9.9.9 , 8.8.8.8"), "1.1.1.1"), "9.9.9.9");
    assert_eq!(identity_of(Some("  , 8.8.8.8"), "1.1.1.1"), "1.1.1.1");
    assert_eq!(identity_of(None, "1.1.1.1"), "1.1.1.1");
}

#[test]
fn handle_answers_and_counts() {
    let mut c = Counter::open("", "salt".into());
    let refused = String::from_utf8(handle("POST", "/", None, "1.1.1.1", &mut c)).unwrap();
    assert!(refused.starts_with("HTTP/1.1 405 Method Not Allowed\r\n"));
    assert!(refused.ends_with("媽祖只受 GET 之禮\n"));
    let health = String::from_utf8(handle("GET", "/healthz", None, "1.1.1.1", &mut c)).unwrap();
    assert!(health.ends_with("\r\n\r\n{\"ok\":true}\n"));
    assert!(c.take_journal().is_empty());

    let first = String::from_utf8(handle("GET", "/?nocolor", None, "1.1.1.1", &mut c)).unwrap();
    assert!(first.ends_with("\r\n\r\n你是今天第 1 位祭拜媽祖 🙏\n"));
    let again = String::from_utf8(handle("GET", "/", Some("1.1.1.1"), "7.7.7.7", &mut c)).unwrap();
    assert!(again.ends_with("\r\n\r\n\x1b[33m你今天已經拜過了，仍是第 1 位 🙏\x1b[0m\n"));
    let json = String::from_utf8(handle("GET", "/json", None, "2.2.2.2", &mut c)).unwrap();
    assert!(json.contains("\"rank\":2,\"total\":2,\"repeat\":false,\"message\":\"你是今天第 2 位祭拜媽祖 🙏\"}\n"));
    assert_eq!(c.take_journal().len(), 2);
}

#[test]
fn head_requests_get_the_head() {
    let mut c = Counter::open("", "salt".into());
    let full = handle("HEAD", "/healthz", None, "1.1.1.1", &mut c);
    let sent = finish_reply("HEAD", full.clone());
    assert!(sent.ends_with(b"\r\n\r\n"));
    assert!(String::from_utf8_lossy(&sent).contains("content-length: 12"));
    assert_eq!(finish_reply("GET", full.clone()), full);
}

#[test]
fn request_lines_and_headers() {
    let (m, t) = parse_request_line("GET  /json HTTP/1.1\r\n").unwrap();
    assert_eq!((m.as_str(), t.as_str()), ("GET", "/json"));
    assert!(parse_request_line("GET\r\n").is_none());
    assert!(matches!(classify_header("\r\n"), Header::End));
    assert!(matches!(classify_header("Host: x\r\n"), Header::Other));
    assert!(matches!(classify_header("X-Forwarded-FOR:  5.5.5.5 \r\n"), Header::Forwarded(v) if v == "5.5.5.5"));
    assert!(matches!(classify_header("no colon\r\n"), Header::Other));

    let mut scan = HeaderScan::new();
    scan.feed(Some("X-Forwarded-For: 1.1.1.1\r\n"));
    scan.feed(Some("x-forwarded-for: 2.2.2.2\r\n"));
    assert!(scan.wants_more());
    scan.feed(Some("\r\n"));
    assert!(!scan.wants_more());
    assert_eq!(scan.forwarded.as_deref(), Some("2.2.2.2"));
}

#[test]
fn header_reading_stops_after_the_limit() {
    let mut scan = HeaderScan::new();
    for _ in 0..mazu::http::MAX_HEADERS {
        assert!(scan.wants_more());
        scan.feed(Some("A: b\r\n"));
    }
    assert!(!scan.wants_more());
    let mut eof = HeaderScan::new();
    eof.feed(None);
    assert!(!eof.wants_more());
}
