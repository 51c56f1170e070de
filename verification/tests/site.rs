use mazu::site::{is_terminal, route, FAVICON, TEXT_HOME};

#[test]
fn terminals_get_text_browsers_get_html() {
    let (status, ctype, body) = route("/", "curl/8.4.0");
    assert_eq!((status, ctype, body.as_str()), (200, "text/plain; charset=utf-8", TEXT_HOME));
    let (_, ctype, body) = route("/", "Mozilla/5.0");
    assert_eq!(ctype, "text/html; charset=utf-8");
    assert!(body.starts_with("<!doctype html>"));
    let (_, ctype, _) = route("/", "");
    assert_eq!(ctype, "text/plain; charset=utf-8");
}

#[test]
fn user_agents_are_matched_ignoring_case() {
    assert!(is_terminal("Wget/1.21"));
    assert!(is_terminal("HTTPie/3"));
    assert!(is_terminal("Mozilla/5.0 (Windows NT; Windows NT 10.0) WindowsPowerShell/5.1"));
    assert!(!is_terminal("Mozilla/5.0 (X11; Linux x86_64)"));
}

#[test]
fn other_paths() {
    assert_eq!(route("/favicon.ico", "x"), (200, "image/svg+xml; charset=utf-8", FAVICON.to_string()));
    assert_eq!(route("/favicon.svg", "x").2, FAVICON);
    assert_eq!(route("/healthz", "x"), (200, "application/json; charset=utf-8", "{\"ok\":true}".to_string()));
    assert_eq!(route("/nope", "curl"), (404, "text/plain; charset=utf-8", "此路無廟\n".to_string()));
}
