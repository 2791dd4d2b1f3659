use diagram::preview::{http_head, preview_html, request_route, route, Route};
use diagram::theme::Theme;

#[test]
fn preview_html_includes_poll_script() {
    let html = preview_html("demo.mmd", Theme::Dark);
    assert!(html.contains("fetch('/svg')"));
    assert!(html.contains("demo.mmd"));
    assert!(html.contains("#1a1a2e"));
}

#[test]
fn route_health() {
    let (status, ctype, body) = route("/health", "x.mmd", Theme::Dark, Ok(String::new()));
    assert_eq!(status, "200 OK");
    assert!(ctype.contains("text/plain"));
    assert_eq!(body, "ok");
}

#[test]
fn route_404() {
    let (status, _, body) = route("/nope", "x.mmd", Theme::Dark, Ok(String::new()));
    assert_eq!(status, "404 Not Found");
    assert_eq!(body, "not found");
}

#[test]
fn route_svg_missing_file() {
    let read_error = "Failed to read '/nonexistent/path.mmd': No such file or directory".to_string();
    let (status, _, body) = route("/svg", "/nonexistent/path.mmd", Theme::Dark, Err(read_error));
    assert_eq!(status, "500 Internal Server Error");
    assert!(body.contains("Failed to read"));
}

#[test]
fn index_and_query_strings() {
    assert_eq!(request_route("/svg?t=123"), Route::Svg);
    assert_eq!(request_route("/index.html"), Route::Index);
    assert_eq!(request_route("/healthz"), Route::NotFound);
    let (status, ctype, body) = route("/", "docs/flow.mmd", Theme::Light, Ok(String::new()));
    assert_eq!(status, "200 OK");
    assert_eq!(ctype, "text/html; charset=utf-8");
    assert_eq!(body, preview_html("flow.mmd", Theme::Light));
    assert!(body.contains("<title>diagram \u{2014} flow.mmd</title>"));
    let (_, _, body) = route("/", "../", Theme::Dark, Ok(String::new()));
    assert_eq!(body, preview_html("../", Theme::Dark));
    assert_eq!(
        http_head("200 OK", "text/plain", 2),
        "HTTP/1.1 200 OK\r\nContent-Type: text/plain\r\nContent-Length: 2\r\nConnection: close\r\nCache-Control: no-store\r\n\r\n"
    );
}
