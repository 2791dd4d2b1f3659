//! Live preview: the HTML page and the answer to each request path.

use vstd::prelude::*;
use crate::theme::Theme;
use crate::text::{chars_of, split_char, split_char_slice, seqs, str_eq, string_from, string_of};

verus! {

/// The preview page of `name` in `theme`: it polls `/svg` every second.
pub open spec fn preview_page(name: Seq<char>, bg: Seq<char>, fg: Seq<char>) -> Seq<char> {
    "<!DOCTYPE html>\n<html lang=\"en\">\n<head>\n  <meta charset=\"utf-8\">\n  <meta name=\"viewport\" content=\"width=device-width, initial-scale=1\">\n  <title>diagram \u{2014} "@ + name + "</title>\n  <style>\n    * { box-sizing: border-box; }\n    body {\n      margin: 0;\n      min-height: 100vh;\n      background: "@ + bg + ";\n      color: "@ + fg + ";\n      font-family: ui-sans-serif, system-ui, sans-serif;\n      display: flex;\n      flex-direction: column;\n    }\n    header {\n      padding: 0.75rem 1.25rem;\n      border-bottom: 1px solid "@ + fg + "33;\n      font-size: 0.875rem;\n      display: flex;\n      justify-content: space-between;\n      align-items: center;\n    }\n    #stage {\n      flex: 1;\n      display: flex;\n      align-items: center;\n      justify-content: center;\n      padding: 1.5rem;\n      overflow: auto;\n    }\n    #stage svg { max-width: 100%; height: auto; }\n    #error { color: #f87171; white-space: pre-wrap; max-width: 40rem; }\n  </style>\n</head>\n<body>\n  <header>\n    <span>"@ + name + "</span>\n    <span id=\"status\">loading\u{2026}</span>\n  </header>\n  <div id=\"stage\"><div id=\"error\"></div></div>\n  <script>\n    const stage = document.getElementById('stage');\n    const status = document.getElementById('status');\n    async function refresh() {\n      try {\n        const r = await fetch('/svg');\n        const text = await r.text();\n        if (!r.ok) {\n          stage.innerHTML = '<div id=\"error\"></div>';\n          document.getElementById('error').textContent = text;\n          status.textContent = 'error';\n          return;\n        }\n        stage.innerHTML = text;\n        status.textContent = 'live';\n      } catch (e) {\n        status.textContent = 'disconnected';\n      }\n    }\n    refresh();\n    setInterval(refresh, 1000);\n  </script>\n</body>\n</html>\n"@
}

pub open spec fn theme_bg(t: Theme) -> Seq<char> {
    match t {
        Theme::Dark => "#1a1a2e"@,
        Theme::Light => "#ffffff"@,
    }
}

pub open spec fn theme_fg(t: Theme) -> Seq<char> {
    match t {
        Theme::Dark => "#94a3b8"@,
        Theme::Light => "#64748b"@,
    }
}

/// HTML shell that polls `/svg` for live updates.
pub fn preview_html(file_name: &str, theme: Theme) -> (r: String)
    ensures
        r@ == preview_page(file_name@, theme_bg(theme), theme_fg(theme)),
{
    let name = file_name;
    let bg = theme.background();
    let fg = theme.muted();
    let mut out = String::new();
    out.append("<!DOCTYPE html>\n<html lang=\"en\">\n<head>\n  <meta charset=\"utf-8\">\n  <meta name=\"viewport\" content=\"width=device-width, initial-scale=1\">\n  <title>diagram \u{2014} ");
    out.append(name);
    out.append("</title>\n  <style>\n    * { box-sizing: border-box; }\n    body {\n      margin: 0;\n      min-height: 100vh;\n      background: ");
    out.append(bg);
    out.append(";\n      color: ");
    out.append(fg);
    out.append(";\n      font-family: ui-sans-serif, system-ui, sans-serif;\n      display: flex;\n      flex-direction: column;\n    }\n    header {\n      padding: 0.75rem 1.25rem;\n      border-bottom: 1px solid ");
    out.append(fg);
    out.append("33;\n      font-size: 0.875rem;\n      display: flex;\n      justify-content: space-between;\n      align-items: center;\n    }\n    #stage {\n      flex: 1;\n      display: flex;\n      align-items: center;\n      justify-content: center;\n      padding: 1.5rem;\n      overflow: auto;\n    }\n    #stage svg { max-width: 100%; height: auto; }\n    #error { color: #f87171; white-space: pre-wrap; max-width: 40rem; }\n  </style>\n</head>\n<body>\n  <header>\n    <span>");
    out.append(name);
    out.append("</span>\n    <span id=\"status\">loading\u{2026}</span>\n  </header>\n  <div id=\"stage\"><div id=\"error\"></div></div>\n  <script>\n    const stage = document.getElementById('stage');\n    const status = document.getElementById('status');\n    async function refresh() {\n      try {\n        const r = await fetch('/svg');\n        const text = await r.text();\n        if (!r.ok) {\n          stage.innerHTML = '<div id=\"error\"></div>';\n          document.getElementById('error').textContent = text;\n          status.textContent = 'error';\n          return;\n        }\n        stage.innerHTML = text;\n        status.textContent = 'live';\n      } catch (e) {\n        status.textContent = 'disconnected';\n      }\n    }\n    refresh();\n    setInterval(refresh, 1000);\n  </script>\n</body>\n</html>\n");
    out
}


/// What a request path asks for.
#[derive(Clone, Copy, Debug, PartialEq, Eq, Structural)]
pub enum Route {
    Svg,
    Health,
    Index,
    NotFound,
}

/// The route of a request target (query string ignored).
pub open spec fn route_of(target: Seq<char>) -> Route {
    let path = split_char(target, '?')[0];
    if path == "/svg"@ {
        Route::Svg
    } else if path == "/health"@ {
        Route::Health
    } else if path == "/"@ || path == "/index.html"@ {
        Route::Index
    } else {
        Route::NotFound
    }
}

/// The route of a request target.
pub fn request_route(request_path: &str) -> (r: Route)
    ensures
        r == route_of(request_path@),
{
    let cs = chars_of(request_path);
    let parts = split_char_slice(cs.as_slice(), '?');
    proof { crate::text::lemma_split_char_nonempty(cs@, '?'); }
    assert(seqs(parts@)[0] == parts@[0]@);
    let p = string_of(parts[0].as_slice());
    let w = p.as_str();
    if str_eq(w, "/svg") {
        Route::Svg
    } else if str_eq(w, "/health") {
        Route::Health
    } else if str_eq(w, "/") || str_eq(w, "/index.html") {
        Route::Index
    } else {
        Route::NotFound
    }
}

/// The last path component that names something (empty and `.` parts skipped).
pub open spec fn last_component(parts: Seq<Seq<char>>) -> Option<Seq<char>>
    decreases parts.len(),
{
    if parts.len() == 0 {
        None
    } else if parts.last().len() == 0 || parts.last() == "."@ {
        last_component(parts.drop_last())
    } else {
        Some(parts.last())
    }
}

/// The file name shown for a path: its last component, or the whole path when
/// that is `..` or there is none.
pub open spec fn shown_name(path: Seq<char>) -> Seq<char> {
    match last_component(split_char(path, '/')) {
        Some(c) => if c == ".."@ { path } else { c },
        None => path,
    }
}

fn shown_name_exec(path: &str) -> (r: String)
    ensures
        r@ == shown_name(path@),
{
    let cs = chars_of(path);
    let parts = split_char_slice(cs.as_slice(), '/');
    let ghost pv = seqs(parts@);
    let dot = chars_of(".");
    let mut k = parts.len();
    assert(pv.take(k as int) =~= pv);
    while k > 0 && (parts[k - 1].len() == 0 || crate::text::eq_slice(parts[k - 1].as_slice(), dot.as_slice()))
        invariant
            k <= parts@.len(),
            pv == seqs(parts@),
            dot@ == "."@,
            last_component(pv) == last_component(pv.take(k as int)),
        decreases k,
    {
        assert(pv.take(k as int).last() == parts@[k - 1]@);
        assert(pv.take(k as int).drop_last() =~= pv.take(k - 1));
        k = k - 1;
    }
    if k == 0 {
        assert(pv.take(0) =~= Seq::<Seq<char>>::empty());
        return string_from(path);
    }
    assert(pv.take(k as int).last() == parts@[k - 1]@);
    let last = parts[k - 1].as_slice();
    if crate::text::eq_slice(last, chars_of("..").as_slice()) {
        string_from(path)
    } else {
        string_of(last)
    }
}

/// The answer to a request: status, content type and body. `svg` is the
/// rendering of the previewed file (read only for `/svg`).
pub fn route(request_path: &str, file_path: &str, theme: Theme, svg: Result<String, String>) -> (r: (&'static str, &'static str, String))
    ensures
        match route_of(request_path@) {
            Route::Svg => match svg {
                Ok(s) => r.0@ == "200 OK"@ && r.1@ == "image/svg+xml; charset=utf-8"@ && r.2@ == s@,
                Err(e) => r.0@ == "500 Internal Server Error"@ && r.1@ == "text/plain; charset=utf-8"@ && r.2@ == e@,
            },
            Route::Health => r.0@ == "200 OK"@ && r.1@ == "text/plain; charset=utf-8"@ && r.2@ == "ok"@,
            Route::Index => r.0@ == "200 OK"@ && r.1@ == "text/html; charset=utf-8"@
                && r.2@ == preview_page(shown_name(file_path@), theme_bg(theme), theme_fg(theme)),
            Route::NotFound => r.0@ == "404 Not Found"@ && r.1@ == "text/plain; charset=utf-8"@ && r.2@ == "not found"@,
        },
{
    match request_route(request_path) {
        Route::Svg => match svg {
            Ok(s) => ("200 OK", "image/svg+xml; charset=utf-8", s),
            Err(e) => ("500 Internal Server Error", "text/plain; charset=utf-8", e),
        },
        Route::Health => ("200 OK", "text/plain; charset=utf-8", string_from("ok")),
        Route::Index => {
            let name = shown_name_exec(file_path);
            ("200 OK", "text/html; charset=utf-8", preview_html(name.as_str(), theme))
        },
        Route::NotFound => ("404 Not Found", "text/plain; charset=utf-8", string_from("not found")),
    }
}

/// The HTTP response bytes' text: status line, headers, blank line, body
/// (`Content-Length` is the body's length in UTF-8 bytes).
pub fn http_head(status: &str, content_type: &str, body_len: usize) -> (r: String)
    ensures
        r@ == "HTTP/1.1 "@ + status@ + "\r\nContent-Type: "@ + content_type@ + "\r\nContent-Length: "@
            + crate::text::decimal(body_len as nat) + "\r\nConnection: close\r\nCache-Control: no-store\r\n\r\n"@,
{
    let mut h = string_from("HTTP/1.1 ");
    h.append(status);
    h.append("\r\nContent-Type: ");
    h.append(content_type);
    h.append("\r\nContent-Length: ");
    crate::text::push_decimal(&mut h, body_len);
    h.append("\r\nConnection: close\r\nCache-Control: no-store\r\n\r\n");
    h
}

} // verus!
