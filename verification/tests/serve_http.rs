use dreamfish::serve::{head_complete, is_html, content_type, inject_reload, percent_decode, refusal_response, response_bytes, route_request, Refusal, Route};
use dreamfish::term::{gray, green, paint, red};

#[test]
fn media_types_by_extension() {
    assert_eq!(content_type("index.html"), "text/html; charset=utf-8");
    assert_eq!(content_type("app.mjs"), "text/javascript; charset=utf-8");
    assert_eq!(content_type("font.woff2"), "font/woff2");
    assert_eq!(content_type(".bashrc"), "application/octet-stream");
    assert_eq!(content_type("README"), "application/octet-stream");
    assert_eq!(content_type("archive.tar.gz"), "application/octet-stream");
    assert_eq!(content_type(".."), "application/octet-stream");
    assert_eq!(content_type("x.JSON"), "application/octet-stream");
}

#[test]
fn percent_escapes_and_plus() {
    assert_eq!(percent_decode("a%20b+c"), "a b c");
    assert_eq!(percent_decode("%41%4a%4A"), "AJJ");
    assert_eq!(percent_decode("bad%zz%4"), "bad%zz%4");
    assert_eq!(percent_decode("%C3%A9"), "é");
    assert_eq!(percent_decode("%FF"), "\u{FFFD}");
}

#[test]
fn reload_script_goes_before_the_last_body_close() {
    let out = String::from_utf8(inject_reload("<p>a</p></BODY></html>")).unwrap();
    assert!(out.starts_with("<p>a</p><script>\n(function(){"));
    assert!(out.ends_with("</script></body></html>"));
    let out = String::from_utf8(inject_reload("no body")).unwrap();
    assert!(out.starts_with("no body<script>"));
    assert!(out.ends_with("</script>"));
}

#[test]
fn requests_are_routed() {
    assert!(matches!(route_request("POST / HTTP/1.1\r\n\r\n"), Route::MethodNotAllowed));
    assert!(matches!(route_request("GET /__dreamfish__ws HTTP/1.1\r\n\r\n"), Route::WebSocket));
    assert!(matches!(route_request("GET /__dreamfish__ws?x=1 HTTP/1.1\r\n\r\n"), Route::WebSocket));
    assert!(matches!(route_request("GET /a/../b HTTP/1.1\r\n\r\n"), Route::Forbidden { head_only: false }));
    assert!(matches!(route_request("HEAD /%2e%2e/x HTTP/1.1\r\n\r\n"), Route::Forbidden { head_only: true }));
    assert!(matches!(route_request("GET /a%00 HTTP/1.1\r\n\r\n"), Route::Forbidden { .. }));
    match route_request("GET //docs/a%20b.html?v=2#top HTTP/1.1\r\n\r\n") {
        Route::File { rel, head_only } => {
            assert_eq!(rel, "docs/a b.html");
            assert!(!head_only);
        }
        _ => panic!("expected a file"),
    }
    match route_request("GET\r\n\r\n") {
        Route::File { rel, .. } => assert_eq!(rel, ""),
        _ => panic!("expected the root"),
    }
    assert!(matches!(route_request(""), Route::MethodNotAllowed));
}

#[test]
fn responses_carry_length_and_maybe_body() {
    let r = response_bytes("HTTP/1.1 200 OK\r\n", "text/plain", b"hello", false);
    assert_eq!(
        String::from_utf8(r).unwrap(),
        "HTTP/1.1 200 OK\r\nContent-Type: text/plain\r\nContent-Length: 5\r\nCache-Control: no-store\r\nConnection: close\r\n\r\nhello"
    );
    let r = response_bytes("HTTP/1.1 200 OK\r\n", "text/plain", b"hello", true);
    assert!(String::from_utf8(r).unwrap().ends_with("Content-Length: 5\r\nCache-Control: no-store\r\nConnection: close\r\n\r\n"));
}

#[test]
fn colours_only_on_terminals() {
    assert_eq!(green("ok", true), "\x1b[32mok\x1b[0m");
    assert_eq!(gray("ok", false), "ok");
    assert_eq!(red("Error", true), "\x1b[31mError\x1b[0m");
    assert_eq!(paint("x", "\x1b[1m", true), "\x1b[1mx\x1b[0m");
}

#[test]
fn request_head_ends_at_a_blank_line() {
    assert!(head_complete(b"GET / HTTP/1.1\r\nHost: x\r\n\r\n"));
    assert!(!head_complete(b"GET / HTTP/1.1\r\nHost: x\r\n"));
    assert!(!head_complete(b"\r\n\r"));
    assert!(is_html("text/html; charset=utf-8"));
    assert!(!is_html("text/css; charset=utf-8"));
}

#[test]
fn refusals_are_plain_text_with_their_status() {
    let r = String::from_utf8(refusal_response(Refusal::NotFound, false)).unwrap();
    assert_eq!(
        r,
        "HTTP/1.1 404 Not Found\r\nContent-Type: text/plain; charset=utf-8\r\nContent-Length: 13\r\nCache-Control: no-store\r\nConnection: close\r\n\r\n404 Not Found"
    );
    let r = String::from_utf8(refusal_response(Refusal::Forbidden, true)).unwrap();
    assert!(r.starts_with("HTTP/1.1 403 Forbidden\r\n"));
    assert!(r.ends_with("Content-Length: 13\r\nCache-Control: no-store\r\nConnection: close\r\n\r\n"));
    let r = String::from_utf8(refusal_response(Refusal::MethodNotAllowed, false)).unwrap();
    assert!(r.starts_with("HTTP/1.1 405 Method Not Allowed\r\n"));
    assert!(r.ends_with("\r\n\r\n405 Method Not Allowed"));
    let r = String::from_utf8(refusal_response(Refusal::BadRequest, false)).unwrap();
    assert!(r.ends_with("Content-Length: 15\r\nCache-Control: no-store\r\nConnection: close\r\n\r\n400 Bad Request"));
}
