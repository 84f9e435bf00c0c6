use mod_bridge::http::{
    content_length, finish_payload, http_response, initial_body, request_first_line, request_route, route_response,
    Route, MAX_BODY,
};

#[test]
fn routes_by_first_line() {
    assert_eq!(request_route("GET /health HTTP/1.1\r\nHost: x\r\n\r\n"), Route::Health);
    assert_eq!(request_route("GET / HTTP/1.1\r\n\r\n"), Route::Health);
    assert_eq!(request_route("POST /rpc HTTP/1.1\r\nContent-Length: 2\r\n\r\n{}"), Route::Rpc);
    assert_eq!(request_route("OPTIONS /rpc HTTP/1.1\r\n\r\n"), Route::Options);
    assert_eq!(request_route("GET /other HTTP/1.1\r\n\r\n"), Route::NotFound);
    assert_eq!(request_route(""), Route::NotFound);
    assert_eq!(request_route("\nGET /health"), Route::NotFound);
}

#[test]
fn first_line_drops_line_ending() {
    assert_eq!(request_first_line("GET / HTTP/1.1\r\nX: y"), "GET / HTTP/1.1");
    assert_eq!(request_first_line("abc"), "abc");
    assert_eq!(request_first_line("abc\r"), "abc\r");
    assert_eq!(request_first_line(""), "");
}

#[test]
fn content_length_values() {
    assert_eq!(content_length("POST /rpc HTTP/1.1\r\nContent-Length: 17\r\n\r\nbody"), 17);
    assert_eq!(content_length("POST /rpc HTTP/1.1\r\ncontent-LENGTH:   +5  \r\n\r\n"), 5);
    assert_eq!(content_length("POST /rpc HTTP/1.1\r\nContent-Length: abc\r\nContent-Length: 9\r\n\r\n"), 0);
    assert_eq!(content_length("POST /rpc HTTP/1.1\r\nHost: x\r\n\r\n"), 0);
    assert_eq!(content_length("POST /rpc HTTP/1.1\r\nContent-Length: 999999\r\n\r\n"), MAX_BODY);
    assert_eq!(content_length("POST /rpc HTTP/1.1\r\nContent-Length: 99999999999999999999999\r\n\r\n"), 0);
    assert_eq!(content_length("Content-Length: 12"), 12);
}

#[test]
fn initial_body_after_head() {
    assert_eq!(initial_body("POST /rpc HTTP/1.1\r\nContent-Length: 2\r\n\r\n{}"), "{}");
    assert_eq!(initial_body("POST /rpc HTTP/1.1\r\n"), "");
}

#[test]
fn payload_cut_and_size_limit() {
    assert_eq!(finish_payload(b"{}extra".to_vec(), 2), Ok(b"{}".to_vec()));
    assert_eq!(finish_payload(b"{}".to_vec(), 0), Ok(b"{}".to_vec()));
    assert_eq!(finish_payload(b"{}".to_vec(), 10), Ok(b"{}".to_vec()));
    assert_eq!(
        finish_payload(vec![b'x'; MAX_BODY + 1], 0),
        Err(r#"{"ok":false,"error":"body too large"}"#.to_string())
    );
}

#[test]
fn response_text_counts_bytes() {
    let r = http_response("200 OK", "{\"t\":\"\u{e9}\"}");
    assert_eq!(
        r,
        "HTTP/1.1 200 OK\r\nContent-Type: application/json\r\nContent-Length: 10\r\nConnection: close\r\nAccess-Control-Allow-Origin: *\r\nAccess-Control-Allow-Methods: GET, POST, OPTIONS\r\nAccess-Control-Allow-Headers: Content-Type\r\n\r\n{\"t\":\"\u{e9}\"}"
    );
}

#[test]
fn fixed_route_responses() {
    let opt = route_response(Route::Options, "").unwrap();
    assert!(opt.starts_with("HTTP/1.1 204 No Content\r\n"));
    assert!(opt.contains("Content-Length: 0\r\n"));
    assert!(opt.ends_with("\r\n\r\n"));
    let nf = route_response(Route::NotFound, "").unwrap();
    assert!(nf.starts_with("HTTP/1.1 404 Not Found\r\n"));
    assert!(nf.ends_with(r#"{"ok":false,"error":"use GET /health or POST /rpc"}"#));
    let h = route_response(Route::Health, "{}").unwrap();
    assert!(h.starts_with("HTTP/1.1 200 OK\r\n"));
    assert!(h.ends_with("\r\n\r\n{}"));
    assert!(route_response(Route::Rpc, "").is_none());
}
