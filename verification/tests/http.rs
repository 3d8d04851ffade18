use yume_override::engine::http::{
    decode_chunked_body, default_fetch_method, fetch_payload, header_default, header_put,
    parse_http_response, prepare_fetch, FetchRequest,
};

#[test]
fn header_defaults_keep_existing_values_and_order() {
    let mut hs = vec![("accept".to_string(), "*/*".to_string())];
    header_default(&mut hs, "host", "example.com");
    header_default(&mut hs, "accept", "text/plain");
    header_put(&mut hs, "connection".to_string(), "close".to_string());
    assert_eq!(
        hs,
        vec![
            ("accept".to_string(), "*/*".to_string()),
            ("connection".to_string(), "close".to_string()),
            ("host".to_string(), "example.com".to_string()),
        ]
    );
    header_put(&mut hs, "host".to_string(), "other".to_string());
    assert_eq!(hs[2].1, "other");
}

#[test]
fn fetch_request_text() {
    let request = FetchRequest {
        url: "http://example.com:8080/data?x=1".to_string(),
        method: " post ".to_string(),
        headers: vec![("accept".to_string(), "application/json".to_string())],
        body: Some("{}".to_string()),
    };
    let plan = prepare_fetch(&request).expect("plan");
    assert_eq!(plan.host, "example.com");
    assert_eq!(plan.port, 8080);
    assert_eq!(plan.method, "POST");
    assert_eq!(
        plan.raw_request,
        "POST /data?x=1 HTTP/1.1\r\naccept: application/json\r\nconnection: close\r\ncontent-length: 2\r\nhost: example.com:8080\r\n\r\n{}"
    );
    assert_eq!(default_fetch_method(), "GET");
}

#[test]
fn fetch_request_refusals() {
    let mut request = FetchRequest {
        url: "  ".to_string(),
        method: "GET".to_string(),
        headers: Vec::new(),
        body: None,
    };
    assert_eq!(prepare_fetch(&request).err(), Some("fetch request url is empty".to_string()));
    request.url = "https://example.com/".to_string();
    assert_eq!(
        prepare_fetch(&request).err(),
        Some(
            "fetch only supports http:// urls in the embedded override engine: https://example.com/"
                .to_string()
        )
    );
}

#[test]
fn http_response_is_split() {
    let raw = b"HTTP/1.1 200 OK\r\nContent-Type: text/plain\r\nX-A:  b \r\n\r\nhello";
    let (status, text, headers, body) = parse_http_response(raw).expect("parse");
    assert_eq!(status, 200);
    assert_eq!(text, "OK");
    assert_eq!(
        headers,
        vec![
            ("content-type".to_string(), "text/plain".to_string()),
            ("x-a".to_string(), "b".to_string()),
        ]
    );
    assert_eq!(body, b"hello".to_vec());
}

#[test]
fn chunked_response_is_decoded() {
    let raw = b"HTTP/1.1 200 OK\r\nTransfer-Encoding: chunked\r\n\r\n4\r\nWiki\r\n5\r\npedia\r\n0\r\n\r\n";
    let (_, _, _, body) = parse_http_response(raw).expect("parse");
    assert_eq!(body, b"Wikipedia".to_vec());
}

#[test]
fn http_response_errors() {
    assert_eq!(
        parse_http_response(b"HTTP/1.1 200 OK\r\n").err(),
        Some("invalid HTTP response: missing header terminator".to_string())
    );
    assert_eq!(
        parse_http_response(b"HTTP/1.1\r\n\r\n").err(),
        Some("invalid HTTP response: missing status code".to_string())
    );
    let err = parse_http_response(b"HTTP/1.1 abc OK\r\n\r\n").err().expect("bad status");
    assert!(err.starts_with("invalid HTTP status code: "));
}

#[test]
fn chunked_body_errors() {
    assert_eq!(
        decode_chunked_body(b"4\r\nWi").err(),
        Some("invalid chunked response: chunk exceeds body length".to_string())
    );
    assert_eq!(
        decode_chunked_body(b"4").err(),
        Some("invalid chunked response: missing chunk size terminator".to_string())
    );
    let err = decode_chunked_body(b"zz\r\n").err().expect("bad size");
    assert!(err.starts_with("invalid chunk size: "));
    assert_eq!(decode_chunked_body(b"A\r\n0123456789\r\n0\r\n\r\n"), Ok(b"0123456789".to_vec()));
}

#[test]
fn fetch_payload_marks_success() {
    let p = fetch_payload("http://x/".to_string(), 204, "No Content".to_string(), Vec::new(), b"ok".to_vec());
    assert!(p.ok);
    assert_eq!(p.body, "ok");
    let p = fetch_payload("http://x/".to_string(), 404, "Not Found".to_string(), Vec::new(), vec![0xff]);
    assert!(!p.ok);
    assert_eq!(p.body, "\u{fffd}");
}
