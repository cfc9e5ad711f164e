use openplay::rtsp::{parse_response, Headers, Request};

#[test]
fn encodes_request_with_length() {
    let req = Request::new("GET", "/info")
        .header("CSeq", "1")
        .header("User-Agent", "openplay/0")
        .body(b"xy".to_vec());
    let wire = req.encode();
    let text = String::from_utf8_lossy(&wire);
    assert!(text.starts_with("GET /info RTSP/1.0\r\n"));
    assert!(text.contains("CSeq: 1\r\n"));
    assert!(text.contains("Content-Length: 2\r\n"));
    assert!(text.ends_with("\r\n\r\nxy"));
}

#[test]
fn caller_content_length_is_overridden() {
    let req = Request::new("POST", "/x")
        .header("Content-Length", "999")
        .body(b"abcd".to_vec());
    let wire = req.encode();
    let text = String::from_utf8_lossy(&wire);
    assert!(text.contains("Content-Length: 4\r\n"));
    assert!(!text.contains("999"));
}

#[test]
fn parses_response_with_body() {
    let raw = b"RTSP/1.0 200 OK\r\nCSeq: 1\r\nContent-Type: application/x-apple-binary-plist\r\nContent-Length: 3\r\n\r\nabc";
    let (resp, used) = parse_response(raw).expect("ok").expect("complete");
    assert_eq!(resp.status, 200);
    assert_eq!(resp.reason, "OK");
    assert!(resp.is_success());
    assert_eq!(resp.headers.get("cseq"), Some("1"));
    assert_eq!(resp.body, b"abc");
    assert_eq!(used, raw.len());
}

#[test]
fn incomplete_returns_none() {
    assert!(parse_response(b"RTSP/1.0 200 OK\r\nContent-Length: 5\r\n\r\nab")
        .expect("ok")
        .is_none());
    assert!(parse_response(b"RTSP/1.0 200 OK\r\nCSeq: 1")
        .expect("ok")
        .is_none());
}

#[test]
fn reports_consumed_for_pipelined_messages() {
    let mut raw = b"RTSP/1.0 200 OK\r\nContent-Length: 1\r\n\r\nA".to_vec();
    let tail = b"RTSP/1.0 200 OK\r\nContent-Length: 0\r\n\r\n";
    raw.extend_from_slice(tail);
    let (_, used) = parse_response(&raw).expect("ok").expect("complete");
    assert_eq!(&raw[used..], tail);
}

#[test]
fn rejects_non_rtsp_version() {
    assert!(parse_response(b"HTTP/1.1 200 OK\r\n\r\n").is_err());
}

#[test]
fn rejects_malformed_status_codes() {
    assert!(parse_response(b"RTSP/1.0 20 OK\r\n\r\n").is_err());
    assert!(parse_response(b"RTSP/1.0 2000 OK\r\n\r\n").is_err());
    assert!(parse_response(b"RTSP/1.0 +20 OK\r\n\r\n").is_err());
}

#[test]
fn rejects_invalid_and_conflicting_content_length() {
    assert!(parse_response(b"RTSP/1.0 200 OK\r\nContent-Length: abc\r\n\r\n").is_err());
    assert!(parse_response(
        b"RTSP/1.0 200 OK\r\nContent-Length: 1\r\nContent-Length: 2\r\n\r\nAB"
    )
    .is_err());
}

#[test]
fn duplicate_but_equal_content_length_is_ok() {
    let raw = b"RTSP/1.0 200 OK\r\nContent-Length: 1\r\nContent-Length: 1\r\n\r\nA";
    let (resp, _) = parse_response(raw).expect("ok").expect("complete");
    assert_eq!(resp.body, b"A");
}

fn rtsp_message(raw: &[u8]) -> String {
    match parse_response(raw) {
        Err(openplay::Error::Rtsp(m)) => m,
        _ => panic!("expected an rtsp error"),
    }
}

#[test]
fn each_fault_has_its_message() {
    assert_eq!(rtsp_message(b"\r\n\r\n"), "empty response");
    assert_eq!(rtsp_message(b"RTSP/1.0 \xff\r\n\r\n"), "non-utf8 status");
    assert_eq!(rtsp_message(b"HTTP/1.1 200 OK\r\n\r\n"), "bad version: HTTP/1.1");
    assert_eq!(rtsp_message(b"RTSP/1.0\r\n\r\n"), "missing status code");
    assert_eq!(rtsp_message(b"RTSP/1.0 2x0 OK\r\n\r\n"), "bad status code: 2x0");
    assert_eq!(rtsp_message(b"RTSP/1.0 200 OK\r\nA\xff: b\r\n\r\n"), "non-utf8 header");
    assert_eq!(rtsp_message(b"RTSP/1.0 200 OK\r\nNoColon\r\n\r\n"), "malformed header");
    assert_eq!(
        rtsp_message(b"RTSP/1.0 200 OK\r\ncontent-length: +1\r\n\r\n"),
        "invalid content-length"
    );
    assert_eq!(
        rtsp_message(b"RTSP/1.0 200 OK\r\nContent-Length: 99999999999999999999999\r\n\r\n"),
        "content-length too large"
    );
    assert_eq!(
        rtsp_message(b"RTSP/1.0 200 OK\r\nContent-Length: 1\r\nContent-Length: 2\r\n\r\n"),
        "conflicting content-length"
    );
}

#[test]
fn header_lines_are_trimmed_and_kept_in_order() {
    let raw = b"RTSP/1.0 401 Unauthorized here\r\n  X-A :  one two \r\nx-a: second\r\n\r\n";
    let (resp, used) = parse_response(raw).expect("ok").expect("complete");
    assert_eq!(resp.status, 401);
    assert!(!resp.is_success());
    assert_eq!(resp.reason, "Unauthorized here");
    assert_eq!(resp.headers.get("x-A"), Some("one two"));
    assert_eq!(resp.headers.len(), 2);
    assert_eq!(resp.headers.iter()[1].0, "x-a");
    assert_eq!(resp.body, b"");
    assert_eq!(used, raw.len());
}

#[test]
fn status_line_without_reason_has_empty_reason() {
    let (resp, _) = parse_response(b"RTSP/1.0 299\r\n\r\n").expect("ok").expect("complete");
    assert_eq!(resp.status, 299);
    assert_eq!(resp.reason, "");
    assert!(resp.is_success());
}

#[test]
fn encoded_request_has_exact_bytes() {
    let req = Request::new("SETUP", "rtsp://x/1")
        .header("content-LENGTH", "7")
        .header("CSeq", "12")
        .body(vec![1, 2, 3, 4, 5, 6, 7, 8, 9, 10, 11, 12]);
    let mut expected = b"SETUP rtsp://x/1 RTSP/1.0\r\nCSeq: 12\r\nContent-Length: 12\r\n\r\n".to_vec();
    expected.extend_from_slice(&[1, 2, 3, 4, 5, 6, 7, 8, 9, 10, 11, 12]);
    assert_eq!(req.encode(), expected);
}

#[test]
fn headers_get_is_case_insensitive_and_first_wins() {
    let mut h = Headers::new();
    h.push("Session", "A");
    h.push("SESSION", "B");
    assert_eq!(h.get("session"), Some("A"));
    assert_eq!(h.get("Sessio"), None);
    assert_eq!(Headers::default().len(), 0);
}

#[test]
fn framing_spans_head_marker_and_declared_body() {
    let raw = b"RTSP/1.0 200 OK\r\ncontent-LENGTH:  3 \r\n\r\nabcdef";
    let (resp, used) = parse_response(raw).expect("ok").expect("complete");
    assert_eq!(used, raw.len() - 3);
    assert_eq!(resp.body, b"abc");
    assert!(parse_response(b"RTSP/1.0 200 OK\r\nContent-Length: 7\r\n\r\nabc").expect("ok").is_none());
    assert_eq!(rtsp_message(b"RTSP/1.0 200 OK\r\nContent-Length: -1\r\n\r\n"), "invalid content-length");
    assert_eq!(rtsp_message(b"RTSP/1.0 200 OK\r\nContent-Length: 1 2\r\n\r\n"), "invalid content-length");
    assert_eq!(rtsp_message(b"RTSP/1.0 200 OK\r\nContent-Length:\r\n\r\n"), "invalid content-length");
    let (resp, used) = parse_response(b"RTSP/1.0 204 No Content\r\n\r\nX").expect("ok").expect("complete");
    assert_eq!(used, 27);
    assert!(resp.body.is_empty());
}
