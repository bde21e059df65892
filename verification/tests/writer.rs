use httpcodec::handlers::{dispatch_plan, DispatchPlan, HandlerError};
use httpcodec::headers::Headers;
use httpcodec::request::{HttpMethod, HttpRequest, HttpVersion, RequestLine};
use httpcodec::response::{HttpResponse, HttpStatus, ResponseWriter, WriterState};

fn bytes_contain(haystack: &[u8], needle: &[u8]) -> bool {
    if needle.is_empty() {
        return true;
    }
    haystack
        .windows(needle.len())
        .any(|w| w == needle)
}

#[test]
fn write_all_emits_status_headers_body() {
    let response = HttpResponse::new()
        .with_status(HttpStatus::Okay)
        .with_body("hi there")
        .with_default_headers();
    let mut writer = ResponseWriter::from(Vec::new());
    writer.write_all(&response);
    let out = writer.take_output();
    assert!(out.starts_with(b"HTTP/1.1 200 OK\r\n"));
    assert!(bytes_contain(&out, b"content-length: 8\r\n"));
    assert!(bytes_contain(&out, b"connection: close\r\n"));
    assert!(bytes_contain(&out, b"content-type: text/plain\r\n"));
    assert!(out.ends_with(b"\r\nhi there"));
}

#[test]
fn chunked_response_with_trailers() {
    let mut headers = Headers::new();
    headers.insert("Transfer-Encoding", "chunked");
    headers.insert("Content-Type", "text/plain");
    headers.insert("Connection", "close");

    let mut writer = ResponseWriter::from(Vec::new());
    writer.write_status(&HttpStatus::Okay);
    writer.write_headers(&headers);
    writer.write_chunked_body(b"Hello");
    writer.write_chunked_body(b" World");
    writer.write_chunked_body_done();
    writer.write_trailers(b"Hello World");
    assert_eq!(writer.state, WriterState::Done);

    let out = writer.take_output();
    assert!(out.starts_with(b"HTTP/1.1 200 OK\r\n"));
    assert!(bytes_contain(&out, b"transfer-encoding: chunked\r\n"));
    assert!(bytes_contain(&out, b"5\r\nHello\r\n"));
    assert!(bytes_contain(&out, b"6\r\n World\r\n"));
    let tail = b"0\r\nX-Content-SHA256: a591a6d40bf420404a011733cfb7b190d62c65bf0bcda32b57b277d9ad9f146e\r\nX-Content-Length: 11\r\n\r\n";
    assert!(out.ends_with(tail));
}

#[test]
fn chunk_sizes_are_lowercase_hex() {
    let mut headers = Headers::new();
    headers.insert("Transfer-Encoding", "chunked");
    let mut writer = ResponseWriter::from(Vec::new());
    writer.write_status(&HttpStatus::Okay);
    writer.write_headers(&headers);
    let chunk = [0x41u8; 26];
    writer.write_chunked_body(&chunk);
    let out = writer.take_output();
    assert!(bytes_contain(&out, b"1a\r\nAAAAAAAAAAAAAAAAAAAAAAAAAA\r\n"));
}

#[test]
fn empty_chunk_acts_as_done() {
    let mut headers = Headers::new();
    headers.insert("Transfer-Encoding", "chunked");
    let mut writer = ResponseWriter::from(Vec::new());
    writer.write_status(&HttpStatus::Okay);
    writer.write_headers(&headers);
    writer.write_chunked_body(b"");
    assert_eq!(writer.state, WriterState::WritingTrailers);
    let out = writer.take_output();
    assert!(out.ends_with(b"0\r\n"));
}

#[test]
fn status_lines_carry_reason_phrases() {
    for (status, line) in [
        (HttpStatus::Okay, b"HTTP/1.1 200 OK\r\n".as_slice()),
        (HttpStatus::BadRequest, b"HTTP/1.1 400 Bad Request\r\n".as_slice()),
        (
            HttpStatus::InternalServerError,
            b"HTTP/1.1 500 Internal Server Error\r\n".as_slice(),
        ),
    ] {
        let mut writer = ResponseWriter::from(Vec::new());
        writer.write_status(&status);
        assert_eq!(writer.take_output(), line.to_vec());
    }
}

#[test]
fn default_headers_follow_body() {
    let response = HttpResponse::new().with_body("12345").with_default_headers();
    assert_eq!(
        response.headers.get("content-length").map(|v| v.as_slice()),
        Some(b"5".as_slice())
    );
    assert_eq!(
        response.headers.get("connection").map(|v| v.as_slice()),
        Some(b"close".as_slice())
    );
    assert_eq!(
        response.headers.get("content-type").map(|v| v.as_slice()),
        Some(b"text/plain".as_slice())
    );
}

#[test]
fn with_header_overrides_default() {
    let response = HttpResponse::new()
        .with_body("<p>x</p>")
        .with_default_headers()
        .with_header("Content-Type", "text/html");
    assert_eq!(
        response.headers.get("content-type").map(|v| v.as_slice()),
        Some(b"text/html".as_slice())
    );
}

fn request_for(target: &[u8]) -> HttpRequest {
    HttpRequest::new().with_request_line(RequestLine {
        method: HttpMethod::Get,
        target: target.to_vec(),
        version: HttpVersion::HTTP11,
    })
}

#[test]
fn dispatch_yourproblem_is_canned_400() {
    let req = request_for(b"/yourproblem");
    match dispatch_plan(&req).unwrap() {
        DispatchPlan::Respond(resp) => {
            assert_eq!(resp.status, HttpStatus::BadRequest);
            assert_eq!(resp.body, httpcodec::handlers::bad_request_body().as_bytes().to_vec());
            assert_eq!(
                resp.headers.get("Content-Type").map(|v| v.as_slice()),
                Some(b"text/html".as_slice())
            );
        }
        other => panic!("unexpected plan: {:?}", other),
    }
}

#[test]
fn dispatch_myproblem_is_canned_500() {
    let req = request_for(b"/myproblem");
    match dispatch_plan(&req).unwrap() {
        DispatchPlan::Respond(resp) => {
            assert_eq!(resp.status, HttpStatus::InternalServerError);
            assert_eq!(
                resp.body,
                httpcodec::handlers::internal_error_body().as_bytes().to_vec()
            );
        }
        other => panic!("unexpected plan: {:?}", other),
    }
}

#[test]
fn dispatch_default_is_canned_200() {
    let req = request_for(b"/anything-else");
    match dispatch_plan(&req).unwrap() {
        DispatchPlan::Respond(resp) => {
            assert_eq!(resp.status, HttpStatus::Okay);
            assert_eq!(resp.body, httpcodec::handlers::default_body().as_bytes().to_vec());
        }
        other => panic!("unexpected plan: {:?}", other),
    }
}

#[test]
fn dispatch_proxy_extracts_endpoint() {
    let req = request_for(b"/httpbin/get");
    match dispatch_plan(&req).unwrap() {
        DispatchPlan::ProxyTo(endpoint) => {
            assert_eq!(endpoint, b"get".to_vec());
        }
        other => panic!("unexpected plan: {:?}", other),
    }
}

#[test]
fn dispatch_video_streams() {
    let req = request_for(b"/video");
    match dispatch_plan(&req).unwrap() {
        DispatchPlan::StreamVideo => {}
        other => panic!("unexpected plan: {:?}", other),
    }
}

#[test]
fn dispatch_without_request_line_fails() {
    let req = HttpRequest::new();
    let err = dispatch_plan(&req).unwrap_err();
    assert_eq!(err.status_code, HttpStatus::InternalServerError);
}

#[test]
fn handler_error_to_response() {
    let err = HandlerError {
        status_code: HttpStatus::InternalServerError,
        message: String::from("boom"),
    };
    let resp = err.to_response();
    assert_eq!(resp.status, HttpStatus::InternalServerError);
    assert_eq!(resp.body, b"boom".to_vec());
    assert_eq!(
        resp.headers.get("content-length").map(|v| v.as_slice()),
        Some(b"4".as_slice())
    );
}
