use httpcodec::headers::Headers;
use httpcodec::request::{parse_request, HttpMethod, HttpVersion, RequestLine, RequestParser};
use httpcodec::ParseError;

#[test]
fn headers_basics() {
    let test_data = [
        b"Host: localhost:42069\r\n\r\n".to_vec(),
        b"       Host : localhost:42069       \r\n\r\n".to_vec(), // invalid space
        b"       Host: localhost:42069\r\n  Content-Type:   text/plain\r\n\r\n".to_vec(),
        "H\u{a9}st: localhost:42069\r\n\r\n".as_bytes().to_vec(), // invalid character
        b"       Host: localhost:42069\r\n  Content-Type:   text/plain\r\nContent-Type: application/json\r\n\r\n".to_vec(),
        b"Set-Person: lane-loves-go\r\nSet-Person: prime-loves-zig\r\nSet-Person: tj-loves-ocaml\r\n\r\n".to_vec(),
        b"Set-Person: lane-loves-go\r\nSet-Person: prime-loves-zig\r\nSet-Person: tj-loves-ocaml".to_vec(),
    ];
    let expected = [
        ("host", "localhost:42069"),
        ("", ""), // err placeholder
        ("host", "localhost:42069"),
        ("", ""), // err placeholder
        ("host", "localhost:42069"),
        ("set-person", "lane-loves-go"),
        ("set-person", "lane-loves-go"),
    ];

    for (i, test_line) in test_data.iter().enumerate() {
        let result = Headers::parse_headers(test_line);
        if [1, 3].contains(&i) {
            assert!(result.is_err());
            println!("{}: Error {:?}", i + 1, result.err());
        } else {
            let result = result.unwrap();
            println!("{}: {:?}", i + 1, result);
            let (pair, consumed) = result;
            let (name, value) = pair.unwrap();
            assert_eq!(name, expected[i].0.as_bytes().to_vec());
            assert_eq!(value, expected[i].1.as_bytes().to_vec());
            assert!(consumed > 0);
        }
    }
}

#[test]
fn request_line_basics() {
    let test_data = [
        b"GET / HTTP/1.1\r\nHost: localhost:42069\r\nUser-Agent: curl/7.81.0\r\nAccept: */*\r\n\r\n".to_vec(),
        b"GET /coffee HTTP/1.1\r\nHost: localhost:42069\r\nUser-Agent: curl/7.81.0\r\nAccept: */*\r\n\r\n".to_vec(),
        b"/coffee HTTP/1.1\r\nHost: localhost:42069\r\nUser-Agent: curl/7.81.0\r\nAccept: */*\r\n\r\n".to_vec(), // no method
        b"GET POST /coffee HTTP/1.1\r\nHost: localhost:42069\r\nUser-Agent: curl/7.81.0\r\nAccept: */*\r\n\r\n".to_vec(), // too many elements
        b"POST /coffee HTTP/1.1\r\nHost: localhost:42069\r\nUser-Agent: curl/7.81.0\r\nAccept: */*\r\n\r\n".to_vec(),
        b"/ GET HTTP/1.1\r\nHost: localhost:42069\r\nUser-Agent: curl/7.81.0\r\nAccept: */*\r\n\r\n".to_vec(), // out of order
    ];
    let expected = [
        (HttpMethod::Get, b"/".to_vec(), HttpVersion::HTTP11),
        (HttpMethod::Get, b"/coffee".to_vec(), HttpVersion::HTTP11),
        (HttpMethod::Get, b"/".to_vec(), HttpVersion::HTTP11), // err placeholder
        (HttpMethod::Get, b"/".to_vec(), HttpVersion::HTTP11), // err placeholder
        (HttpMethod::Post, b"/coffee".to_vec(), HttpVersion::HTTP11),
        (HttpMethod::Get, b"/".to_vec(), HttpVersion::HTTP11), // err placeholder
    ];

    for (i, test_line) in test_data.iter().enumerate() {
        let result = RequestLine::parse_request_line(test_line);
        if [2, 3, 5].contains(&i) {
            assert!(result.is_err());
            println!("{}: Error {:?}", i + 1, result.err());
        } else {
            let (result, _p) = result.unwrap();
            let result = result.unwrap();
            println!("{}: {:?}", i + 1, result);
            assert_eq!(expected[i].0, result.method);
            assert_eq!(expected[i].1, result.target);
            assert_eq!(expected[i].2, result.version);
        }
    }
}

#[test]
fn parse_with_headers() {
    let test_data = [
        b"GET / HTTP/1.1\r\nHost: localhost:42069\r\nUser-Agent: curl/7.81.0\r\nAccept: */*\r\n\r\n".to_vec(),
        b"GET / HTTP/1.1\r\nHost localhost:42069\r\n\r\n".to_vec(), // invalid headers (missing ':')
        b"GET /coffee HTTP/1.1\r\n\r\n\r\n".to_vec(), // empty headers
        b"POST /prime/agen HTTP/1.1\r\nHost: localhost:42069\r\nUser-Agent: curl/7.81.0\r\nAccept: */*\r\nContent-Type: text/plain\r\nContent-Type: application/json\r\n\r\n".to_vec(),
    ];
    let expected = [
        (HttpMethod::Get, b"/".to_vec(), ("Host", "localhost:42069")),
        (HttpMethod::Get, b"/".to_vec(), ("", "")), // err placeholder
        (HttpMethod::Get, b"/coffee".to_vec(), ("", "")),
        (HttpMethod::Post, b"/prime/agen".to_vec(), ("Content-Type", "text/plain, application/json")),
    ];
    for (i, test_line) in test_data.iter().enumerate() {
        let result = parse_request(test_line);
        if [1].contains(&i) {
            assert!(result.is_err());
            println!("{}: Error {:?}", i + 1, result.err());
        } else {
            let request = result.unwrap();
            let rl = request.request_line.unwrap();
            assert_eq!(expected[i].0, rl.method);
            assert_eq!(expected[i].1, rl.target);
            if i == 0 || i == 3 {
                let (k, v) = (expected[i].2 .0, expected[i].2 .1);
                assert_eq!(
                    request.headers.get(k).map(|s| s.as_slice()),
                    Some(v.as_bytes())
                );
            }
            if i == 2 {
                assert_eq!(request.headers.len(), 0);
            }
        }
    }
}

#[test]
fn parse_chunked_body() {
    let test_data = [
        // Simple chunked body: "Hello World"
        b"POST /upload HTTP/1.1\r\nHost: localhost:42069\r\nTransfer-Encoding: chunked\r\n\r\n5\r\nHello\r\n6\r\n World\r\n0\r\n\r\n".to_vec(),
        // Single chunk: "Test"
        b"POST /data HTTP/1.1\r\nTransfer-Encoding: chunked\r\n\r\n4\r\nTest\r\n0\r\n\r\n".to_vec(),
        // Empty chunked body (just terminator)
        b"POST /empty HTTP/1.1\r\nTransfer-Encoding: chunked\r\n\r\n0\r\n\r\n".to_vec(),
        // Three chunks: "abc" + "def" + "ghi" = "abcdefghi"
        b"POST /multi HTTP/1.1\r\nTransfer-Encoding: chunked\r\n\r\n3\r\nabc\r\n3\r\ndef\r\n3\r\nghi\r\n0\r\n\r\n".to_vec(),
        // Larger hex chunk size: "10" = 16 bytes in hex
        b"POST /hex HTTP/1.1\r\nTransfer-Encoding: chunked\r\n\r\n10\r\nSixteenBytesHere\r\n0\r\n\r\n".to_vec(),
    ];

    let expected = [
        (HttpMethod::Post, b"/upload".to_vec(), "Hello World"),
        (HttpMethod::Post, b"/data".to_vec(), "Test"),
        (HttpMethod::Post, b"/empty".to_vec(), ""),
        (HttpMethod::Post, b"/multi".to_vec(), "abcdefghi"),
        (HttpMethod::Post, b"/hex".to_vec(), "SixteenBytesHere"),
    ];

    for (i, test_line) in test_data.iter().enumerate() {
        let result = parse_request(test_line);

        assert!(result.is_ok(), "Test case {} failed to parse", i);
        let request = result.unwrap();

        let rl = request.request_line.unwrap();
        assert_eq!(expected[i].0, rl.method, "Test case {} method mismatch", i);
        assert_eq!(expected[i].1, rl.target, "Test case {} target mismatch", i);

        assert_eq!(
            expected[i].2.as_bytes(),
            request.body.as_slice(),
            "Test case {} body mismatch",
            i
        );

        // Verify Transfer-Encoding header was present
        if i != 2 || !request.body.is_empty() {
            assert_eq!(
                request.headers.get("transfer-encoding").map(|s| s.as_slice()),
                Some(b"chunked".as_slice()),
                "Test case {} missing chunked header",
                i
            );
        }

        println!("Test case {}: {} bytes decoded correctly", i, request.body.len());
    }
}

#[test]
fn zero_length_fixed_body() {
    let data = b"POST /submit HTTP/1.1\r\nContent-Length: 0\r\n\r\n";
    let request = parse_request(data).unwrap();
    assert_eq!(request.body, Vec::<u8>::new());
    let rl = request.request_line.unwrap();
    assert_eq!(rl.method, HttpMethod::Post);
    assert_eq!(rl.target, b"/submit".to_vec());
}

#[test]
fn fixed_body_with_content() {
    let data = b"POST /submit HTTP/1.1\r\nContent-Length: 11\r\n\r\nhello world";
    let request = parse_request(data).unwrap();
    assert_eq!(request.body, b"hello world".to_vec());
}

#[test]
fn chunked_terminator_only() {
    let data = b"POST /empty HTTP/1.1\r\nTransfer-Encoding: chunked\r\n\r\n0\r\n\r\n";
    let request = parse_request(data).unwrap();
    assert!(request.body.is_empty());
}

#[test]
fn duplicate_header_merges() {
    let mut headers = Headers::new();
    headers.merge_insert(b"content-type".to_vec(), b"text/plain".to_vec());
    headers.merge_insert(b"content-type".to_vec(), b"application/json".to_vec());
    assert_eq!(
        headers.get("Content-Type").map(|v| v.as_slice()),
        Some(b"text/plain, application/json".as_slice())
    );
    assert_eq!(headers.len(), 1);
}

#[test]
fn lookup_is_case_insensitive() {
    let mut headers = Headers::new();
    headers.insert("Host", "localhost:42069");
    assert_eq!(
        headers.get("hOsT").map(|v| v.as_slice()),
        Some(b"localhost:42069".as_slice())
    );
    assert_eq!(headers.get("missing"), None);
}

#[test]
fn insert_replaces_and_returns_old() {
    let mut headers = Headers::new();
    assert_eq!(headers.insert("X-One", "a"), None);
    assert_eq!(headers.insert("x-one", "b"), Some(b"a".to_vec()));
    assert_eq!(headers.get("X-ONE").map(|v| v.as_slice()), Some(b"b".as_slice()));
    assert_eq!(headers.len(), 1);
}

#[test]
fn serialize_emits_each_pair() {
    let mut headers = Headers::new();
    headers.insert("Host", "localhost:42069");
    headers.insert("Accept", "*/*");
    let wire = headers.serialize();
    assert_eq!(wire, b"host: localhost:42069\r\naccept: */*\r\n".to_vec());
}

#[test]
fn valid_field_name_checks_token_set() {
    assert!(Headers::valid_field_name(b"Content-Type"));
    assert!(Headers::valid_field_name(b"x!#$%&'*+-.^_`|~0aA"));
    assert!(!Headers::valid_field_name(b""));
    assert!(!Headers::valid_field_name(b"bad name"));
    assert!(!Headers::valid_field_name(b"semi;colon"));
}

#[test]
fn split_feed_matches_single_feed() {
    let data: &[u8] = b"POST /upload HTTP/1.1\r\nTransfer-Encoding: chunked\r\n\r\n5\r\nHello\r\n6\r\n World\r\n0\r\n\r\n";
    let whole = parse_request(data).unwrap();
    for cut in 0..data.len() {
        let mut parser = RequestParser::new();
        parser.feed(&data[..cut]).unwrap();
        parser.feed(&data[cut..]).unwrap();
        let split = parser.finish().unwrap();
        assert_eq!(split.body, whole.body, "split at {}", cut);
        let a = split.request_line.unwrap();
        let b = whole.request_line.as_ref().unwrap();
        assert_eq!(a.method, b.method);
        assert_eq!(a.target, b.target);
        assert_eq!(
            split.headers.get("transfer-encoding"),
            whole.headers.get("transfer-encoding")
        );
    }
}

#[test]
fn request_line_is_lowercased_and_case_insensitive() {
    let data = b"gEt /CoFFee http/1.1\r\n\r\n";
    let request = parse_request(data).unwrap();
    let rl = request.request_line.unwrap();
    assert_eq!(rl.method, HttpMethod::Get);
    assert_eq!(rl.target, b"/coffee".to_vec());
    assert_eq!(rl.version, HttpVersion::HTTP11);
}

#[test]
fn malformed_inputs_name_their_error() {
    // target does not start with '/'
    let r = parse_request(b"GET coffee HTTP/1.1\r\n\r\n");
    assert_eq!(r.err(), Some(ParseError::MalformedRequestLine));
    // unknown version
    let r = parse_request(b"GET / HTTP/2.0\r\n\r\n");
    assert_eq!(r.err(), Some(ParseError::MalformedRequestLine));
    // header without a colon
    let r = parse_request(b"GET / HTTP/1.1\r\nHost localhost:42069\r\n\r\n");
    assert_eq!(r.err(), Some(ParseError::MalformedHeader));
    // non-hex chunk size
    let r = parse_request(b"POST /x HTTP/1.1\r\nTransfer-Encoding: chunked\r\n\r\nzz\r\nno\r\n0\r\n\r\n");
    assert_eq!(r.err(), Some(ParseError::MalformedBody));
    // unparsable content length
    let r = parse_request(b"POST /x HTTP/1.1\r\nContent-Length: abc\r\n\r\n");
    assert_eq!(r.err(), Some(ParseError::MalformedBody));
    // stream ends mid-body
    let r = parse_request(b"POST /x HTTP/1.1\r\nContent-Length: 10\r\n\r\nabc");
    assert_eq!(r.err(), Some(ParseError::UnexpectedEof));
}
