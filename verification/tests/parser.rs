use vortex::parser::{
    classify_fast, find_request_end, parse_queries_param, parse_request, parsed_request, ParseError,
    RequestHead, Route, SyntaxError,
};

#[test]
fn routes_are_told_apart_by_the_byte_behind_the_slash() {
    assert_eq!(classify_fast(b"GET /plaintext HTTP/1.1\r\n\r\n"), Route::Plaintext);
    assert_eq!(classify_fast(b"GET /json HTTP/1.1\r\n\r\n"), Route::Json);
    assert_eq!(classify_fast(b"GET /db HTTP/1.1\r\n\r\n"), Route::Db);
    assert_eq!(classify_fast(b"GET /queries?q=20 HTTP/1.1\r\n\r\n"), Route::Queries);
    assert_eq!(classify_fast(b"GET /fortunes HTTP/1.1\r\n\r\n"), Route::Fortunes);
    assert_eq!(classify_fast(b"GET /updates?q=20 HTTP/1.1\r\n\r\n"), Route::Updates);
    assert_eq!(classify_fast(b"GET /x HTTP/1.1\r\n\r\n"), Route::NotFound);
    assert_eq!(classify_fast(b"GET / HTTP/1.1\r\n"), Route::NotFound);
}

#[test]
fn other_methods_and_short_buffers_are_not_found() {
    assert_eq!(classify_fast(b"POST /plaintext HTTP/1.1\r\n\r\n"), Route::NotFound);
    assert_eq!(classify_fast(b"GET /p HTTP/1.1"), Route::NotFound);
    assert_eq!(classify_fast(b"GET /p HTTP/1.1\r"), Route::Plaintext);
    assert_eq!(classify_fast(b""), Route::NotFound);
}

#[test]
fn a_request_ends_behind_its_first_blank_line() {
    assert_eq!(find_request_end(b"GET / HTTP/1.1\r\n\r\n"), Some(18));
    assert_eq!(find_request_end(b"a\r\n\r\nb\r\n\r\n"), Some(5));
    assert_eq!(find_request_end(b"\r\n\r\n"), Some(4));
    assert_eq!(find_request_end(b"\r\r\n\r\n"), Some(5));
    assert_eq!(find_request_end(b"GET / HTTP/1.1\r\n\r"), None);
    assert_eq!(find_request_end(b"\r\n\r"), None);
    assert_eq!(find_request_end(b""), None);
}

#[test]
fn a_complete_request_stays_first_whatever_follows() {
    let mut buf = b"GET /json HTTP/1.1\r\n\r\n".to_vec();
    let end = find_request_end(&buf);
    buf.extend_from_slice(b"\r\n\r\nGET");
    assert_eq!(find_request_end(&buf), end);
}

#[test]
fn query_counts_are_read_from_either_parameter() {
    assert_eq!(parse_queries_param(b"GET /queries?q=5 HTTP/1.1\r\n\r\n"), 5);
    assert_eq!(parse_queries_param(b"GET /queries?queries=5 HTTP/1.1\r\n\r\n"), 5);
    assert_eq!(parse_queries_param(b"GET /updates?q=20 HTTP/1.1\r\n\r\n"), 20);
    assert_eq!(parse_queries_param(b"GET /queries?q=500"), 500);
}

#[test]
fn missing_or_invalid_query_counts_are_one() {
    assert_eq!(parse_queries_param(b"GET /queries HTTP/1.1\r\n\r\n"), 1);
    assert_eq!(parse_queries_param(b"GET /queries?q= HTTP/1.1\r\n\r\n"), 1);
    assert_eq!(parse_queries_param(b"GET /queries?q=foo HTTP/1.1\r\n\r\n"), 1);
    assert_eq!(parse_queries_param(b"GET /queries?q=0 HTTP/1.1\r\n\r\n"), 1);
    assert_eq!(parse_queries_param(b"GET /queries?q=-3 HTTP/1.1\r\n\r\n"), 1);
    assert_eq!(parse_queries_param(b"GET /queries=7 HTTP/1.1\r\n\r\n"), 1);
    assert_eq!(parse_queries_param(b"GET /queries HTTP/1.1?q=7"), 1);
    assert_eq!(parse_queries_param(b"GET"), 1);
    assert_eq!(parse_queries_param(b""), 1);
}

#[test]
fn query_counts_stop_at_the_range_of_the_result() {
    assert_eq!(parse_queries_param(b"GET /queries?q=2147483647 "), 2147483647);
    assert_eq!(parse_queries_param(b"GET /queries?q=2147483648 "), 1);
    assert_eq!(parse_queries_param(b"GET /queries?q=99999999999999999999999999 "), 1);
    assert_eq!(parse_queries_param(b"GET /queries?q=0000000000000000007x "), 7);
}

#[test]
fn only_the_query_count_parameter_is_read() {
    assert_eq!(parse_queries_param(b"GET /queries?foo=7 HTTP/1.1\r\n\r\n"), 1);
    assert_eq!(parse_queries_param(b"GET /queries?qq=7 HTTP/1.1\r\n\r\n"), 1);
    assert_eq!(parse_queries_param(b"GET /queries?xq=7 HTTP/1.1\r\n\r\n"), 1);
    assert_eq!(parse_queries_param(b"GET /queries?query=7 HTTP/1.1\r\n\r\n"), 1);
    assert_eq!(parse_queries_param(b"GET /queries?q HTTP/1.1\r\n\r\n"), 1);
    assert_eq!(parse_queries_param(b"GET /queries? HTTP/1.1\r\n\r\n"), 1);
    assert_eq!(parse_queries_param(b"GET /queries&q=7 HTTP/1.1\r\n\r\n"), 1);
}

#[test]
fn the_query_count_may_stand_behind_other_parameters() {
    assert_eq!(parse_queries_param(b"GET /queries?a=1&q=5 HTTP/1.1\r\n\r\n"), 5);
    assert_eq!(parse_queries_param(b"GET /queries?a=1&b&queries=6&c=2 HTTP/1.1\r\n\r\n"), 6);
    assert_eq!(parse_queries_param(b"GET /queries?&&q=5 HTTP/1.1\r\n\r\n"), 5);
    assert_eq!(parse_queries_param(b"GET /queries?q=2&q=3 HTTP/1.1\r\n\r\n"), 2);
    assert_eq!(parse_queries_param(b"GET /queries?queries=2&q=3 HTTP/1.1\r\n\r\n"), 2);
    assert_eq!(parse_queries_param(b"GET /queries?q=x&q=3 HTTP/1.1\r\n\r\n"), 1);
}

#[test]
fn a_query_count_is_found_in_a_long_url() {
    for value_at in 16..200 {
        let mut buf = b"GET /queries?".to_vec();
        buf.resize(value_at - 3, b'a');
        buf.extend_from_slice(b"&q=1234 HTTP/1.1\r\n\r\n");
        assert_eq!(parse_queries_param(&buf), 1234, "{}", value_at);
    }
}

#[test]
fn a_request_is_parsed_in_full() {
    let buf = b"POST /submit?x=1 HTTP/1.0\r\nHost: a\r\nAccept: */*\r\n\r\nbody";
    let (request, len) = parse_request(buf).unwrap();
    assert_eq!(request.method, "POST");
    assert_eq!(request.path, "/submit?x=1");
    assert_eq!(request.version, 0);
    assert_eq!(len, buf.len() - 4);
}

#[test]
fn a_request_is_read_off_its_line() {
    let buf = "\r\n\nPURGE /caf\u{e9}?x HTTP/1.1\nHost: a\n\n".as_bytes();
    let (request, len) = parse_request(buf).unwrap();
    assert_eq!((request.method, request.path), ("PURGE", "/caf\u{e9}?x"));
    assert_eq!((request.version, len), (1, buf.len()));
}

#[test]
fn bytes_behind_a_request_have_no_influence() {
    let head = b"POST /submit?x=1 HTTP/1.0\r\nHost: a\r\nAccept: */*\r\n\r\n";
    let tails: [&[u8]; 5] = [b"", b"\r\n", b" folded: no\r\n\r\n", b"GET / HTTP/1.1", &[0xff; 70]];
    for tail in tails {
        let mut buf = head.to_vec();
        buf.extend_from_slice(tail);
        let (request, len) = parse_request(&buf).unwrap();
        assert_eq!((request.method, request.path), ("POST", "/submit?x=1"));
        assert_eq!((request.version, len), (0, head.len()));
    }
}

#[test]
fn a_request_without_its_end_is_incomplete() {
    assert_eq!(parse_request(b"GET / HTTP/1.1\r\nHost:").unwrap_err(), ParseError::Incomplete);
    assert_eq!(parse_request(b"").unwrap_err(), ParseError::Incomplete);
}

#[test]
fn each_syntax_error_has_an_input() {
    let invalid = |buf: &[u8]| match parse_request(buf) {
        Err(ParseError::Invalid(e)) => e,
        other => panic!("{:?}", other),
    };
    assert_eq!(invalid(b"GET / HTTP/1.1\r\nA B: c\r\n\r\n"), SyntaxError::HeaderName);
    assert_eq!(invalid(b"GET / HTTP/1.1\r\nA: b\x00\r\n\r\n"), SyntaxError::HeaderValue);
    assert_eq!(invalid(b"GET / HTTP/1.1\r\nA: b\r\n\rx"), SyntaxError::NewLine);
    assert_eq!(invalid(b"G\x00T / HTTP/1.1\r\n\r\n"), SyntaxError::Token);
    assert_eq!(invalid(b"GET / HTTP/9.9\r\n\r\n"), SyntaxError::Version);
    let mut many = b"GET / HTTP/1.1\r\n".to_vec();
    for _ in 0..33 {
        many.extend_from_slice(b"A: b\r\n");
    }
    many.extend_from_slice(b"\r\n");
    assert_eq!(invalid(&many), SyntaxError::TooManyHeaders);
}

#[test]
fn thirty_two_headers_are_taken() {
    let mut buf = b"GET / HTTP/1.1\r\n".to_vec();
    for _ in 0..32 {
        buf.extend_from_slice(b"A: b\r\n");
    }
    buf.extend_from_slice(b"\r\n");
    let (request, len) = parse_request(&buf).unwrap();
    assert_eq!((request.method, request.path, request.version), ("GET", "/", 1));
    assert_eq!(len, buf.len());
}

#[test]
fn missing_fields_have_defaults() {
    let head = RequestHead { method: None, path: None, version: None, len: 7 };
    let (request, len) = parsed_request(Ok(Some(head))).unwrap();
    assert_eq!((request.method, request.path, request.version, len), ("GET", "/", 1, 7));
    assert_eq!(parsed_request(Ok(None)).unwrap_err(), ParseError::Incomplete);
    assert_eq!(
        parsed_request(Err(SyntaxError::Status)).unwrap_err(),
        ParseError::Invalid(SyntaxError::Status)
    );
}
