use vortex::connections::{write_500, write_503, Connection};
use vortex::date::DateCache;
use vortex::parser::find_request_end;
use vortex::pipeline::process_pipelined;
use vortex::response::{
    DynHtmlResponse, DynJsonResponse, JsonResponse, NotFoundResponse, PlaintextResponse,
};

const DATE: &[u8] = b"Date: Sun, 06 Nov 1994 08:49:37 GMT\r\n";
const PLAINTEXT: &[u8] = b"HTTP/1.1 200 OK\r\nServer: V\r\nContent-Type: text/plain\r\nContent-Length: 13\r\nDate: Sun, 06 Nov 1994 08:49:37 GMT\r\n\r\nHello, World!";
const JSON: &[u8] = b"HTTP/1.1 200 OK\r\nServer: V\r\nContent-Type: application/json\r\nContent-Length: 27\r\nDate: Sun, 06 Nov 1994 08:49:37 GMT\r\n\r\n{\"message\":\"Hello, World!\"}";
const NOT_FOUND: &[u8] = b"HTTP/1.1 404 Not Found\r\nServer: V\r\nContent-Length: 0\r\n\r\n";

fn date() -> DateCache {
    DateCache::new(DATE.to_vec()).unwrap()
}

#[test]
fn a_date_cache_holds_one_header_line() {
    assert_eq!(date().header_bytes(), DATE);
    assert!(DateCache::new(b"".to_vec()).is_none());
    assert!(DateCache::new(b"\r\n".to_vec()).is_none());
    assert!(DateCache::new(b"Date: x".to_vec()).is_none());
    assert!(DateCache::new(b"Date: x\n\n".to_vec()).is_none());
    assert!(DateCache::new(b"A: b\r\nC: d\r\n".to_vec()).is_none());
}

#[test]
fn the_plaintext_response_is_written_in_full() {
    let mut buf = vec![7u8; 200];
    let n = PlaintextResponse::write(&mut buf, &date());
    assert_eq!(&buf[..n], PLAINTEXT);
    assert!(buf[n..].iter().all(|b| *b == 7));
}

#[test]
fn the_json_response_is_written_in_full() {
    let mut buf = vec![7u8; 200];
    let n = JsonResponse::write(&mut buf, &date());
    assert_eq!(&buf[..n], JSON);
    assert!(buf[n..].iter().all(|b| *b == 7));
}

#[test]
fn the_not_found_response_fits_exactly() {
    let mut buf = vec![0u8; NOT_FOUND.len()];
    assert_eq!(NotFoundResponse::write(&mut buf), NOT_FOUND.len());
    assert_eq!(buf, NOT_FOUND);
}

#[test]
fn a_dynamic_json_response_announces_its_body() {
    let mut buf = vec![7u8; 300];
    let body = b"{\"id\":1,\"randomNumber\":2}";
    let n = DynJsonResponse::write(&mut buf, &date(), body);
    let want = b"HTTP/1.1 200 OK\r\nServer: V\r\nContent-Type: application/json\r\nContent-Length: 25\r\nDate: Sun, 06 Nov 1994 08:49:37 GMT\r\n\r\n{\"id\":1,\"randomNumber\":2}";
    assert_eq!(&buf[..n], &want[..]);
    assert!(buf[n..].iter().all(|b| *b == 7));
}

#[test]
fn a_dynamic_html_response_announces_its_body() {
    let mut buf = vec![0u8; 2000];
    let body = vec![b'x'; 1234];
    let n = DynHtmlResponse::write(&mut buf, &date(), &body);
    let mut want = b"HTTP/1.1 200 OK\r\nServer: V\r\nContent-Type: text/html; charset=utf-8\r\nContent-Length: 1234\r\nDate: Sun, 06 Nov 1994 08:49:37 GMT\r\n\r\n".to_vec();
    want.extend_from_slice(&body);
    assert_eq!(&buf[..n], &want[..]);
}

#[test]
fn an_empty_body_has_length_zero() {
    let mut buf = vec![0u8; 200];
    let n = DynJsonResponse::write(&mut buf, &date(), b"");
    assert!(buf[..n].ends_with(b"\r\n\r\n"));
    assert!(buf[..n].windows(19).any(|w| w == b"Content-Length: 0\r\n"));
}

#[test]
fn the_head_of_every_response_ends_at_its_first_blank_line() {
    let mut buf = vec![0u8; 400];
    let body = b"\r\n\r\nbody";
    let n = DynHtmlResponse::write(&mut buf, &date(), body);
    assert_eq!(find_request_end(&buf[..n]), Some(n - body.len()));
    let n = PlaintextResponse::write(&mut buf, &date());
    assert_eq!(find_request_end(&buf[..n]), Some(n - 13));
    let n = JsonResponse::write(&mut buf, &date());
    assert_eq!(find_request_end(&buf[..n]), Some(n - 27));
    let n = NotFoundResponse::write(&mut buf);
    assert_eq!(find_request_end(&buf[..n]), Some(n));
}

#[test]
fn error_answers_go_to_open_connections_only() {
    let mut connections = vec![None, Some(Connection { send_buf: vec![0u8; 65536] })];
    assert_eq!(write_500(&mut connections, 0), 0);
    assert_eq!(write_503(&mut connections, 0), 0);
    let want = b"HTTP/1.1 500 Internal Server Error\r\nServer: V\r\nContent-Length: 0\r\n\r\n";
    assert_eq!(write_500(&mut connections, 1), want.len());
    assert!(connections[1].as_ref().unwrap().send_buf.starts_with(want));
    let want = b"HTTP/1.1 503 Service Unavailable\r\nServer: V\r\nContent-Length: 0\r\n\r\n";
    assert_eq!(write_503(&mut connections, 1), want.len());
    assert!(connections[1].as_ref().unwrap().send_buf.starts_with(want));
    assert!(connections[0].is_none());
}

#[test]
fn error_answers_need_room_for_themselves_only() {
    let mut connections = vec![
        Some(Connection { send_buf: vec![7u8; 70] }),
        Some(Connection { send_buf: vec![7u8; 66] }),
        Some(Connection { send_buf: Vec::new() }),
    ];
    assert_eq!(write_500(&mut connections, 0), 68);
    assert_eq!(write_503(&mut connections, 1), 66);
    let sends: Vec<&[u8]> =
        connections.iter().map(|c| c.as_ref().unwrap().send_buf.as_slice()).collect();
    let failed = b"HTTP/1.1 500 Internal Server Error\r\nServer: V\r\nContent-Length: 0\r\n\r\n";
    let missing = b"HTTP/1.1 503 Service Unavailable\r\nServer: V\r\nContent-Length: 0\r\n\r\n";
    assert_eq!(&sends[0][..68], failed);
    assert_eq!(&sends[0][68..], &[7, 7]);
    assert_eq!(sends[1], missing);
    assert!(sends[2].is_empty());
}

const PLAINTEXT_REQUEST: &[u8] =
    b"GET /plaintext HTTP/1.1\r\nHost: tfb-server:8080\r\nAccept: */*\r\n\r\n";
const JSON_REQUEST: &[u8] = b"GET /json HTTP/1.1\r\nHost: tfb-server:8080\r\nAccept: */*\r\n\r\n";

#[test]
fn sixteen_pipelined_requests_get_sixteen_responses() {
    let recv = PLAINTEXT_REQUEST.repeat(16);
    let mut send = vec![0u8; 65536];
    assert_eq!(process_pipelined(&recv, &mut send, &date()), (16, 16 * PLAINTEXT.len()));
    assert_eq!(&send[..16 * PLAINTEXT.len()], &PLAINTEXT.repeat(16)[..]);
    assert_eq!(send[16 * PLAINTEXT.len()], 0);
}

#[test]
fn mixed_requests_are_answered_in_order() {
    let recv = [JSON_REQUEST, b"GET /db HTTP/1.1\r\n\r\n", PLAINTEXT_REQUEST].concat();
    let want = [JSON, NOT_FOUND, PLAINTEXT].concat();
    let mut send = vec![0u8; want.len()];
    assert_eq!(process_pipelined(&recv, &mut send, &date()), (3, want.len()));
    assert_eq!(send, want);
}

#[test]
fn whole_requests_are_answered_apart_from_what_follows() {
    let both = [JSON_REQUEST, PLAINTEXT_REQUEST, b"GET /json HT"].concat();
    let mut send = vec![0u8; 1000];
    let (count, len) = process_pipelined(&both, &mut send, &date());
    let mut first = vec![0u8; 1000];
    let (n1, l1) = process_pipelined(JSON_REQUEST, &mut first, &date());
    let mut second = vec![0u8; 1000];
    let (n2, l2) =
        process_pipelined(&[PLAINTEXT_REQUEST, b"GET /json HT"].concat(), &mut second, &date());
    assert_eq!(count, n1 + n2);
    assert_eq!(&send[..len], &[&first[..l1], &second[..l2]].concat()[..]);
}

#[test]
fn a_short_request_is_classified_with_what_follows() {
    let mut send = vec![0u8; 1000];
    let (count, len) = process_pipelined(b"GET /p\r\n\r\n", &mut send, &date());
    assert_eq!((count, &send[..len]), (1, NOT_FOUND));
    let (count, len) = process_pipelined(b"GET /p\r\n\r\nGET /p", &mut send, &date());
    assert_eq!((count, &send[..len]), (1, PLAINTEXT));
}

#[test]
fn nothing_is_written_for_an_incomplete_request() {
    let mut send = vec![9u8; 10];
    assert_eq!(process_pipelined(b"GET /plaintext HTTP/1.1\r\n", &mut send, &date()), (0, 0));
    assert_eq!(process_pipelined(b"", &mut send, &date()), (0, 0));
    assert_eq!(send, vec![9u8; 10]);
}

#[test]
fn a_full_receive_buffer_cannot_overrun_the_send_buffer() {
    let mut send = vec![0u8; 15 * 4096];
    let recv = b"GET /j\r\n\r\n".repeat(409);
    let (count, len) = process_pipelined(&recv, &mut send, &date());
    assert_eq!(count, 409);
    assert_eq!(len, 408 * JSON.len() + NOT_FOUND.len());
    let recv = b"\r\n\r\n".repeat(1024);
    let (count, len) = process_pipelined(&recv, &mut send, &date());
    assert_eq!((count, len), (1024, 1024 * NOT_FOUND.len()));
}
