use vortex::app::{App, RouteAction};
use vortex::bufring::ProvidedBufRing;
use vortex::connections::Action;
use vortex::date::DateCache;
use vortex::dbpool::DbRequest;
use vortex::filetable::FileTable;
use vortex::pipeline::process_pipelined;
use vortex::token::Token;
use vortex::worker::{Accepted, FollowUp, Worker};

/// Answers greetings at once, asks the database on `d`, and writes nothing on
/// `n`.
struct Greeter;

impl App for Greeter {
    type DbState = Vec<(u8, i32)>;

    fn classify(buf: &[u8]) -> RouteAction {
        match buf.get(5) {
            Some(b'p') | Some(b'j') => RouteAction::Fast(1),
            Some(b'n') => RouteAction::Fast(2),
            Some(b'd') => RouteAction::Db { id: 3, queries: buf.len() as i32 },
            _ => RouteAction::NotFound,
        }
    }

    fn handle_fast(id: u8, recv: &[u8], send: &mut [u8], date: &DateCache) -> (usize, usize) {
        if id == 1 {
            process_pipelined(recv, send, date)
        } else {
            (0, 0)
        }
    }

    fn db_statements() -> Vec<(&'static str, &'static str, &'static [u32])> {
        vec![("w", "SELECT id FROM world WHERE id=$1", &[23])]
    }

    fn db_start(id: u8, queries: i32, wbuf: &mut Vec<u8>, state: &mut Vec<(u8, i32)>) {
        wbuf.extend_from_slice(format!("Q{}", queries).as_bytes());
        state.push((id, queries));
    }

    fn db_finish(
        state: &mut Vec<(u8, i32)>,
        rbuf: &[u8],
        rpos: usize,
        send: &mut [u8],
        _date: &DateCache,
        _body: &mut [u8],
    ) -> usize {
        state.clear();
        send[..rpos].copy_from_slice(&rbuf[..rpos]);
        rpos
    }
}

fn date() -> DateCache {
    DateCache::new(b"Date: Sun, 06 Nov 1994 08:49:37 GMT\r\n".to_vec()).unwrap()
}

fn open(worker: &mut Worker<Greeter>) -> u32 {
    let mut out = Vec::new();
    match worker.accepted(50) {
        Accepted::Register { slot, fd } => {
            worker.accept_registered(slot, fd, true, &mut out);
            assert_eq!(out, vec![Action::CloseFd { fd: 50 }, Action::Recv { slot }]);
            slot
        }
        other => panic!("{:?}", other),
    }
}

fn add_db(worker: &mut Worker<Greeter>) -> u32 {
    let slot = worker.admit_db().unwrap();
    worker.db_registered(slot, true);
    slot
}

fn request(
    worker: &mut Worker<Greeter>,
    ring: &mut ProvidedBufRing,
    slot: u32,
    text: &[u8],
) -> Vec<Action> {
    let mut out = Vec::new();
    ring.get_buf_mut(1)[..text.len()].copy_from_slice(text);
    worker.received(slot, text.len() as i32, Some(1), ring, &date(), &mut out);
    out
}

fn ring() -> ProvidedBufRing {
    ProvidedBufRing::new(0, 2, 256).unwrap()
}

#[test]
fn tokens_round_trip() {
    for index in [0u32, 1, 4095, u32::MAX] {
        for token in [
            Token::Recv(index),
            Token::Send(index),
            Token::Close(index),
            Token::DbSend(index),
            Token::DbRecv(index),
        ] {
            assert_eq!(Token::decode(token.encode()), Some(token));
        }
    }
    assert_eq!(Token::Accept.encode(), 0);
    assert_eq!(Token::Recv(7).encode(), (1 << 32) | 7);
    assert_eq!(Token::DbRecv(7).encode(), (5 << 32) | 7);
    assert_eq!(Token::decode(9), Some(Token::Accept));
    assert_eq!(Token::decode(6 << 32), None);
    assert_eq!(Action::CloseSlot { slot: 3 }.token(), Some(Token::Close(3)));
    assert_eq!(Action::CloseFd { fd: 3 }.token(), None);
}

#[test]
fn slots_are_handed_out_once() {
    let mut table = FileTable::new(2);
    let a = table.acquire().unwrap();
    let b = table.acquire().unwrap();
    assert!(a != b && a < 2 && b < 2);
    assert_eq!(table.acquire(), None);
    table.release(a);
    table.release(a);
    table.release(77);
    assert_eq!(table.acquire(), Some(a));
    assert_eq!(table.acquire(), None);
    assert_eq!(FileTable::new(0).acquire(), None);
}

#[test]
fn a_failed_accept_changes_nothing() {
    let mut worker = Worker::<Greeter>::new();
    assert_eq!(worker.accepted(-24), Accepted::Nothing);
    assert_eq!(worker.db_count(), 0);
}

#[test]
fn connections_beyond_the_table_are_refused() {
    let mut worker = Worker::<Greeter>::new();
    for _ in 0..4096 {
        assert!(worker.admit_db().is_some());
    }
    assert_eq!(worker.accepted(9), Accepted::Refused { fd: 9 });
    worker.db_registered(17, false);
    assert_eq!(worker.accepted(9), Accepted::Register { slot: 17, fd: 9 });
}

#[test]
fn a_connection_that_cannot_be_registered_is_closed() {
    let mut worker = Worker::<Greeter>::new();
    let mut out = Vec::new();
    let slot = match worker.accepted(8) {
        Accepted::Register { slot, .. } => slot,
        other => panic!("{:?}", other),
    };
    worker.accept_registered(slot, 8, false, &mut out);
    assert_eq!(out, vec![Action::CloseFd { fd: 8 }]);
    assert!(worker.send_data(slot).is_none());
    assert_eq!(worker.accepted(8), Accepted::Register { slot, fd: 8 });
}

#[test]
fn a_greeting_is_sent_and_the_next_request_asked_for() {
    let (mut worker, mut ring) = (Worker::<Greeter>::new(), ring());
    let slot = open(&mut worker);
    let out = request(&mut worker, &mut ring, slot, b"GET /plaintext HTTP/1.1\r\n\r\n");
    let sent = match out[..] {
        [Action::Send { slot: s, len }] if s == slot => len as usize,
        _ => panic!("{:?}", out),
    };
    assert!(worker.send_data(slot).unwrap()[..sent].ends_with(b"\r\n\r\nHello, World!"));
    let mut out = Vec::new();
    worker.sent(slot, sent as i32, &mut out);
    assert_eq!(out, vec![Action::Recv { slot }]);
}

#[test]
fn unanswered_requests_close_the_connection() {
    for text in [&b"GET /n HTTP/1.1\r\n\r\n"[..], &b"GET /x HTTP/1.1\r\n\r\n"[..]] {
        let (mut worker, mut ring) = (Worker::<Greeter>::new(), ring());
        let slot = open(&mut worker);
        let out = request(&mut worker, &mut ring, slot, text);
        assert_eq!(out, vec![Action::CloseSlot { slot }]);
        assert!(worker.send_data(slot).is_none());
        assert_eq!(request(&mut worker, &mut ring, slot, text), vec![]);
    }
}

#[test]
fn errors_and_the_end_of_the_stream_close_the_connection() {
    let (mut worker, mut ring) = (Worker::<Greeter>::new(), ring());
    let slot = open(&mut worker);
    let mut out = Vec::new();
    worker.received(slot, 0, None, &mut ring, &date(), &mut out);
    assert_eq!(out, vec![Action::CloseSlot { slot }]);
    worker.received(slot, -104, None, &mut ring, &date(), &mut out);
    worker.received(1 << 20, -104, None, &mut ring, &date(), &mut out);
    assert_eq!(out.len(), 1);
    worker.closed(slot);
    let again = open(&mut worker);
    assert_eq!(again, slot);
    out.clear();
    worker.sent(slot, -32, &mut out);
    assert_eq!(out, vec![Action::CloseSlot { slot }]);
    worker.sent(slot, 10, &mut out);
    assert_eq!(out.len(), 1);
}

#[test]
fn send_buffers_are_reused() {
    let (mut worker, mut ring) = (Worker::<Greeter>::new(), ring());
    let slot = open(&mut worker);
    request(&mut worker, &mut ring, slot, b"GET /json HTTP/1.1\r\n\r\n");
    let mut out = Vec::new();
    worker.close(slot, &mut out);
    worker.closed(slot);
    let slot = open(&mut worker);
    assert!(worker.send_data(slot).unwrap().starts_with(b"HTTP/1.1 200 OK"));
    for _ in 0..300 {
        let slot = open(&mut worker);
        assert_eq!(worker.send_data(slot).unwrap().len(), 65536);
    }
}

#[test]
fn without_a_database_requests_are_answered_503() {
    let (mut worker, mut ring) = (Worker::<Greeter>::new(), ring());
    let slot = open(&mut worker);
    let out = request(&mut worker, &mut ring, slot, b"GET /db HTTP/1.1\r\n\r\n");
    let want = b"HTTP/1.1 503 Service Unavailable\r\nServer: V\r\nContent-Length: 0\r\n\r\n";
    assert_eq!(out, vec![Action::Send { slot, len: want.len() as u32 }]);
    assert!(worker.send_data(slot).unwrap().starts_with(want));
}

#[test]
fn a_database_request_runs_to_its_answer() {
    let (mut worker, mut ring) = (Worker::<Greeter>::new(), ring());
    let db_slot = add_db(&mut worker);
    let slot = open(&mut worker);
    let out = request(&mut worker, &mut ring, slot, b"GET /db HTTP/1.1\r\n\r\n");
    assert_eq!(out, vec![Action::DbSend { index: 0, slot: db_slot, len: 3 }]);
    assert_eq!(worker.db_message(0), b"Q20");
    let mut out = Vec::new();
    worker.db_sent(0, 3, &mut out);
    assert_eq!(out, vec![Action::DbRecv { index: 0, slot: db_slot, offset: 0, len: 32768 }]);
    worker.db_space(0)[..4].copy_from_slice(b"half");
    out.clear();
    assert!(worker.db_received(0, 4, &mut out));
    assert_eq!(out, vec![]);
    assert_eq!(worker.db_data(0), b"half");
    let mut body = vec![0u8; 16];
    worker.db_progress(0, false, &date(), &mut body, &mut out);
    assert_eq!(out, vec![Action::DbRecv { index: 0, slot: db_slot, offset: 4, len: 32764 }]);
    worker.db_space(0)[..2].copy_from_slice(b"ab");
    out.clear();
    assert!(worker.db_received(0, 2, &mut out));
    worker.db_progress(0, true, &date(), &mut body, &mut out);
    assert_eq!(out, vec![Action::Send { slot, len: 6 }]);
    assert!(worker.send_data(slot).unwrap().starts_with(b"halfab"));
}

#[test]
fn waiting_requests_are_served_first_in_first_out() {
    let mut worker = Worker::<Greeter>::new();
    add_db(&mut worker);
    let slots: Vec<u32> = (0..4).map(|_| open(&mut worker)).collect();
    let mut out = Vec::new();
    for (i, slot) in slots.iter().enumerate() {
        let request = DbRequest { http_slot: *slot, route_id: 3, queries: i as i32 + 10 };
        worker.take_on_db(request, &mut out);
    }
    assert_eq!(out.len(), 1);
    assert_eq!(worker.db_message(0), b"Q10");
    worker.close(slots[1], &mut out);
    out.clear();
    let mut body = [0u8; 4];
    worker.db_progress(0, true, &date(), &mut body, &mut out);
    assert!(matches!(out[..], [Action::DbSend { index: 0, .. }]));
    assert_eq!(worker.db_message(0), b"Q12");
    worker.db_progress(0, true, &date(), &mut body, &mut out);
    assert_eq!(worker.db_message(0), b"Q13");
}

#[test]
fn idle_connections_are_taken_in_order() {
    let mut worker = Worker::<Greeter>::new();
    for _ in 0..3 {
        add_db(&mut worker);
    }
    let slot = open(&mut worker);
    let mut out = Vec::new();
    for queries in 0..3 {
        worker.take_on_db(DbRequest { http_slot: slot, route_id: 3, queries }, &mut out);
    }
    let started: Vec<u32> = out
        .iter()
        .map(|a| match a {
            Action::DbSend { index, .. } => *index,
            other => panic!("{:?}", other),
        })
        .collect();
    assert_eq!(started, vec![0, 1, 2]);
}

#[test]
fn failed_operations_are_answered_500_and_the_next_is_started() {
    let want = b"HTTP/1.1 500 Internal Server Error\r\nServer: V\r\nContent-Length: 0\r\n\r\n";
    for receiving in [false, true] {
        let mut worker = Worker::<Greeter>::new();
        let db_slot = add_db(&mut worker);
        let (a, b) = (open(&mut worker), open(&mut worker));
        let mut out = Vec::new();
        worker.take_on_db(DbRequest { http_slot: a, route_id: 3, queries: 1 }, &mut out);
        worker.take_on_db(DbRequest { http_slot: b, route_id: 3, queries: 22 }, &mut out);
        out.clear();
        if receiving {
            assert!(!worker.db_received(0, 0, &mut out));
        } else {
            worker.db_sent(0, -32, &mut out);
        }
        assert_eq!(
            out,
            vec![
                Action::Send { slot: a, len: want.len() as u32 },
                Action::DbSend { index: 0, slot: db_slot, len: 3 },
            ]
        );
        assert!(worker.send_data(a).unwrap().starts_with(want));
        assert_eq!(worker.db_message(0), b"Q22");
    }
}

#[test]
fn an_operation_for_a_closed_connection_is_not_answered() {
    let mut worker = Worker::<Greeter>::new();
    add_db(&mut worker);
    let slot = open(&mut worker);
    let mut out = Vec::new();
    worker.take_on_db(DbRequest { http_slot: slot, route_id: 3, queries: 1 }, &mut out);
    worker.close(slot, &mut out);
    out.clear();
    let mut body = [0u8; 4];
    worker.db_progress(0, true, &date(), &mut body, &mut out);
    assert_eq!(out, vec![]);
    worker.take_on_db(DbRequest { http_slot: slot, route_id: 3, queries: 5 }, &mut out);
    assert!(matches!(out[..], [Action::DbSend { index: 0, .. }]));
}

#[test]
fn database_connections_are_opened_until_one_fails() {
    let mut worker = Worker::<Greeter>::new();
    assert!(!worker.wants_db(0, false));
    assert!(worker.wants_db(2, false));
    add_db(&mut worker);
    assert!(worker.wants_db(2, false));
    assert!(!worker.wants_db(2, true));
    add_db(&mut worker);
    assert!(!worker.wants_db(2, false));
}

#[test]
fn completions_go_to_the_operation_that_their_user_data_names() {
    let mut worker = Worker::<Greeter>::new();
    let mut ring = ring();
    let mut out = Vec::new();
    let date = date();
    add_db(&mut worker);

    let next = worker.completed(Token::Accept.encode(), 50, None, &mut ring, &date, &mut out);
    let slot = match next {
        FollowUp::Accept(Accepted::Register { slot, fd: 50 }) => slot,
        other => panic!("{:?}", other),
    };
    worker.accept_registered(slot, 50, true, &mut out);
    out.clear();

    let request = b"GET /db HTTP/1.1\r\n\r\n";
    ring.get_buf_mut(1)[..request.len()].copy_from_slice(request);
    let recv = Token::Recv(slot).encode();
    let next = worker.completed(recv, request.len() as i32, Some(1), &mut ring, &date, &mut out);
    assert_eq!(next, FollowUp::Provide { buf_id: 1 });
    assert_eq!(out.len(), 1);
    assert_eq!(out[0].token(), Some(Token::DbSend(0)));
    out.clear();

    let next = worker.completed(Token::DbSend(0).encode(), 3, None, &mut ring, &date, &mut out);
    assert_eq!(next, FollowUp::Nothing);
    assert_eq!(out[0].token(), Some(Token::DbRecv(0)));
    out.clear();

    worker.db_space(0)[..2].copy_from_slice(b"OK");
    let next = worker.completed(Token::DbRecv(0).encode(), 2, None, &mut ring, &date, &mut out);
    assert_eq!(next, FollowUp::Progress { index: 0 });
    worker.db_progress(0, true, &date, &mut [], &mut out);
    assert_eq!(out, vec![Action::Send { slot, len: 2 }]);
    out.clear();

    let next = worker.completed(Token::Send(slot).encode(), 2, None, &mut ring, &date, &mut out);
    assert_eq!((next, out[0]), (FollowUp::Nothing, Action::Recv { slot }));
    out.clear();

    let next = worker.completed(recv, 0, None, &mut ring, &date, &mut out);
    assert_eq!((next, out[0]), (FollowUp::Nothing, Action::CloseSlot { slot }));
    out.clear();

    let next = worker.completed(Token::Close(slot).encode(), 0, None, &mut ring, &date, &mut out);
    assert_eq!(next, FollowUp::Nothing);
    assert_eq!(worker.completed(9 << 32, 7, None, &mut ring, &date, &mut out), FollowUp::Nothing);
    assert!(out.is_empty());
    assert_eq!(worker.accepted(51), Accepted::Register { slot, fd: 51 });
}

#[test]
fn completions_that_cannot_be_are_told_apart() {
    let mut worker = Worker::<Greeter>::new();
    let ring = ring();
    add_db(&mut worker);
    assert!(worker.expects(Token::Recv(4095).encode(), 256, Some(1), &ring));
    assert!(!worker.expects(Token::Recv(4096).encode(), 256, Some(1), &ring));
    assert!(!worker.expects(Token::Recv(0).encode(), 257, Some(1), &ring));
    assert!(!worker.expects(Token::Recv(0).encode(), 1, Some(2), &ring));
    assert!(!worker.expects(Token::Recv(0).encode(), 1, None, &ring));
    assert!(worker.expects(Token::Recv(4096).encode(), 0, None, &ring));
    assert!(worker.expects(Token::Send(4096).encode(), -1, None, &ring));
    assert!(!worker.expects(Token::Send(4096).encode(), 0, None, &ring));
    assert!(worker.expects(Token::DbSend(0).encode(), 9, None, &ring));
    assert!(!worker.expects(Token::DbSend(1).encode(), 9, None, &ring));
    assert!(worker.expects(Token::DbRecv(0).encode(), 32768, None, &ring));
    assert!(!worker.expects(Token::DbRecv(0).encode(), 32769, None, &ring));
    assert!(worker.expects(7 << 32, i32::MAX, None, &ring));
}
