//! HTTP pipelining.
//!
//! All complete requests of one receive buffer are answered in one go, and
//! their responses are written back to back.

use vstd::prelude::*;

use crate::bufring::ProvidedBufRing;
use crate::bytes::{ascii, overwrite};
use crate::connections::SEND_BUF_SIZE;
use crate::date::DateCache;
use crate::parser::{
    classify_fast, find_request_end, is_boundary, law_request_end_is_first_boundary,
    law_request_ends_behind_the_blank_line, lemma_request_end_at, request_end, route_of, Route, MIN_REQUEST_LEN,
};
use crate::response::{JsonResponse, NotFoundResponse, PlaintextResponse};

verus! {

/// The response to a request on the given route: the two routes that need no
/// database have a greeting, every other one is not found here.
pub open spec fn reply(route: Route, date: Seq<u8>) -> Seq<u8> {
    match route {
        Route::Plaintext => PlaintextResponse::message(date),
        Route::Json => JsonResponse::message(date),
        _ => NotFoundResponse::message(),
    }
}

/// The responses to the complete requests at the front of `recv`, in order.
/// Each request runs to its closing blank line; what follows the last one is
/// left for later.
pub open spec fn replies(recv: Seq<u8>, date: Seq<u8>) -> Seq<Seq<u8>>
    decreases recv.len(),
{
    match request_end(recv) {
        Some(n) if 0 < n <= recv.len() => {
            seq![reply(route_of(recv), date)] + replies(recv.skip(n as int), date)
        },
        _ => Seq::empty(),
    }
}

/// The responses to the requests in `recv`, back to back.
pub open spec fn reply_bytes(recv: Seq<u8>, date: Seq<u8>) -> Seq<u8> {
    replies(recv, date).flatten()
}

/// Answers all complete requests in `recv_buf`. Returns how many there were
/// and how many bytes of responses were written to the front of `send_buf`.
pub fn process_pipelined(recv_buf: &[u8], send_buf: &mut [u8], date: &DateCache) -> (done: (
    usize,
    usize,
))
    requires
        reply_bytes(recv_buf@, date@).len() <= old(send_buf)@.len(),
    ensures
        done.0 == replies(recv_buf@, date@).len(),
        done.1 == reply_bytes(recv_buf@, date@).len(),
        final(send_buf)@ == overwrite(old(send_buf)@, reply_bytes(recv_buf@, date@)),
{
    let room: usize = send_buf.len();
    let mut recv_offset: usize = 0;
    let mut send_offset: usize = 0;
    let mut count: usize = 0;
    let ghost all = reply_bytes(recv_buf@, date@);
    proof {
        assert(recv_buf@.skip(0) =~= recv_buf@);
        assert(send_buf@.take(0) + all =~= all);
    }
    while recv_offset < recv_buf.len()
        invariant
            recv_offset <= recv_buf@.len(),
            count <= recv_offset,
            send_offset <= room,
            room == send_buf@.len(),
            room == old(send_buf)@.len(),
            all == reply_bytes(recv_buf@, date@),
            all.len() <= room,
            replies(recv_buf@, date@).len() == count + replies(
                recv_buf@.skip(recv_offset as int),
                date@,
            ).len(),
            all == send_buf@.take(send_offset as int) + reply_bytes(
                recv_buf@.skip(recv_offset as int),
                date@,
            ),
            forall|k: int| send_offset <= k < room ==> send_buf@[k] == old(send_buf)@[k],
        ensures
            replies(recv_buf@.skip(recv_offset as int), date@).len() == 0,
        decreases recv_buf@.len() - recv_offset,
    {
        let remaining: &[u8] = &recv_buf[recv_offset..recv_buf.len()];
        let ghost before = send_buf@;
        assert(remaining@ =~= recv_buf@.skip(recv_offset as int));
        proof {
            law_request_end_is_first_boundary(remaining@);
        }
        let req_end: usize = match find_request_end(remaining) {
            Some(end) => end,
            None => break,
        };
        let route = classify_fast(remaining);
        proof {
            let rest = remaining@.skip(req_end as int);
            lemma_flatten_first(reply(route, date@), replies(rest, date@));
            assert(rest =~= recv_buf@.skip(recv_offset + req_end));
            assert(all =~= before.take(send_offset as int) + reply(route, date@) + reply_bytes(
                rest,
                date@,
            ));
        }
        let (_, tail) = send_buf.split_at_mut(send_offset);
        let written: usize = match route {
            Route::Plaintext => PlaintextResponse::write(tail, date),
            Route::Json => JsonResponse::write(tail, date),
            _ => NotFoundResponse::write(tail),
        };
        send_offset += written;
        recv_offset += req_end;
        count += 1;
        assert(send_buf@.take(send_offset as int) =~= before.take(send_offset - written) + reply(
            route,
            date@,
        ));
    }
    proof {
        assert(replies(recv_buf@.skip(recv_offset as int), date@) =~= Seq::<Seq<u8>>::empty());
        assert(all =~= send_buf@.take(send_offset as int));
        assert(send_buf@ =~= overwrite(old(send_buf)@, all));
    }
    (count, send_offset)
}

proof fn lemma_flatten_first(first: Seq<u8>, rest: Seq<Seq<u8>>)
    ensures
        (seq![first] + rest).flatten() == first + rest.flatten(),
{
    assert((seq![first] + rest).drop_first() =~= rest);
}

/// Whether `recv` is made of complete requests and nothing else.
pub open spec fn is_whole(recv: Seq<u8>) -> bool
    decreases recv.len(),
{
    recv.len() == 0 || match request_end(recv) {
        Some(n) if 0 < n <= recv.len() => is_whole(recv.skip(n as int)),
        _ => false,
    }
}

/// Whether no request of `recv` would be answered otherwise if `more` had
/// arrived with it.
pub open spec fn is_settled(recv: Seq<u8>, more: Seq<u8>, date: Seq<u8>) -> bool
    decreases recv.len(),
{
    match request_end(recv) {
        Some(n) if 0 < n <= recv.len() => {
            &&& reply(route_of(recv), date) == reply(route_of(recv + more), date)
            &&& is_settled(recv.skip(n as int), more, date)
        },
        _ => true,
    }
}

/// A request that is complete stays the first request of the buffer, whatever
/// arrives behind it.
pub proof fn law_complete_request_is_stable(recv: Seq<u8>, more: Seq<u8>)
    requires
        request_end(recv) is Some,
    ensures
        request_end(recv + more) == request_end(recv),
{
    law_request_end_is_first_boundary(recv);
    let i = request_end(recv)->0 - 4;
    assert(is_boundary(recv + more, i));
    assert forall|j: int| j < i implies !is_boundary(recv + more, j) by {
        assert(!is_boundary(recv, j));
    }
    lemma_request_end_at(recv + more, i);
}

/// Pipelining keeps requests apart: where whole requests are followed by
/// further bytes, the answers are those to the requests, then those to the
/// further bytes. A request shorter than the shortest request line is
/// classified with the bytes behind it, so those requests must be settled.
pub proof fn law_pipelining_concatenates(recv: Seq<u8>, more: Seq<u8>, date: Seq<u8>)
    requires
        is_whole(recv),
        is_settled(recv, more, date),
    ensures
        replies(recv + more, date) == replies(recv, date) + replies(more, date),
        reply_bytes(recv + more, date) == reply_bytes(recv, date) + reply_bytes(more, date),
    decreases recv.len(),
{
    law_request_end_is_first_boundary(recv);
    if recv.len() == 0 {
        assert(recv + more =~= more);
        assert(replies(recv, date) =~= Seq::empty());
        assert(replies(recv + more, date) =~= replies(recv, date) + replies(more, date));
    } else {
        let n = request_end(recv)->0 as int;
        let first = reply(route_of(recv), date);
        law_complete_request_is_stable(recv, more);
        law_pipelining_concatenates(recv.skip(n), more, date);
        assert((recv + more).skip(n) =~= recv.skip(n) + more);
        assert(replies(recv + more, date) =~= seq![first] + replies(recv.skip(n) + more, date));
        assert(replies(recv + more, date) =~= replies(recv, date) + replies(more, date));
    }
    vstd::seq_lib::lemma_flatten_concat(replies(recv, date), replies(more, date));
}

/// A request as long as a request line or longer is settled: its route does
/// not depend on what follows it.
pub proof fn law_route_is_settled(recv: Seq<u8>, more: Seq<u8>)
    requires
        recv.len() >= MIN_REQUEST_LEN,
    ensures
        route_of(recv + more) == route_of(recv),
{
    assert((recv + more).take(5) =~= recv.take(5));
}

/// `n` copies of a request, back to back.
pub open spec fn repeated(request: Seq<u8>, n: nat) -> Seq<u8>
    decreases n,
{
    if n == 0 {
        Seq::empty()
    } else {
        request + repeated(request, (n - 1) as nat)
    }
}

/// A client that pipelines the same request `n` times gets its response `n`
/// times, for every complete request that is not shorter than a request line.
pub proof fn law_pipelined_copies_are_all_answered(request: Seq<u8>, n: nat, date: Seq<u8>)
    requires
        request.len() >= MIN_REQUEST_LEN,
        request_end(request) == Some(request.len()),
    ensures
        replies(repeated(request, n), date) == Seq::new(
            n,
            |i: int| reply(route_of(request), date),
        ),
    decreases n,
{
    let answer = reply(route_of(request), date);
    if n == 0 {
        law_request_end_is_first_boundary(Seq::<u8>::empty());
        assert(replies(repeated(request, n), date) =~= Seq::new(n, |i: int| answer));
    } else {
        let rest = repeated(request, (n - 1) as nat);
        law_pipelined_copies_are_all_answered(request, (n - 1) as nat, date);
        law_complete_request_is_stable(request, rest);
        law_route_is_settled(request, rest);
        assert((request + rest).skip(request.len() as int) =~= rest);
        assert(replies(repeated(request, n), date) =~= Seq::new(n, |i: int| answer));
    }
}

/// The responses are no more than fifteen times as long as what was received,
/// for every `Date` header line of up to 39 bytes; a standard one has 37.
pub proof fn law_replies_are_bounded(recv: Seq<u8>, date: Seq<u8>)
    requires
        date.len() <= 39,
    ensures
        reply_bytes(recv, date).len() <= 15 * recv.len(),
    decreases recv.len(),
{
    law_request_end_is_first_boundary(recv);
    match request_end(recv) {
        Some(n) => {
            let rest = recv.skip(n as int);
            law_replies_are_bounded(rest, date);
            lemma_flatten_first(reply(route_of(recv), date), replies(rest, date));
            lemma_reply_is_bounded(recv, date);
        },
        None => {
            assert(replies(recv, date) =~= Seq::empty());
        },
    }
}

/// The answers to a receive buffer of the default size fit in the send buffer
/// of a connection, whatever was received.
pub proof fn law_answers_fit_the_send_buffer(recv: Seq<u8>, date: Seq<u8>)
    requires
        recv.len() <= ProvidedBufRing::DEFAULT_BUF_SIZE,
        date.len() <= 39,
    ensures
        reply_bytes(recv, date).len() <= SEND_BUF_SIZE,
{
    law_replies_are_bounded(recv, date);
}

proof fn lemma_reply_is_bounded(recv: Seq<u8>, date: Seq<u8>)
    requires
        request_end(recv) is Some,
        date.len() <= 39,
    ensures
        reply(route_of(recv), date).len() <= 15 * request_end(recv)->0,
{
    reveal_strlit("HTTP/1.1 200 OK\r\nServer: V\r\nContent-Type: text/plain\r\nContent-Length: 13\r\n");
    reveal_strlit("Hello, World!");
    reveal_strlit("HTTP/1.1 200 OK\r\nServer: V\r\nContent-Type: application/json\r\nContent-Length: 27\r\n");
    reveal_strlit("{\"message\":\"Hello, World!\"}");
    reveal_strlit("HTTP/1.1 404 Not Found\r\nServer: V\r\nContent-Length: 0\r\n\r\n");
    reveal_strlit("\r\n");
    reveal_strlit("GET /");
    law_request_end_is_first_boundary(recv);
    let i = request_end(recv)->0 - 4;
    if route_of(recv) != Route::NotFound {
        let start = recv.take(5);
        assert(start == ascii("GET /"@));
        assert(recv[0] == start[0] && recv[1] == start[1] && recv[2] == start[2] && recv[3]
            == start[3] && recv[4] == start[4]);
        assert(i >= 6);
    }
}

/// Only the two greetings are answered with 200 here: whatever the date, the
/// response on every other route is the 404 message, whole.
pub proof fn law_other_routes_are_not_found(route: Route, date: Seq<u8>)
    ensures
        ({
            let ok = route == Route::Plaintext || route == Route::Json;
            let response = reply(route, date);
            &&& ok <==> response.take(12) == ascii("HTTP/1.1 200"@)
            &&& !ok <==> response.take(12) == ascii("HTTP/1.1 404"@)
            &&& !ok ==> response == ascii(
                "HTTP/1.1 404 Not Found\r\nServer: V\r\nContent-Length: 0\r\n\r\n"@,
            )
            &&& route == Route::Plaintext ==> response.skip(response.len() - 13) == ascii(
                "Hello, World!"@,
            )
            &&& route == Route::Json ==> response.skip(response.len() - 27) == ascii(
                "{\"message\":\"Hello, World!\"}"@,
            )
        }),
{
    reveal_strlit("HTTP/1.1 200");
    reveal_strlit("HTTP/1.1 404");
    reveal_strlit("HTTP/1.1 200 OK\r\nServer: V\r\nContent-Type: text/plain\r\nContent-Length: 13\r\n");
    reveal_strlit("Hello, World!");
    reveal_strlit("HTTP/1.1 200 OK\r\nServer: V\r\nContent-Type: application/json\r\nContent-Length: 27\r\n");
    reveal_strlit("{\"message\":\"Hello, World!\"}");
    reveal_strlit("HTTP/1.1 404 Not Found\r\nServer: V\r\nContent-Length: 0\r\n\r\n");
    let response = reply(route, date);
    let two = ascii("HTTP/1.1 200"@);
    let four = ascii("HTTP/1.1 404"@);
    assert(two[9] != four[9]);
    match route {
        Route::Plaintext => {
            assert(response.take(12) =~= two);
            assert(response.skip(response.len() - 13) =~= ascii("Hello, World!"@));
        },
        Route::Json => {
            assert(response.take(12) =~= two);
            assert(response.skip(response.len() - 27) =~= ascii(
                "{\"message\":\"Hello, World!\"}"@,
            ));
        },
        _ => {
            assert(response.take(12) =~= four);
        },
    }
}

/// Each complete request gets one response, in order: where the first blank
/// line of a buffer ends at `n`, the first response is that to a request on the
/// route that the buffer starts with, and the others are those to what stands
/// behind `n`. A buffer without a blank line gets none.
pub proof fn law_each_request_gets_one_response(recv: Seq<u8>, n: int, date: Seq<u8>)
    ensures
        (4 <= n <= recv.len() && recv.subrange(n - 4, n) == seq![13u8, 10u8, 13u8, 10u8] && (
        forall|j: int|
            0 <= j < n - 4 ==> #[trigger] recv.subrange(j, j + 4) != seq![13u8, 10u8, 13u8, 10u8]))
            ==> {
            let first = reply(route_of(recv), date);
            &&& replies(recv, date).len() == 1 + replies(recv.skip(n), date).len()
            &&& replies(recv, date)[0] == first
            &&& replies(recv, date).skip(1) == replies(recv.skip(n), date)
            &&& reply_bytes(recv, date) == first + reply_bytes(recv.skip(n), date)
        },
        (forall|j: int|
            0 <= j <= recv.len() - 4 ==> #[trigger] recv.subrange(j, j + 4) != seq![
                13u8,
                10u8,
                13u8,
                10u8,
            ]) ==> replies(recv, date).len() == 0 && reply_bytes(recv, date).len() == 0,
{
    law_request_ends_behind_the_blank_line(recv);
    match request_end(recv) {
        Some(end) => {
            let first = reply(route_of(recv), date);
            let rest = replies(recv.skip(end as int), date);
            lemma_flatten_first(first, rest);
            assert((seq![first] + rest).skip(1) =~= rest);
            if 4 <= n < end && recv.subrange(n - 4, n) == seq![13u8, 10u8, 13u8, 10u8] {
                let j = n - 4;
                assert(recv.subrange(j, j + 4) == seq![13u8, 10u8, 13u8, 10u8]);
            }
            if end < n {
                let j = end - 4;
                assert(recv.subrange(j, j + 4) == seq![13u8, 10u8, 13u8, 10u8]);
            }
            let j = end - 4;
            assert(recv.subrange(j, j + 4) == seq![13u8, 10u8, 13u8, 10u8]);
        },
        None => {
            if 4 <= n <= recv.len() {
                let j = n - 4;
                assert(recv.subrange(j, j + 4) != seq![13u8, 10u8, 13u8, 10u8]);
            }
            assert(replies(recv, date) =~= Seq::empty());
        },
    }
}

/// The responses stand back to back: as many bytes are written as all of them
/// have together, and the one to each request starts where those before it
/// end.
pub proof fn law_responses_stand_back_to_back(recv: Seq<u8>, date: Seq<u8>, k: int)
    requires
        0 <= k < replies(recv, date).len(),
    ensures
        ({
            let all = replies(recv, date);
            let start = all.take(k).flatten().len() as int;
            &&& start + all[k].len() <= reply_bytes(recv, date).len()
            &&& reply_bytes(recv, date).subrange(start, start + all[k].len()) == all[k]
            &&& k == all.len() - 1 ==> start + all[k].len() == reply_bytes(recv, date).len()
        }),
{
    let all = replies(recv, date);
    let front = all.take(k);
    let back = all.skip(k + 1);
    let start = front.flatten().len() as int;
    assert(all =~= front + (seq![all[k]] + back));
    vstd::seq_lib::lemma_flatten_concat(front, seq![all[k]] + back);
    lemma_flatten_first(all[k], back);
    if k == all.len() - 1 {
        assert(back =~= Seq::<Seq<u8>>::empty());
    }
    assert(reply_bytes(recv, date).subrange(start, start + all[k].len()) =~= all[k]);
}

} // verus!
