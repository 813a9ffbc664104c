//! HTTP response assembly.
//!
//! Each response is assembled from static header text, the cached `Date`
//! header and the body.

use vstd::prelude::*;

use crate::bytes::{ascii, literal, overwrite, write_at};
use crate::date::{is_header_line, DateCache};
use crate::digits::{decimal, format_usize, lemma_decimal_digits};
use crate::parser::{is_boundary, lemma_request_end_at, request_end};

verus! {

/// The plaintext response.
pub struct PlaintextResponse;

impl PlaintextResponse {
    pub const HEADER: &'static str =
        "HTTP/1.1 200 OK\r\nServer: V\r\nContent-Type: text/plain\r\nContent-Length: 13\r\n";
    pub const BODY: &'static str = "Hello, World!";

    /// The complete message for a given `Date` header line.
    pub open spec fn message(date: Seq<u8>) -> Seq<u8> {
        ascii(Self::HEADER@) + date + ascii("\r\n"@) + ascii(Self::BODY@)
    }

    /// Writes the complete plaintext response to the front of `buf` and returns
    /// its length.
    pub fn write(buf: &mut [u8], date: &DateCache) -> (written: usize)
        requires
            Self::message(date@).len() <= old(buf)@.len(),
        ensures
            written == Self::message(date@).len(),
            final(buf)@ == overwrite(old(buf)@, Self::message(date@)),
    {
        proof {
            reveal_strlit("HTTP/1.1 200 OK\r\nServer: V\r\nContent-Type: text/plain\r\nContent-Length: 13\r\n");
            reveal_strlit("Hello, World!");
            reveal_strlit("\r\n");
        }
        let off: usize = write_at(buf, 0, literal(Self::HEADER));
        let off: usize = write_at(buf, off, date.header_bytes());
        let off: usize = write_at(buf, off, literal("\r\n"));
        let off: usize = write_at(buf, off, literal(Self::BODY));
        assert(buf@.take(off as int) =~= Self::message(date@));
        assert(buf@ =~= buf@.take(off as int) + buf@.skip(off as int));
        off
    }
}

/// The JSON greeting.
pub struct JsonResponse;

impl JsonResponse {
    pub const HEADER: &'static str =
        "HTTP/1.1 200 OK\r\nServer: V\r\nContent-Type: application/json\r\nContent-Length: 27\r\n";
    pub const BODY: &'static str = "{\"message\":\"Hello, World!\"}";

    /// The complete message for a given `Date` header line.
    pub open spec fn message(date: Seq<u8>) -> Seq<u8> {
        ascii(Self::HEADER@) + date + ascii("\r\n"@) + ascii(Self::BODY@)
    }

    /// Writes the complete JSON response to the front of `buf` and returns
    /// its length.
    pub fn write(buf: &mut [u8], date: &DateCache) -> (written: usize)
        requires
            Self::message(date@).len() <= old(buf)@.len(),
        ensures
            written == Self::message(date@).len(),
            final(buf)@ == overwrite(old(buf)@, Self::message(date@)),
    {
        proof {
            reveal_strlit("HTTP/1.1 200 OK\r\nServer: V\r\nContent-Type: application/json\r\nContent-Length: 27\r\n");
            reveal_strlit("{\"message\":\"Hello, World!\"}");
            reveal_strlit("\r\n");
        }
        let off: usize = write_at(buf, 0, literal(Self::HEADER));
        let off: usize = write_at(buf, off, date.header_bytes());
        let off: usize = write_at(buf, off, literal("\r\n"));
        let off: usize = write_at(buf, off, literal(Self::BODY));
        assert(buf@.take(off as int) =~= Self::message(date@));
        assert(buf@ =~= buf@.take(off as int) + buf@.skip(off as int));
        off
    }
}

/// The answer to a request for an unknown path.
pub struct NotFoundResponse;

impl NotFoundResponse {
    pub const RESPONSE: &'static str =
        "HTTP/1.1 404 Not Found\r\nServer: V\r\nContent-Length: 0\r\n\r\n";

    /// The complete message.
    pub open spec fn message() -> Seq<u8> {
        ascii(Self::RESPONSE@)
    }

    /// Writes the complete 404 response to the front of `buf` and returns
    /// its length.
    pub fn write(buf: &mut [u8]) -> (written: usize)
        requires
            Self::message().len() <= old(buf)@.len(),
        ensures
            written == Self::message().len(),
            final(buf)@ == overwrite(old(buf)@, Self::message()),
    {
        proof {
            reveal_strlit("HTTP/1.1 404 Not Found\r\nServer: V\r\nContent-Length: 0\r\n\r\n");
        }
        let off: usize = write_at(buf, 0, literal(Self::RESPONSE));
        assert(buf@.take(off as int) =~= Self::message());
        assert(buf@ =~= buf@.take(off as int) + buf@.skip(off as int));
        off
    }
}

/// A JSON response with a body of its own.
/// The content length is computed at run time.
pub struct DynJsonResponse;

impl DynJsonResponse {
    pub const HEADERS_PREFIX: &'static str =
        "HTTP/1.1 200 OK\r\nServer: V\r\nContent-Type: application/json\r\n";

    /// The complete message for a `Date` header line and a body.
    pub open spec fn message(date: Seq<u8>, body: Seq<u8>) -> Seq<u8> {
        ascii(Self::HEADERS_PREFIX@) + ascii("Content-Length: "@) + decimal(body.len()) + ascii(
            "\r\n"@,
        ) + date + ascii("\r\n"@) + body
    }

    /// Writes the complete JSON response with the given body to the front of
    /// `buf` and returns its length.
    pub fn write(buf: &mut [u8], date: &DateCache, body: &[u8]) -> (written: usize)
        requires
            Self::message(date@, body@).len() <= old(buf)@.len(),
        ensures
            written == Self::message(date@, body@).len(),
            final(buf)@ == overwrite(old(buf)@, Self::message(date@, body@)),
    {
        proof {
            reveal_strlit("HTTP/1.1 200 OK\r\nServer: V\r\nContent-Type: application/json\r\n");
            reveal_strlit("Content-Length: ");
            reveal_strlit("\r\n");
        }
        let mut itoa_buf = itoa::Buffer::new();
        let off: usize = write_at(buf, 0, literal(Self::HEADERS_PREFIX));
        let off: usize = write_at(buf, off, literal("Content-Length: "));
        let off: usize = write_at(buf, off, format_usize(&mut itoa_buf, body.len()));
        let off: usize = write_at(buf, off, literal("\r\n"));
        let off: usize = write_at(buf, off, date.header_bytes());
        let off: usize = write_at(buf, off, literal("\r\n"));
        let off: usize = write_at(buf, off, body);
        assert(buf@.take(off as int) =~= Self::message(date@, body@));
        assert(buf@ =~= buf@.take(off as int) + buf@.skip(off as int));
        off
    }
}

/// An HTML response with a body of its own.
/// The content length is computed at run time.
pub struct DynHtmlResponse;

impl DynHtmlResponse {
    pub const HEADERS_PREFIX: &'static str =
        "HTTP/1.1 200 OK\r\nServer: V\r\nContent-Type: text/html; charset=utf-8\r\n";

    /// The complete message for a `Date` header line and a body.
    pub open spec fn message(date: Seq<u8>, body: Seq<u8>) -> Seq<u8> {
        ascii(Self::HEADERS_PREFIX@) + ascii("Content-Length: "@) + decimal(body.len()) + ascii(
            "\r\n"@,
        ) + date + ascii("\r\n"@) + body
    }

    /// Writes the complete HTML response with the given body to the front of
    /// `buf` and returns its length.
    pub fn write(buf: &mut [u8], date: &DateCache, body: &[u8]) -> (written: usize)
        requires
            Self::message(date@, body@).len() <= old(buf)@.len(),
        ensures
            written == Self::message(date@, body@).len(),
            final(buf)@ == overwrite(old(buf)@, Self::message(date@, body@)),
    {
        proof {
            reveal_strlit("HTTP/1.1 200 OK\r\nServer: V\r\nContent-Type: text/html; charset=utf-8\r\n");
            reveal_strlit("Content-Length: ");
            reveal_strlit("\r\n");
        }
        let mut itoa_buf = itoa::Buffer::new();
        let off: usize = write_at(buf, 0, literal(Self::HEADERS_PREFIX));
        let off: usize = write_at(buf, off, literal("Content-Length: "));
        let off: usize = write_at(buf, off, format_usize(&mut itoa_buf, body.len()));
        let off: usize = write_at(buf, off, literal("\r\n"));
        let off: usize = write_at(buf, off, date.header_bytes());
        let off: usize = write_at(buf, off, literal("\r\n"));
        let off: usize = write_at(buf, off, body);
        assert(buf@.take(off as int) =~= Self::message(date@, body@));
        assert(buf@ =~= buf@.take(off as int) + buf@.skip(off as int));
        off
    }
}

/// Whether `part` stands in `whole` at offset `at`.
pub open spec fn stands_at(whole: Seq<u8>, at: int, part: Seq<u8>) -> bool {
    &&& 0 <= at
    &&& at + part.len() <= whole.len()
    &&& whole.subrange(at, at + part.len()) == part
}

/// The header line that announces a body of `n` bytes, with the end of the
/// line before it.
pub open spec fn content_length_line(n: nat) -> Seq<u8> {
    ascii("\r\nContent-Length: "@) + decimal(n) + ascii("\r\n"@)
}

/// Whether `message` is a response that carries `body`: its head ends at the
/// first blank line, the head announces the body's length, and the body is all
/// that follows.
pub open spec fn is_framed(message: Seq<u8>, body: Seq<u8>) -> bool {
    let head_len = message.len() - body.len();
    &&& request_end(message) == Some(head_len as nat)
    &&& message.skip(head_len) == body
    &&& exists|at: int| #[trigger]
        stands_at(message.take(head_len), at, content_length_line(body.len()))
}

/// Whether `lines` is made of lines none of which is blank.
spec fn has_no_blank_line(lines: Seq<u8>) -> bool {
    &&& lines.len() >= 2
    &&& lines[lines.len() - 2] == '\r' as u8
    &&& lines[lines.len() - 1] == '\n' as u8
    &&& forall|j: int|
        0 <= j < lines.len() - 2 && lines[j] == '\r' as u8 ==> #[trigger] lines[j + 2]
            != '\r' as u8
}

proof fn lemma_framed(lines: Seq<u8>, date: Seq<u8>, body: Seq<u8>, at: int)
    requires
        has_no_blank_line(lines),
        is_header_line(date),
        stands_at(lines, at, content_length_line(body.len())),
    ensures
        is_framed(lines + date + ascii("\r\n"@) + body, body),
{
    reveal_strlit("\r\n");
    let message = lines + date + ascii("\r\n"@) + body;
    let head_len = lines.len() + date.len() + 2;
    let last = head_len - 4;
    assert(is_boundary(message, last));
    assert forall|j: int| j < last implies !is_boundary(message, j) by {
        if 0 <= j < lines.len() - 2 {
            assert(message[j] == lines[j]);
            assert(message[j + 2] == lines[j + 2]);
        } else if j == lines.len() - 2 {
            assert(message[j + 2] == date[0]);
        } else if j == lines.len() - 1 {
            assert(message[j] == lines[j]);
        } else if j >= lines.len() {
            assert(message[j] == date[j - lines.len()]);
        }
    }
    lemma_request_end_at(message, last);
    assert(message.skip(head_len as int) =~= body);
    let line = content_length_line(body.len());
    assert(message.take(head_len as int).subrange(at, at + line.len()) =~= lines.subrange(
        at,
        at + line.len(),
    ));
    assert(stands_at(message.take(head_len as int), at, line));
}

/// Every plaintext response is framed: its head ends at its first blank line,
/// `Content-Length` is the length of the greeting, and the greeting follows.
pub proof fn law_plaintext_is_framed(date: Seq<u8>)
    requires
        is_header_line(date),
    ensures
        is_framed(PlaintextResponse::message(date), ascii(PlaintextResponse::BODY@)),
{
    reveal_strlit("HTTP/1.1 200 OK\r\nServer: V\r\nContent-Type: text/plain\r\nContent-Length: 13\r\n");
    reveal_strlit("Hello, World!");
    reveal_strlit("\r\n");
    reveal_strlit("\r\nContent-Length: ");
    let lines = ascii(PlaintextResponse::HEADER@);
    let body = ascii(PlaintextResponse::BODY@);
    let line = content_length_line(body.len());
    assert(decimal(1) =~= seq![49u8]);
    assert(decimal(13) =~= seq![49u8, 51u8]);
    assert(lines.subrange(lines.len() - line.len(), lines.len() as int) =~= line);
    lemma_framed(lines, date, body, lines.len() - line.len());
}

/// Every JSON greeting is framed: its head ends at its first blank line,
/// `Content-Length` is the length of the greeting, and the greeting follows.
pub proof fn law_json_is_framed(date: Seq<u8>)
    requires
        is_header_line(date),
    ensures
        is_framed(JsonResponse::message(date), ascii(JsonResponse::BODY@)),
{
    reveal_strlit("HTTP/1.1 200 OK\r\nServer: V\r\nContent-Type: application/json\r\nContent-Length: 27\r\n");
    reveal_strlit("{\"message\":\"Hello, World!\"}");
    reveal_strlit("\r\n");
    reveal_strlit("\r\nContent-Length: ");
    let lines = ascii(JsonResponse::HEADER@);
    let body = ascii(JsonResponse::BODY@);
    let line = content_length_line(body.len());
    assert(decimal(2) =~= seq![50u8]);
    assert(decimal(27) =~= seq![50u8, 55u8]);
    assert(lines.subrange(lines.len() - line.len(), lines.len() as int) =~= line);
    lemma_framed(lines, date, body, lines.len() - line.len());
}

/// The 404 response is framed and has no body.
pub proof fn law_not_found_is_framed()
    ensures
        is_framed(NotFoundResponse::message(), Seq::<u8>::empty()),
{
    reveal_strlit("HTTP/1.1 404 Not Found\r\nServer: V\r\nContent-Length: 0\r\n\r\n");
    reveal_strlit("\r\n");
    reveal_strlit("\r\nContent-Length: ");
    lemma_bodiless_is_framed(NotFoundResponse::message());
}

/// A message whose only blank line is its last one, right behind a content
/// length of zero, is framed and has no body.
pub(crate) proof fn lemma_bodiless_is_framed(message: Seq<u8>)
    requires
        message.len() >= content_length_line(0).len() + 2,
        is_boundary(message, message.len() - 4),
        forall|j: int|
            0 <= j < message.len() - 4 && message[j] == '\r' as u8 ==> #[trigger] message[j + 2]
                != '\r' as u8,
        message.subrange(
            message.len() - 2 - content_length_line(0).len(),
            message.len() - 2,
        ) =~= content_length_line(0),
    ensures
        is_framed(message, Seq::<u8>::empty()),
{
    let line = content_length_line(0);
    let at = message.len() - 2 - line.len();
    lemma_request_end_at(message, message.len() - 4);
    assert(message.skip(message.len() as int) =~= Seq::<u8>::empty());
    assert(message.take(message.len() as int) =~= message);
    assert(stands_at(message, at, line));
}

proof fn lemma_dynamic_is_framed(prefix: Seq<u8>, date: Seq<u8>, body: Seq<u8>)
    requires
        has_no_blank_line(prefix),
        is_header_line(date),
    ensures
        is_framed(
            prefix + ascii("Content-Length: "@) + decimal(body.len()) + ascii("\r\n"@) + date
                + ascii("\r\n"@) + body,
            body,
        ),
{
    reveal_strlit("\r\n");
    reveal_strlit("Content-Length: ");
    reveal_strlit("\r\nContent-Length: ");
    lemma_decimal_digits(body.len());
    let digits = decimal(body.len());
    let name = ascii("Content-Length: "@);
    let lines = prefix + name + digits + ascii("\r\n"@);
    let line = content_length_line(body.len());
    assert(name.len() == 16);
    assert forall|j: int| 0 <= j < lines.len() - 2 && lines[j] == '\r' as u8 implies #[trigger] lines[j
        + 2] != '\r' as u8 by {
        if j < prefix.len() - 2 {
            assert(lines[j + 2] == prefix[j + 2]);
        } else if prefix.len() <= j < prefix.len() + 16 {
            assert(lines[j] == name[j - prefix.len()]);
        } else if prefix.len() + 16 <= j {
            assert(lines[j] == digits[j - prefix.len() - 16]);
        }
    }
    assert(lines.subrange(prefix.len() - 2, lines.len() as int) =~= line);
    lemma_framed(lines, date, body, prefix.len() - 2);
}

/// Every dynamic JSON response is framed: its head ends at its first blank
/// line, `Content-Length` is the length of the body, and the body follows.
pub proof fn law_dyn_json_is_framed(date: Seq<u8>, body: Seq<u8>)
    requires
        is_header_line(date),
    ensures
        is_framed(DynJsonResponse::message(date, body), body),
{
    reveal_strlit("HTTP/1.1 200 OK\r\nServer: V\r\nContent-Type: application/json\r\n");
    lemma_dynamic_is_framed(ascii(DynJsonResponse::HEADERS_PREFIX@), date, body);
}

/// Every dynamic HTML response is framed: its head ends at its first blank
/// line, `Content-Length` is the length of the body, and the body follows.
pub proof fn law_dyn_html_is_framed(date: Seq<u8>, body: Seq<u8>)
    requires
        is_header_line(date),
    ensures
        is_framed(DynHtmlResponse::message(date, body), body),
{
    reveal_strlit("HTTP/1.1 200 OK\r\nServer: V\r\nContent-Type: text/html; charset=utf-8\r\n");
    lemma_dynamic_is_framed(ascii(DynHtmlResponse::HEADERS_PREFIX@), date, body);
}

/// Every dynamic JSON response says so, for every date and body: it starts with
/// the status line, the server and the content type, then gives the length of
/// the body in decimal, then the date line, and behind a blank line the body.
pub proof fn law_dyn_json_head(date: Seq<u8>, body: Seq<u8>)
    ensures
        ({
            let message = DynJsonResponse::message(date, body);
            let start = ascii(
                "HTTP/1.1 200 OK\r\nServer: V\r\nContent-Type: application/json\r\nContent-Length: "@,
            );
            let digits = decimal(body.len());
            let end = message.len() - body.len() - 2 - date.len();
            &&& message.len() == start.len() + digits.len() + 2 + date.len() + 2 + body.len()
            &&& message.take(start.len() as int) == start
            &&& message.subrange(start.len() as int, (start.len() + digits.len()) as int) == digits
            &&& message.subrange(end - 2, end) == seq![13u8, 10u8]
            &&& message.subrange(end, end + date.len()) == date
            &&& message.subrange(end + date.len(), end + date.len() + 2) == seq![13u8, 10u8]
            &&& message.skip(message.len() - body.len()) == body
        }),
{
    reveal_strlit("HTTP/1.1 200 OK\r\nServer: V\r\nContent-Type: application/json\r\n");
    reveal_strlit("Content-Length: ");
    reveal_strlit("HTTP/1.1 200 OK\r\nServer: V\r\nContent-Type: application/json\r\nContent-Length: ");
    reveal_strlit("\r\n");
    let message = DynJsonResponse::message(date, body);
    let start = ascii(
        "HTTP/1.1 200 OK\r\nServer: V\r\nContent-Type: application/json\r\nContent-Length: "@,
    );
    let digits = decimal(body.len());
    let end = message.len() - body.len() - 2 - date.len();
    assert(ascii(DynJsonResponse::HEADERS_PREFIX@) + ascii("Content-Length: "@) =~= start);
    assert(message.take(start.len() as int) =~= start);
    assert(message.subrange(start.len() as int, (start.len() + digits.len()) as int) =~= digits);
    assert(message.subrange(end - 2, end) =~= seq![13u8, 10u8]);
    assert(message.subrange(end, end + date.len()) =~= date);
    assert(message.subrange(end + date.len(), end + date.len() + 2) =~= seq![13u8, 10u8]);
    assert(message.skip(message.len() - body.len()) =~= body);
}

/// Every dynamic HTML response says so, for every date and body: it starts with
/// the status line, the server and the content type, then gives the length of
/// the body in decimal, then the date line, and behind a blank line the body.
pub proof fn law_dyn_html_head(date: Seq<u8>, body: Seq<u8>)
    ensures
        ({
            let message = DynHtmlResponse::message(date, body);
            let start = ascii(
                "HTTP/1.1 200 OK\r\nServer: V\r\nContent-Type: text/html; charset=utf-8\r\nContent-Length: "@,
            );
            let digits = decimal(body.len());
            let end = message.len() - body.len() - 2 - date.len();
            &&& message.len() == start.len() + digits.len() + 2 + date.len() + 2 + body.len()
            &&& message.take(start.len() as int) == start
            &&& message.subrange(start.len() as int, (start.len() + digits.len()) as int) == digits
            &&& message.subrange(end - 2, end) == seq![13u8, 10u8]
            &&& message.subrange(end, end + date.len()) == date
            &&& message.subrange(end + date.len(), end + date.len() + 2) == seq![13u8, 10u8]
            &&& message.skip(message.len() - body.len()) == body
        }),
{
    reveal_strlit("HTTP/1.1 200 OK\r\nServer: V\r\nContent-Type: text/html; charset=utf-8\r\n");
    reveal_strlit("Content-Length: ");
    reveal_strlit("HTTP/1.1 200 OK\r\nServer: V\r\nContent-Type: text/html; charset=utf-8\r\nContent-Length: ");
    reveal_strlit("\r\n");
    let message = DynHtmlResponse::message(date, body);
    let start = ascii(
        "HTTP/1.1 200 OK\r\nServer: V\r\nContent-Type: text/html; charset=utf-8\r\nContent-Length: "@,
    );
    let digits = decimal(body.len());
    let end = message.len() - body.len() - 2 - date.len();
    assert(ascii(DynHtmlResponse::HEADERS_PREFIX@) + ascii("Content-Length: "@) =~= start);
    assert(message.take(start.len() as int) =~= start);
    assert(message.subrange(start.len() as int, (start.len() + digits.len()) as int) =~= digits);
    assert(message.subrange(end - 2, end) =~= seq![13u8, 10u8]);
    assert(message.subrange(end, end + date.len()) =~= date);
    assert(message.subrange(end + date.len(), end + date.len() + 2) =~= seq![13u8, 10u8]);
    assert(message.skip(message.len() - body.len()) =~= body);
}

/// The plaintext response says that it is one, for every date: the head as it is, then the date line, and behind a
/// blank line the greeting.
pub proof fn law_plaintext_text(date: Seq<u8>)
    ensures
        ({
            let message = PlaintextResponse::message(date);
            let head = ascii("HTTP/1.1 200 OK\r\nServer: V\r\nContent-Type: text/plain\r\nContent-Length: 13\r\n"@);
            let tail = ascii("\r\nHello, World!"@);
            &&& message.len() == head.len() + date.len() + tail.len()
            &&& message.take(head.len() as int) == head
            &&& message.subrange(head.len() as int, (head.len() + date.len()) as int) == date
            &&& message.skip((head.len() + date.len()) as int) == tail
        }),
{
    reveal_strlit("HTTP/1.1 200 OK\r\nServer: V\r\nContent-Type: text/plain\r\nContent-Length: 13\r\n");
    reveal_strlit("\r\nHello, World!");
    reveal_strlit("\r\n");
    reveal_strlit("Hello, World!");
    let message = PlaintextResponse::message(date);
    let head = ascii("HTTP/1.1 200 OK\r\nServer: V\r\nContent-Type: text/plain\r\nContent-Length: 13\r\n"@);
    let tail = ascii("\r\nHello, World!"@);
    assert(ascii("\r\n"@) + ascii(PlaintextResponse::BODY@) =~= tail);
    assert(message.take(head.len() as int) =~= head);
    assert(message.subrange(head.len() as int, (head.len() + date.len()) as int) =~= date);
    assert(message.skip((head.len() + date.len()) as int) =~= tail);
}

/// The JSON greeting says that it is one, for every date: the head as it is, then the date line, and behind a
/// blank line the greeting.
pub proof fn law_json_text(date: Seq<u8>)
    ensures
        ({
            let message = JsonResponse::message(date);
            let head = ascii("HTTP/1.1 200 OK\r\nServer: V\r\nContent-Type: application/json\r\nContent-Length: 27\r\n"@);
            let tail = ascii("\r\n{\"message\":\"Hello, World!\"}"@);
            &&& message.len() == head.len() + date.len() + tail.len()
            &&& message.take(head.len() as int) == head
            &&& message.subrange(head.len() as int, (head.len() + date.len()) as int) == date
            &&& message.skip((head.len() + date.len()) as int) == tail
        }),
{
    reveal_strlit("HTTP/1.1 200 OK\r\nServer: V\r\nContent-Type: application/json\r\nContent-Length: 27\r\n");
    reveal_strlit("\r\n{\"message\":\"Hello, World!\"}");
    reveal_strlit("\r\n");
    reveal_strlit("{\"message\":\"Hello, World!\"}");
    let message = JsonResponse::message(date);
    let head = ascii("HTTP/1.1 200 OK\r\nServer: V\r\nContent-Type: application/json\r\nContent-Length: 27\r\n"@);
    let tail = ascii("\r\n{\"message\":\"Hello, World!\"}"@);
    assert(ascii("\r\n"@) + ascii(JsonResponse::BODY@) =~= tail);
    assert(message.take(head.len() as int) =~= head);
    assert(message.subrange(head.len() as int, (head.len() + date.len()) as int) =~= date);
    assert(message.skip((head.len() + date.len()) as int) =~= tail);
}

/// The 404 response says that nothing was found and that it has no body.
pub proof fn law_not_found_text()
    ensures
        NotFoundResponse::message() == ascii(
            "HTTP/1.1 404 Not Found\r\nServer: V\r\nContent-Length: 0\r\n\r\n"@,
        ),
{
}

} // verus!
