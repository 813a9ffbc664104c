//! Tiered HTTP request parsing.
//!
//! The first tier classifies a request by a few leading bytes; the second
//! parses the whole request head with `httparse`.

use vstd::prelude::*;
use vstd::utf8::encode_utf8;

use crate::bytes::{ascii, literal, same_bytes};
use crate::digits::{
    are_digits, decimal, digit_run, digits_value, is_digit, is_digit_byte, law_decimal_reads_back,
    law_digit_run_ends_at_the_first_other_byte,
};

verus! {

/// Routes that the first tier recognises.
#[derive(Debug, Clone, Copy, PartialEq, Eq, Structural)]
pub enum Route {
    Plaintext,
    Json,
    Db,
    Queries,
    Fortunes,
    Updates,
    NotFound,
}

/// The shortest request line, `GET / HTTP/1.1` with its line end.
pub const MIN_REQUEST_LEN: usize = 16;

/// The route that a buffer starting with a request belongs to: the buffer is
/// long enough for a request line, starts with `GET /`, and the byte behind
/// the slash names the route.
pub open spec fn route_of(buf: Seq<u8>) -> Route {
    if buf.len() < MIN_REQUEST_LEN || buf.take(5) != ascii("GET /"@) {
        Route::NotFound
    } else if buf[5] == 'p' as u8 {
        Route::Plaintext
    } else if buf[5] == 'j' as u8 {
        Route::Json
    } else if buf[5] == 'd' as u8 {
        Route::Db
    } else if buf[5] == 'q' as u8 {
        Route::Queries
    } else if buf[5] == 'f' as u8 {
        Route::Fortunes
    } else if buf[5] == 'u' as u8 {
        Route::Updates
    } else {
        Route::NotFound
    }
}

/// Classifies the request at the front of `buf` by its first bytes.
pub fn classify_fast(buf: &[u8]) -> (route: Route)
    ensures
        route == route_of(buf@),
{
    if buf.len() < MIN_REQUEST_LEN {
        return Route::NotFound;
    }
    proof {
        reveal_strlit("GET /");
        assert(ascii("GET /"@).len() == 5);
    }
    if buf[0] != 'G' as u8 || buf[1] != 'E' as u8 || buf[2] != 'T' as u8 || buf[3] != ' ' as u8
        || buf[4] != '/' as u8 {
        assert(buf@.take(5)[0] == buf@[0] && buf@.take(5)[1] == buf@[1] && buf@.take(5)[2]
            == buf@[2] && buf@.take(5)[3] == buf@[3] && buf@.take(5)[4] == buf@[4]);
        return Route::NotFound;
    }
    assert(buf@.take(5) =~= ascii("GET /"@));
    let letter: u8 = buf[5];
    if letter == 'p' as u8 {
        Route::Plaintext
    } else if letter == 'j' as u8 {
        Route::Json
    } else if letter == 'd' as u8 {
        Route::Db
    } else if letter == 'q' as u8 {
        Route::Queries
    } else if letter == 'f' as u8 {
        Route::Fortunes
    } else if letter == 'u' as u8 {
        Route::Updates
    } else {
        Route::NotFound
    }
}

/// Whether the blank line that closes a request head starts at `i`.
pub open spec fn is_boundary(buf: Seq<u8>, i: int) -> bool {
    &&& 0 <= i
    &&& i + 4 <= buf.len()
    &&& buf[i] == '\r' as u8
    &&& buf[i + 1] == '\n' as u8
    &&& buf[i + 2] == '\r' as u8
    &&& buf[i + 3] == '\n' as u8
}

/// The offset just behind the first boundary at or after `from`.
pub open spec fn end_from(buf: Seq<u8>, from: int) -> Option<nat>
    decreases buf.len() - from,
{
    if from + 4 > buf.len() {
        None
    } else if is_boundary(buf, from) {
        Some((from + 4) as nat)
    } else {
        end_from(buf, from + 1)
    }
}

/// The length of the request at the front of `buf`, its closing blank line
/// taken in; `None` while the request is incomplete.
pub open spec fn request_end(buf: Seq<u8>) -> Option<nat> {
    end_from(buf, 0)
}

proof fn lemma_end_from(buf: Seq<u8>, from: int)
    requires
        0 <= from,
    ensures
        match end_from(buf, from) {
            Some(n) => {
                &&& from + 4 <= n <= buf.len()
                &&& is_boundary(buf, n - 4)
                &&& forall|j: int| from <= j < n - 4 ==> !is_boundary(buf, j)
            },
            None => forall|j: int| from <= j ==> !is_boundary(buf, j),
        },
    decreases buf.len() - from,
{
    if from + 4 <= buf.len() && !is_boundary(buf, from) {
        lemma_end_from(buf, from + 1);
    }
}

/// A request ends behind the first blank line of the buffer, and only there:
/// `request_end` gives the offset behind the first boundary, and `None` where
/// there is no boundary at all.
pub proof fn law_request_end_is_first_boundary(buf: Seq<u8>)
    ensures
        match request_end(buf) {
            Some(n) => {
                &&& 4 <= n <= buf.len()
                &&& is_boundary(buf, n - 4)
                &&& forall|j: int| j < n - 4 ==> !is_boundary(buf, j)
            },
            None => forall|j: int| !is_boundary(buf, j),
        },
{
    lemma_end_from(buf, 0);
}

/// Where a first boundary is known, the request ends behind it.
pub(crate) proof fn lemma_request_end_at(buf: Seq<u8>, i: int)
    requires
        is_boundary(buf, i),
        forall|j: int| j < i ==> !is_boundary(buf, j),
    ensures
        request_end(buf) == Some((i + 4) as nat),
{
    lemma_end_from(buf, 0);
}

/// Finds the end of the request at the front of a buffer.
pub fn find_request_end(buf: &[u8]) -> (end: Option<usize>)
    ensures
        match end {
            Some(n) => request_end(buf@) == Some(n as nat),
            None => request_end(buf@) is None,
        },
{
    if buf.len() < 4 {
        return None;
    }
    let last: usize = buf.len() - 3;
    let mut i: usize = 0;
    while i < last
        invariant
            i <= last,
            last == buf@.len() - 3,
            request_end(buf@) == end_from(buf@, i as int),
        decreases last - i,
    {
        if buf[i] == '\r' as u8 && buf[i + 1] == '\n' as u8 && buf[i + 2] == '\r' as u8 && buf[i + 3]
            == '\n' as u8 {
            return Some(i + 4);
        }
        i += 1;
    }
    None
}

/// The least index in `from..end` that holds `byte`, or `end`.
pub open spec fn first_at(buf: Seq<u8>, byte: u8, from: int, end: int) -> int
    decreases end - from,
{
    if from >= end {
        end
    } else if buf[from] == byte {
        from
    } else {
        first_at(buf, byte, from + 1, end)
    }
}

/// The end of a request's URL: the first space behind its leading slash, or
/// the end of the buffer.
pub open spec fn url_end(buf: Seq<u8>) -> int {
    first_at(buf, ' ' as u8, 5, buf.len() as int)
}

/// Whether a query parameter starts at `at`: behind the first `?` of the URL,
/// or behind a `&` that follows it.
pub open spec fn is_param_start(buf: Seq<u8>, at: int) -> bool {
    let question = first_at(buf, '?' as u8, 5, url_end(buf));
    &&& question < at <= url_end(buf)
    &&& at == question + 1 || buf[at - 1] == '&' as u8
}

/// Where the value of the parameter that starts at `at` begins, for one that
/// is named `q` or `queries`.
pub open spec fn count_value(buf: Seq<u8>, at: int, end: int) -> Option<int> {
    if at + 2 <= end && buf.subrange(at, at + 2) == ascii("q="@) {
        Some(at + 2)
    } else if at + 8 <= end && buf.subrange(at, at + 8) == ascii("queries="@) {
        Some(at + 8)
    } else {
        None
    }
}

/// Where the value of the first parameter named `q` or `queries` begins,
/// among the one that starts at `at` and those behind it.
pub open spec fn query_value_from(buf: Seq<u8>, at: int, end: int) -> Option<int>
    decreases end - at,
    when at <= end
{
    let next = first_at(buf, '&' as u8, at, end);
    if count_value(buf, at, end) is Some {
        count_value(buf, at, end)
    } else if at <= next < end {
        query_value_from(buf, next + 1, end)
    } else {
        None
    }
}

/// Where the value of the query count parameter begins: behind `q=` or
/// `queries=` of the first parameter with that name.
pub open spec fn query_value_at(buf: Seq<u8>) -> Option<int> {
    let question = first_at(buf, '?' as u8, 5, url_end(buf));
    if question < url_end(buf) {
        query_value_from(buf, question + 1, url_end(buf))
    } else {
        None
    }
}

/// The number of queries that a request asks for: the digits of the query
/// count parameter's value, where they make a positive `i32`, else one.
pub open spec fn queries_of(buf: Seq<u8>) -> int {
    match query_value_at(buf) {
        Some(at) => count_at(buf, at),
        None => 1,
    }
}

/// The count that the digits from `at` on spell, where it is a positive
/// `i32`, else one.
pub open spec fn count_at(buf: Seq<u8>, at: int) -> int {
    let value = digits_value(buf.subrange(at, digit_run(buf, at, buf.len() as int)));
    if 1 <= value <= i32::MAX {
        value as int
    } else {
        1
    }
}

proof fn lemma_first_at(buf: Seq<u8>, byte: u8, from: int, end: int)
    ensures
        first_at(buf, byte, from, end) <= end,
        from <= end ==> from <= first_at(buf, byte, from, end),
        from > end ==> first_at(buf, byte, from, end) == end,
        first_at(buf, byte, from, end) < end ==> buf[first_at(buf, byte, from, end)] == byte,
        forall|i: int| from <= i < first_at(buf, byte, from, end) ==> #[trigger] buf[i] != byte,
    decreases end - from,
{
    if from < end && buf[from] != byte {
        lemma_first_at(buf, byte, from + 1, end);
    }
}

/// The parameters from one start on: the value found is that of the first of
/// them with the name.
proof fn lemma_query_value_from(buf: Seq<u8>, at: int)
    requires
        is_param_start(buf, at),
    ensures
        match query_value_from(buf, at, url_end(buf)) {
            Some(value) => exists|start: int|
                {
                    &&& at <= start
                    &&& #[trigger] is_param_start(buf, start)
                    &&& count_value(buf, start, url_end(buf)) == Some(value)
                    &&& forall|other: int|
                        at <= other < start && #[trigger] is_param_start(buf, other)
                            ==> count_value(buf, other, url_end(buf)) is None
                },
            None => forall|other: int|
                at <= other && #[trigger] is_param_start(buf, other) ==> count_value(
                    buf,
                    other,
                    url_end(buf),
                ) is None,
        },
    decreases url_end(buf) - at,
{
    let end = url_end(buf);
    let next = first_at(buf, '&' as u8, at, end);
    lemma_first_at(buf, '&' as u8, at, end);
    assert forall|other: int| at < other <= next && #[trigger] is_param_start(
        buf,
        other,
    ) implies false by {
        assert(buf[other - 1] != '&' as u8);
    }
    if count_value(buf, at, end) is None && next < end {
        assert(is_param_start(buf, next + 1));
        lemma_query_value_from(buf, next + 1);
    }
}

/// The query count is that of the first parameter named `q` or `queries`, and
/// no other parameter has a say: where a value is found, it stands behind that
/// name, and no earlier parameter has it; where none is found, no parameter has
/// the name.
pub proof fn law_query_count_is_named(buf: Seq<u8>)
    ensures
        match query_value_at(buf) {
            Some(value) => exists|start: int|
                {
                    &&& #[trigger] is_param_start(buf, start)
                    &&& count_value(buf, start, url_end(buf)) == Some(value)
                    &&& forall|other: int|
                        other < start && #[trigger] is_param_start(buf, other) ==> count_value(
                            buf,
                            other,
                            url_end(buf),
                        ) is None
                },
            None => {
                &&& queries_of(buf) == 1
                &&& forall|other: int| #[trigger]
                    is_param_start(buf, other) ==> count_value(buf, other, url_end(buf)) is None
            },
        },
{
    let question = first_at(buf, '?' as u8, 5, url_end(buf));
    lemma_first_at(buf, '?' as u8, 5, url_end(buf));
    if question < url_end(buf) {
        assert(is_param_start(buf, question + 1));
        lemma_query_value_from(buf, question + 1);
    }
}

/// Finds the first `byte` in `buf[from..end]`; `end` where there is none.
fn position(buf: &[u8], byte: u8, from: usize, end: usize) -> (at: usize)
    requires
        end <= buf@.len(),
    ensures
        at == first_at(buf@, byte, from as int, end as int),
{
    let mut i: usize = from;
    while i < end && buf[i] != byte
        invariant
            end <= buf@.len(),
            first_at(buf@, byte, i as int, end as int) == first_at(
                buf@,
                byte,
                from as int,
                end as int,
            ),
        decreases end - i,
    {
        i += 1;
    }
    if i < end {
        i
    } else {
        end
    }
}

/// Tests whether `text` stands at `at` in `buf[..end]`.
fn holds_at(buf: &[u8], at: usize, end: usize, text: &[u8]) -> (yes: bool)
    requires
        at <= end <= buf@.len(),
    ensures
        yes == (at + text@.len() <= end && buf@.subrange(at as int, at + text@.len()) == text@),
{
    if text.len() > end - at {
        return false;
    }
    same_bytes(&buf[at..at + text.len()], text)
}

/// Extracts the query count from a request: `?q=5` and `?queries=5` both ask
/// for five, as does a parameter of that name behind others. One is returned
/// where there is no such parameter and where its value is no positive number
/// of the result's type.
pub fn parse_queries_param(buf: &[u8]) -> (queries: i32)
    ensures
        queries == queries_of(buf@),
        queries >= 1,
{
    proof {
        lemma_first_at(buf@, ' ' as u8, 5, buf@.len() as int);
    }
    let end: usize = position(buf, ' ' as u8, 5, buf.len());
    let question: usize = position(buf, '?' as u8, 5, end);
    if question >= end {
        return 1;
    }
    let mut at: usize = question + 1;
    while at <= end
        invariant
            at <= end <= buf@.len(),
            end == url_end(buf@),
            query_value_at(buf@) == query_value_from(buf@, at as int, end as int),
        ensures
            query_value_at(buf@) is None,
        decreases end - at,
    {
        proof {
            reveal_strlit("q=");
            reveal_strlit("queries=");
            lemma_first_at(buf@, '&' as u8, at as int, end as int);
        }
        if holds_at(buf, at, end, literal("q=")) {
            return parse_count(buf, at + 2);
        }
        if holds_at(buf, at, end, literal("queries=")) {
            return parse_count(buf, at + 8);
        }
        let next: usize = position(buf, '&' as u8, at, end);
        if next >= end {
            break ;
        }
        at = next + 1;
    }
    1
}

/// Parses the digits from `from` on, up to the first other byte.
fn parse_count(buf: &[u8], from: usize) -> (count: i32)
    requires
        from <= buf@.len(),
    ensures
        count == count_at(buf@, from as int),
        count >= 1,
{
    let end: usize = buf.len();
    let ghost stop = digit_run(buf@, from as int, end as int);
    let mut val: i32 = 0;
    let mut j: usize = from;
    assert(buf@.subrange(from as int, from as int) =~= Seq::<u8>::empty());
    while j < end && is_digit_byte(buf[j])
        invariant
            from <= j <= end,
            end == buf@.len(),
            stop == digit_run(buf@, from as int, end as int),
            stop == digit_run(buf@, j as int, end as int),
            val == digits_value(buf@.subrange(from as int, j as int)),
        decreases end - j,
    {
        let digit: i32 = (buf[j] - 48) as i32;
        assert(buf@.subrange(from as int, j + 1).drop_last() =~= buf@.subrange(
            from as int,
            j as int,
        ));
        proof {
            lemma_digit_run_value(buf@, from as int, j + 1, end as int);
        }
        let next = match val.checked_mul(10) {
            Some(tens) => tens.checked_add(digit),
            None => None,
        };
        match next {
            Some(v) => {
                val = v;
            },
            None => {
                return 1;
            },
        }
        j += 1;
    }
    if val < 1 {
        1
    } else {
        val
    }
}

/// The value of a run of digits is at least that of each of its prefixes.
proof fn lemma_digit_run_value(buf: Seq<u8>, from: int, mid: int, end: int)
    requires
        0 <= from <= mid <= end <= buf.len(),
    ensures
        mid <= digit_run(buf, mid, end) <= end,
        digits_value(buf.subrange(from, mid)) <= digits_value(
            buf.subrange(from, digit_run(buf, mid, end)),
        ),
    decreases end - mid,
{
    if mid < end && is_digit(buf[mid]) {
        assert(buf.subrange(from, mid + 1).drop_last() =~= buf.subrange(from, mid));
        lemma_digit_run_value(buf, from, mid + 1, end);
    }
}

/// How many header lines the second tier takes.
pub const MAX_HEADERS: usize = 32;

/// What is wrong with the bytes of a request.
#[derive(Debug, Clone, Copy, PartialEq, Eq, Structural)]
pub enum SyntaxError {
    /// Invalid byte in a header name.
    HeaderName,
    /// Invalid byte in a header value.
    HeaderValue,
    /// Invalid byte in a line end.
    NewLine,
    /// Invalid byte in a response status.
    Status,
    /// Invalid byte where a token is required.
    Token,
    /// More headers than there is room for.
    TooManyHeaders,
    /// Invalid byte in the HTTP version.
    Version,
}

/// A parsed HTTP request.
#[derive(Debug)]
pub struct ParsedRequest<'a> {
    pub method: &'a str,
    pub path: &'a str,
    pub version: u8,
}

/// Why a request could not be parsed.
#[derive(Debug, Clone, Copy, PartialEq, Eq, Structural)]
pub enum ParseError {
    /// The request is valid so far, but its end has not arrived yet.
    Incomplete,
    /// The request is malformed.
    Invalid(SyntaxError),
}

/// The fields that `httparse` fills in when it reaches the end of a request
/// head, and the length of that head.
pub struct RequestHead<'a> {
    pub method: Option<&'a str>,
    pub path: Option<&'a str>,
    pub version: Option<u8>,
    pub len: usize,
}

/// The text of a request head.
pub struct HeadView {
    pub method: Option<Seq<char>>,
    pub path: Option<Seq<char>>,
    pub version: Option<u8>,
    pub len: nat,
}

/// The text of a parsed request.
pub struct RequestView {
    pub method: Seq<char>,
    pub path: Seq<char>,
    pub version: u8,
}

/// The text that an optional string holds.
pub open spec fn text_of(text: Option<&str>) -> Option<Seq<char>> {
    match text {
        Some(t) => Some(t@),
        None => None,
    }
}

impl<'a> View for RequestHead<'a> {
    type V = HeadView;

    open spec fn view(&self) -> HeadView {
        HeadView {
            method: text_of(self.method),
            path: text_of(self.path),
            version: self.version,
            len: self.len as nat,
        }
    }
}

impl<'a> View for ParsedRequest<'a> {
    type V = RequestView;

    open spec fn view(&self) -> RequestView {
        RequestView { method: self.method@, path: self.path@, version: self.version }
    }
}

/// What `httparse` makes of a buffer: a complete head, `None` for one that
/// has not ended yet, or an error.
pub open spec fn outcome_view(outcome: Result<Option<RequestHead<'_>>, SyntaxError>) -> Result<
    Option<HeadView>,
    SyntaxError,
> {
    match outcome {
        Ok(Some(head)) => Ok(Some(head@)),
        Ok(None) => Ok(None),
        Err(e) => Err(e),
    }
}

/// The outcome of parsing `buf` as a request with room for `max_headers`
/// header lines.
pub uninterp spec fn httparse_request(buf: Seq<u8>, max_headers: nat) -> Result<Option<HeadView>, SyntaxError>;

/// Whether a complete head ends at `len`: it is not empty and lies within the
/// buffer, and whatever stands behind it, the outcome is the same.
pub open spec fn ends_head(buf: Seq<u8>, max_headers: nat, len: int) -> bool {
    &&& 0 < len <= buf.len()
    &&& forall|more: Seq<u8>| #[trigger]
        httparse_request(buf.take(len) + more, max_headers) == httparse_request(buf, max_headers)
}

/// The request that a head describes: a missing method is `GET`, a missing
/// path is `/`, and a missing version is HTTP/1.1.
pub open spec fn request_of(head: HeadView) -> RequestView {
    RequestView {
        method: match head.method {
            Some(m) => m,
            None => "GET"@,
        },
        path: match head.path {
            Some(p) => p,
            None => "/"@,
        },
        version: match head.version {
            Some(v) => v,
            None => 1,
        },
    }
}

/// Whether the head of `len` bytes starts with the line of `request`, behind
/// nothing but line ends: the method in `start..space`, a space, the path up to
/// `end`, a space, and the version.
pub open spec fn is_request_line(
    buf: Seq<u8>,
    len: int,
    request: RequestView,
    start: int,
    space: int,
    end: int,
) -> bool {
    &&& 0 <= start < space
    &&& space + 1 < end
    &&& end + 9 < len <= buf.len()
    &&& forall|i: int|
        0 <= i < start ==> #[trigger] buf[i] == '\r' as u8 || buf[i] == '\n' as u8
    &&& buf.subrange(start, space) == encode_utf8(request.method)
    &&& buf[space] == ' ' as u8
    &&& buf.subrange(space + 1, end) == encode_utf8(request.path)
    &&& buf[end] == ' ' as u8
    &&& buf.subrange(end + 1, end + 9) == ascii("HTTP/1."@).push((48 + request.version) as u8)
}

/// Whether the head of `len` bytes starts with the line of `request`.
pub open spec fn has_request_line(buf: Seq<u8>, len: int, request: RequestView) -> bool {
    exists|start: int, space: int, end: int| #[trigger]
        is_request_line(buf, len, request, start, space, end)
}

/// `httparse::Request::parse` with room for `N` headers. Its outcome depends
/// on the bytes and on that room alone. A complete head has all three fields,
/// its version is the minor version of HTTP/1.0 or HTTP/1.1, it is not empty
/// and lies within the buffer, and bytes behind it have no influence. The three
/// fields are read off its request line: the method, a space, the path, a space
/// and the version, behind nothing but line ends.
#[verifier::external_body]
fn httparse_head<const N: usize>(buf: &[u8]) -> (outcome: Result<Option<RequestHead<'_>>, SyntaxError>)
    ensures
        outcome_view(outcome) == httparse_request(buf@, N as nat),
        outcome matches Ok(Some(head)) ==> head.method is Some && head.path is Some && (
        head.version matches Some(v) && v <= 1) && ends_head(buf@, N as nat, head.len as int)
            && has_request_line(buf@, head.len as int, request_of(head@)),
{
    let mut headers = [httparse::EMPTY_HEADER; N];
    let mut req = httparse::Request::new(&mut headers);
    match req.parse(buf) {
        Ok(httparse::Status::Complete(len)) => Ok(Some(RequestHead { method: req.method, path: req.path, version: req.version, len })),
        Ok(httparse::Status::Partial) => Ok(None),
        Err(e) => Err(match e {
            httparse::Error::HeaderName => SyntaxError::HeaderName,
            httparse::Error::HeaderValue => SyntaxError::HeaderValue,
            httparse::Error::NewLine => SyntaxError::NewLine,
            httparse::Error::Status => SyntaxError::Status,
            httparse::Error::Token => SyntaxError::Token,
            httparse::Error::TooManyHeaders => SyntaxError::TooManyHeaders,
            httparse::Error::Version => SyntaxError::Version,
        }),
    }
}

/// Whether `parsed` is what follows from an outcome of `httparse`: a complete
/// head gives its request and length, one that has not ended is incomplete,
/// and an error is passed on.
pub open spec fn follows_from(
    parsed: Result<(ParsedRequest<'_>, usize), ParseError>,
    outcome: Result<Option<HeadView>, SyntaxError>,
) -> bool {
    match outcome {
        Ok(Some(head)) => parsed matches Ok((request, len)) && request@ == request_of(head) && len
            == head.len,
        Ok(None) => parsed == Err::<(ParsedRequest<'_>, usize), _>(ParseError::Incomplete),
        Err(e) => parsed == Err::<(ParsedRequest<'_>, usize), _>(ParseError::Invalid(e)),
    }
}

/// Turns an outcome of `httparse` into a request and its length.
pub fn parsed_request<'a>(outcome: Result<Option<RequestHead<'a>>, SyntaxError>) -> (parsed: Result<
    (ParsedRequest<'a>, usize),
    ParseError,
>)
    ensures
        follows_from(parsed, outcome_view(outcome)),
{
    match outcome {
        Ok(Some(head)) => {
            let request = ParsedRequest {
                method: head.method.unwrap_or("GET"),
                path: head.path.unwrap_or("/"),
                version: head.version.unwrap_or(1),
            };
            Ok((request, head.len))
        },
        Ok(None) => Err(ParseError::Incomplete),
        Err(e) => Err(ParseError::Invalid(e)),
    }
}

/// Bytes behind a parsed request have no influence: a buffer that starts with
/// the bytes of a request gives that request with the same length, whatever
/// follows them. `parsed` is what `parse_request` returns for `buf`, and
/// `again` what it returns for the other buffer.
pub proof fn law_bytes_behind_a_request_have_no_influence(
    buf: Seq<u8>,
    more: Seq<u8>,
    parsed: Result<(ParsedRequest<'_>, usize), ParseError>,
    again: Result<(ParsedRequest<'_>, usize), ParseError>,
)
    requires
        parsed is Ok,
        follows_from(parsed, httparse_request(buf, MAX_HEADERS as nat)),
        ends_head(buf, MAX_HEADERS as nat, parsed->Ok_0.1 as int),
        follows_from(
            again,
            httparse_request(buf.take(parsed->Ok_0.1 as int) + more, MAX_HEADERS as nat),
        ),
    ensures
        0 < parsed->Ok_0.1 <= buf.len(),
        again matches Ok((request, len)) && request@ == parsed->Ok_0.0@ && len == parsed->Ok_0.1,
{
}

/// Parses the request at the front of `buf` in full. Returns it with the
/// number of bytes that its head takes; bytes behind them have no influence.
pub fn parse_request(buf: &[u8]) -> (parsed: Result<(ParsedRequest<'_>, usize), ParseError>)
    ensures
        follows_from(parsed, httparse_request(buf@, MAX_HEADERS as nat)),
        parsed matches Ok((request, len)) ==> request.version <= 1 && ends_head(
            buf@,
            MAX_HEADERS as nat,
            len as int,
        ) && has_request_line(buf@, len as int, request@),
{
    parsed_request(httparse_head::<MAX_HEADERS>(buf))
}

/// A request ends right behind the first carriage return, line feed, carriage
/// return, line feed of the buffer; a buffer without these four bytes in a row
/// holds no complete request.
pub proof fn law_request_ends_behind_the_blank_line(buf: Seq<u8>)
    ensures
        match request_end(buf) {
            Some(n) => {
                &&& 4 <= n <= buf.len()
                &&& buf.subrange(n - 4, n as int) == seq![13u8, 10u8, 13u8, 10u8]
                &&& forall|j: int|
                    0 <= j < n - 4 ==> #[trigger] buf.subrange(j, j + 4) != seq![
                        13u8,
                        10u8,
                        13u8,
                        10u8,
                    ]
            },
            None => forall|j: int|
                0 <= j <= buf.len() - 4 ==> #[trigger] buf.subrange(j, j + 4) != seq![
                    13u8,
                    10u8,
                    13u8,
                    10u8,
                ],
        },
{
    let blank = seq![13u8, 10u8, 13u8, 10u8];
    law_request_end_is_first_boundary(buf);
    assert forall|j: int| 0 <= j <= buf.len() - 4 implies (is_boundary(buf, j) <==> #[trigger] buf.subrange(
        j,
        j + 4,
    ) == blank) by {
        let four = buf.subrange(j, j + 4);
        assert(four[0] == buf[j] && four[1] == buf[j + 1] && four[2] == buf[j + 2] && four[3]
            == buf[j + 3]);
        if is_boundary(buf, j) {
            assert(four =~= blank);
        }
    }
}

/// The route is told by the first six bytes of a buffer that is long enough
/// for a request line, and every other buffer has none.
pub proof fn law_route_is_told_by_the_path(buf: Seq<u8>)
    ensures
        ({
            let six = buf.take(6);
            let long = buf.len() >= 16;
            &&& route_of(buf) == Route::Plaintext <==> long && six == ascii("GET /p"@)
            &&& route_of(buf) == Route::Json <==> long && six == ascii("GET /j"@)
            &&& route_of(buf) == Route::Db <==> long && six == ascii("GET /d"@)
            &&& route_of(buf) == Route::Queries <==> long && six == ascii("GET /q"@)
            &&& route_of(buf) == Route::Fortunes <==> long && six == ascii("GET /f"@)
            &&& route_of(buf) == Route::Updates <==> long && six == ascii("GET /u"@)
        }),
{
    reveal_strlit("GET /");
    reveal_strlit("GET /p");
    reveal_strlit("GET /j");
    reveal_strlit("GET /d");
    reveal_strlit("GET /q");
    reveal_strlit("GET /f");
    reveal_strlit("GET /u");
    if buf.len() >= 16 {
        let six = buf.take(6);
        let start = ascii("GET /"@);
        assert(six.take(5) =~= buf.take(5));
        assert(six[5] == buf[5]);
        assert(six =~= six.take(5).push(six[5]));
        assert(ascii("GET /p"@) =~= start.push('p' as u8));
        assert(ascii("GET /j"@) =~= start.push('j' as u8));
        assert(ascii("GET /d"@) =~= start.push('d' as u8));
        assert(ascii("GET /q"@) =~= start.push('q' as u8));
        assert(ascii("GET /f"@) =~= start.push('f' as u8));
        assert(ascii("GET /u"@) =~= start.push('u' as u8));
        assert(forall|b: u8| #[trigger] start.push(b).take(5) =~= start && start.push(b)[5] == b);
    }
}

/// Every outcome of `httparse` has its answer: a complete head gives its own
/// length and fields, with `GET`, `/` and HTTP/1.1 for those that it lacks, one
/// that has not ended is incomplete, and an error is passed on as it is.
pub proof fn law_outcomes_have_answers(
    parsed: Result<(ParsedRequest<'_>, usize), ParseError>,
    outcome: Result<Option<HeadView>, SyntaxError>,
)
    requires
        follows_from(parsed, outcome),
    ensures
        parsed is Ok <==> outcome matches Ok(Some(_)),
        parsed matches Err(ParseError::Incomplete) <==> outcome matches Ok(None),
        outcome matches Err(e) ==> parsed matches Err(ParseError::Invalid(f)) && f == e,
        outcome matches Ok(Some(head)) ==> {
            let request = parsed->Ok_0.0@;
            &&& parsed->Ok_0.1 == head.len
            &&& head.method matches Some(m) ==> request.method == m
            &&& head.method is None ==> request.method == "GET"@
            &&& head.path matches Some(p) ==> request.path == p
            &&& head.path is None ==> request.path == "/"@
            &&& head.version matches Some(v) ==> request.version == v
            &&& head.version is None ==> request.version == 1
        },
{
}

/// A query count is the number that its digits spell: for every string of
/// digits that is followed by no further digit, the count that starts there is
/// its value, where that is positive and an `i32`, and one where it is not.
pub proof fn law_count_is_the_value_of_its_digits(buf: Seq<u8>, at: int, digits: Seq<u8>)
    requires
        0 <= at,
        at + digits.len() <= buf.len(),
        buf.subrange(at, at + digits.len()) == digits,
        are_digits(digits),
        at + digits.len() < buf.len() ==> !(48 <= buf[at + digits.len()] <= 57),
    ensures
        1 <= digits_value(digits) <= 0x7fff_ffff ==> count_at(buf, at) == digits_value(digits),
        digits_value(digits) < 1 || digits_value(digits) > 0x7fff_ffff ==> count_at(buf, at) == 1,
{
    let end = buf.len() as int;
    let run = digit_run(buf, at, end);
    law_digit_run_ends_at_the_first_other_byte(buf, at, end);
    assert forall|i: int| at <= i < at + digits.len() implies 48 <= #[trigger] buf[i] <= 57 by {
        assert(buf.subrange(at, at + digits.len())[i - at] == buf[i]);
        assert(is_digit(digits[i - at]));
    }
    assert(run == at + digits.len());
}

/// Every positive `i32` is read as itself: where its decimal form stands and no
/// further digit follows, it is the count.
pub proof fn law_counts_read_back(buf: Seq<u8>, at: int, n: nat)
    requires
        1 <= n <= 0x7fff_ffff,
        0 <= at,
        at + decimal(n).len() <= buf.len(),
        buf.subrange(at, at + decimal(n).len()) == decimal(n),
        at + decimal(n).len() < buf.len() ==> !(48 <= buf[at + decimal(n).len()] <= 57),
    ensures
        count_at(buf, at) == n,
{
    law_decimal_reads_back(n);
    law_count_is_the_value_of_its_digits(buf, at, decimal(n));
}

/// Where the first such byte is known, it is found.
proof fn lemma_first_at_is(buf: Seq<u8>, byte: u8, from: int, end: int, at: int)
    requires
        from <= at <= end,
        forall|i: int| from <= i < at ==> #[trigger] buf[i] != byte,
        at < end ==> buf[at] == byte,
    ensures
        first_at(buf, byte, from, end) == at,
    decreases at - from,
{
    if from < at {
        assert(buf[from] != byte);
        lemma_first_at_is(buf, byte, from + 1, end, at);
    }
}

/// Whether `far` holds from `at + d` on what `near` holds from `at` on.
spec fn agree_from(near: Seq<u8>, far: Seq<u8>, at: int, d: int) -> bool {
    &&& 0 <= at <= near.len()
    &&& 0 <= d
    &&& far.len() == near.len() + d
    &&& forall|i: int| at <= i < near.len() ==> #[trigger] near[i] == far[i + d]
}

proof fn lemma_first_at_shifts(near: Seq<u8>, far: Seq<u8>, d: int, byte: u8, from: int, end: int)
    requires
        agree_from(near, far, from, d),
        end <= near.len(),
    ensures
        first_at(far, byte, from + d, end + d) == first_at(near, byte, from, end) + d,
    decreases end - from,
{
    if from < end {
        assert(near[from] == far[from + d]);
        if near[from] != byte {
            lemma_first_at_shifts(near, far, d, byte, from + 1, end);
        }
    }
}

proof fn lemma_digit_run_shifts(near: Seq<u8>, far: Seq<u8>, d: int, from: int)
    requires
        agree_from(near, far, from, d),
    ensures
        digit_run(far, from + d, far.len() as int) == digit_run(near, from, near.len() as int) + d,
        from <= digit_run(near, from, near.len() as int) <= near.len(),
    decreases near.len() - from,
{
    if from < near.len() {
        assert(near[from] == far[from + d]);
        if is_digit(near[from]) {
            lemma_digit_run_shifts(near, far, d, from + 1);
        }
    }
}

proof fn lemma_query_value_shifts(near: Seq<u8>, far: Seq<u8>, d: int, at: int, end: int)
    requires
        agree_from(near, far, at, d),
        at <= end <= near.len(),
    ensures
        match query_value_from(near, at, end) {
            Some(v) => at <= v <= end && query_value_from(far, at + d, end + d) == Some(v + d)
                && count_at(far, v + d) == count_at(near, v),
            None => query_value_from(far, at + d, end + d) is None,
        },
    decreases end - at,
{
    reveal_strlit("q=");
    reveal_strlit("queries=");
    if at + 2 <= end {
        assert(far.subrange(at + d, at + d + 2) =~= near.subrange(at, at + 2));
    }
    if at + 8 <= end {
        assert(far.subrange(at + d, at + d + 8) =~= near.subrange(at, at + 8));
    }
    lemma_first_at_shifts(near, far, d, '&' as u8, at, end);
    lemma_first_at(near, '&' as u8, at, end);
    let next = first_at(near, '&' as u8, at, end);
    match count_value(near, at, end) {
        Some(v) => {
            assert(agree_from(near, far, v, d));
            lemma_digit_run_shifts(near, far, d, v);
            let run = digit_run(near, v, near.len() as int);
            assert(far.subrange(v + d, run + d) =~= near.subrange(v, run));
        },
        None => {
            if next < end {
                assert(agree_from(near, far, next + 1, d));
                lemma_query_value_shifts(near, far, d, next + 1, end);
            }
        },
    }
}

/// Whether `text` holds neither of two bytes.
pub open spec fn holds_neither(text: Seq<u8>, a: u8, b: u8) -> bool {
    forall|i: int| 0 <= i < text.len() ==> #[trigger] text[i] != a && text[i] != b
}

/// The question mark of a request whose path holds neither a question mark nor
/// a space stands right behind the path.
proof fn lemma_question_mark(buf: Seq<u8>, start: Seq<u8>, path: Seq<u8>, query: Seq<u8>)
    requires
        start.len() == 5,
        holds_neither(path, 63, 32),
        buf == start + path + seq![63u8] + query,
    ensures
        5 + path.len() < url_end(buf) <= buf.len(),
        url_end(buf) == first_at(buf, 32, 6 + path.len() as int, buf.len() as int),
        first_at(buf, 63, 5, url_end(buf)) == 5 + path.len(),
        query_value_at(buf) == query_value_from(buf, 6 + path.len() as int, url_end(buf)),
{
    let q = 5 + path.len() as int;
    let space = first_at(buf, 32, q + 1, buf.len() as int);
    lemma_first_at(buf, 32, q + 1, buf.len() as int);
    assert forall|i: int| 5 <= i < q implies #[trigger] buf[i] != 63 && buf[i] != 32 by {
        assert(buf[i] == path[i - 5]);
    }
    assert(buf[q] == 63);
    assert forall|i: int| 5 <= i < space implies #[trigger] buf[i] != 32 by {
        if i > q {
            assert(q + 1 <= i < space);
        }
    }
    lemma_first_at_is(buf, 32, 5, buf.len() as int, space);
    lemma_first_at_is(buf, 63, 5, space, q);
}

/// `?q=` and `?queries=` ask for the number that follows: whatever the path and
/// whatever stands behind the digits, the count is their value, where that is
/// positive and an `i32`, and one where it is not.
pub proof fn law_first_parameter_is_counted(
    start: Seq<u8>,
    path: Seq<u8>,
    name: Seq<u8>,
    digits: Seq<u8>,
    tail: Seq<u8>,
)
    requires
        start.len() == 5,
        holds_neither(path, 63, 32),
        name == ascii("q="@) || name == ascii("queries="@),
        are_digits(digits),
        tail.len() > 0 ==> !(48 <= tail[0] <= 57),
    ensures
        ({
            let buf = start + path + seq![63u8] + (name + digits + tail);
            let n = digits_value(digits);
            &&& 1 <= n <= 0x7fff_ffff ==> queries_of(buf) == n
            &&& n < 1 || n > 0x7fff_ffff ==> queries_of(buf) == 1
        }),
{
    reveal_strlit("q=");
    reveal_strlit("queries=");
    let buf = start + path + seq![63u8] + (name + digits + tail);
    let at = 6 + path.len() as int;
    let value = at + name.len();
    lemma_question_mark(buf, start, path, name + digits + tail);
    let end = url_end(buf);
    assert forall|i: int| at <= i < value implies #[trigger] buf[i] != 32 by {
        assert(buf[i] == name[i - at]);
    }
    lemma_first_at(buf, 32, at, buf.len() as int);
    assert(value <= end) by {
        if end < value {
            assert(buf[end] != 32);
        }
    }
    assert(buf.subrange(at, value) =~= name);
    if name.len() == 8 {
        assert(buf.subrange(at, at + 2)[1] == name[1]);
        assert(buf.subrange(at, at + 2) != ascii("q="@)) by {
            assert(ascii("q="@)[1] != name[1]);
        }
    }
    assert(count_value(buf, at, end) == Some(value));
    assert(buf.subrange(value, value + digits.len()) =~= digits);
    if tail.len() > 0 {
        assert(buf[value + digits.len()] == tail[0]);
    }
    law_count_is_the_value_of_its_digits(buf, value, digits);
}

/// A parameter of another name has no say: a request asks for the same count
/// with it before the others as without it.
pub proof fn law_other_parameters_are_skipped(
    start: Seq<u8>,
    path: Seq<u8>,
    other: Seq<u8>,
    rest: Seq<u8>,
)
    requires
        start.len() == 5,
        holds_neither(path, 63, 32),
        holds_neither(other, 38, 32),
        other.len() >= 2 ==> other.take(2) != ascii("q="@),
        other.len() >= 8 ==> other.take(8) != ascii("queries="@),
    ensures
        queries_of(start + path + seq![63u8] + (other + seq![38u8] + rest)) == queries_of(
            start + path + seq![63u8] + rest,
        ),
{
    let near = start + path + seq![63u8] + rest;
    let far = start + path + seq![63u8] + (other + seq![38u8] + rest);
    let at = 6 + path.len() as int;
    let d = other.len() as int + 1;
    lemma_question_mark(near, start, path, rest);
    lemma_question_mark(far, start, path, other + seq![38u8] + rest);
    assert(agree_from(near, far, at, d)) by {
        assert forall|i: int| at <= i < near.len() implies #[trigger] near[i] == far[i + d] by {
            assert(near[i] == rest[i - at]);
            assert(far[i + d] == (other + seq![38u8] + rest)[i + d - at]);
        }
    }
    assert forall|i: int| at <= i < at + d implies #[trigger] far[i] != 32 by {
        if i < at + other.len() {
            assert(far[i] == other[i - at]);
        }
    }
    lemma_first_at_shifts(near, far, d, 32, at, near.len() as int);
    lemma_first_at_skips(far, 32, at, far.len() as int, at + d);
    let end = url_end(far);
    assert(end == url_end(near) + d);
    lemma_unnamed(far, other, at, end);
    assert forall|i: int| at <= i < at + other.len() implies #[trigger] far[i] != 38 by {
        assert(far[i] == other[i - at]);
    }
    assert(far[at + other.len()] == 38);
    lemma_first_at_is(far, 38, at, end, at + other.len());
    assert(query_value_at(far) == query_value_from(far, at + d, end));
    lemma_query_value_shifts(near, far, d, at, url_end(near));
}

/// A part without the byte can be skipped.
proof fn lemma_first_at_skips(buf: Seq<u8>, byte: u8, from: int, end: int, to: int)
    requires
        from <= to <= end,
        forall|i: int| from <= i < to ==> #[trigger] buf[i] != byte,
    ensures
        first_at(buf, byte, from, end) == first_at(buf, byte, to, end),
    decreases to - from,
{
    if from < to {
        assert(buf[from] != byte);
        lemma_first_at_skips(buf, byte, from + 1, end, to);
    }
}

/// A parameter of another name, with nothing behind it that could be taken for
/// a part of its name, has no count.
proof fn lemma_unnamed(buf: Seq<u8>, other: Seq<u8>, at: int, end: int)
    requires
        0 <= at,
        at + other.len() <= end <= buf.len(),
        at + other.len() == end || buf[at + other.len()] == 38,
        buf.subrange(at, at + other.len()) =~= other,
        other.len() >= 2 ==> other.take(2) != ascii("q="@),
        other.len() >= 8 ==> other.take(8) != ascii("queries="@),
    ensures
        count_value(buf, at, end) is None,
{
    reveal_strlit("q=");
    reveal_strlit("queries=");
    if at + 2 <= end {
        let two = buf.subrange(at, at + 2);
        if other.len() >= 2 {
            assert(two =~= other.take(2));
        } else {
            assert(two[other.len() as int] == 38);
        }
    }
    if at + 8 <= end {
        let eight = buf.subrange(at, at + 8);
        if other.len() >= 8 {
            assert(eight =~= other.take(8));
        } else {
            assert(eight[other.len() as int] == 38);
        }
    }
}

/// Without a parameter named `q` or `queries` one query is asked for: where the
/// URL has no query at all, and where its last parameter has another name.
pub proof fn law_no_count_is_one(start: Seq<u8>, path: Seq<u8>, other: Seq<u8>, tail: Seq<u8>)
    requires
        start.len() == 5,
        holds_neither(path, 63, 32),
        holds_neither(other, 38, 32),
        other.len() >= 2 ==> other.take(2) != ascii("q="@),
        other.len() >= 8 ==> other.take(8) != ascii("queries="@),
        tail.len() > 0 ==> tail[0] == 32,
    ensures
        queries_of(start + path + tail) == 1,
        queries_of(start + path + seq![63u8] + (other + tail)) == 1,
{
    let plain = start + path + tail;
    let end = 5 + path.len() as int;
    assert forall|i: int| 5 <= i < end implies #[trigger] plain[i] != 63 && plain[i] != 32 by {
        assert(plain[i] == path[i - 5]);
    }
    lemma_first_at_is(plain, 32, 5, plain.len() as int, end);
    lemma_first_at_is(plain, 63, 5, end, end);

    let buf = start + path + seq![63u8] + (other + tail);
    let at = 6 + path.len() as int;
    let last = at + other.len();
    lemma_question_mark(buf, start, path, other + tail);
    assert forall|i: int| at <= i < last implies #[trigger] buf[i] != 38 && buf[i] != 32 by {
        assert(buf[i] == other[i - at]);
    }
    if tail.len() > 0 {
        assert(buf[last] == tail[0]);
    }
    lemma_first_at_is(buf, 32, at, buf.len() as int, last);
    assert(buf.subrange(at, last) =~= other);
    lemma_unnamed(buf, other, at, last);
    lemma_first_at_is(buf, 38, at, last, last);
}

/// A buffer that is shorter than a method and a slash asks for one query.
pub proof fn law_short_requests_ask_for_one(buf: Seq<u8>)
    requires
        buf.len() <= 5,
    ensures
        queries_of(buf) == 1,
{
}

/// What is said of a head and of a request is what they hold.
pub proof fn law_views_show_the_request(head: RequestHead<'_>, request: ParsedRequest<'_>)
    ensures
        head@.len == head.len,
        head@.version == head.version,
        head.method matches Some(m) ==> head@.method == Some(m@),
        head.method is None ==> head@.method is None,
        head.path matches Some(p) ==> head@.path == Some(p@),
        head.path is None ==> head@.path is None,
        request@.method == request.method@,
        request@.path == request.path@,
        request@.version == request.version,
        outcome_view(Ok(Some(head))) == Ok::<Option<HeadView>, SyntaxError>(Some(head@)),
        outcome_view(Ok(None)) == Ok::<Option<HeadView>, SyntaxError>(None),
        forall|e: SyntaxError| #[trigger]
            outcome_view(Err(e)) == Err::<Option<HeadView>, SyntaxError>(e),
        MAX_HEADERS == 32,
{
}

} // verus!
