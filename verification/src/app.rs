//! The application: its routes and handlers.

use vstd::prelude::*;

use crate::date::DateCache;

verus! {

/// What a request is to be answered with.
#[derive(Debug, Clone, Copy, PartialEq, Eq, Structural)]
pub enum RouteAction {
    /// No database is needed.
    Fast(u8),
    /// A database operation is needed.
    Db { id: u8, queries: i32 },
    /// There is no such route.
    NotFound,
}

/// An application defines routes and handlers.
///
/// Handlers are free in what they answer. Each comes with a relation between
/// what it is handed and what it gives back, by which the server's contracts
/// say what the handler was called with. An application that says nothing of
/// a relation allows every answer.
pub trait App: Send + 'static {
    /// What the application keeps for each database connection.
    type DbState: Default + Send;

    /// Whether `classify` may take a request for `action`.
    open spec fn classifies(buf: Seq<u8>, action: RouteAction) -> bool {
        true
    }

    /// Whether `handle_fast` may turn `send` into `sent` and return `done`.
    open spec fn handles_fast(
        id: u8,
        recv: Seq<u8>,
        date: Seq<u8>,
        send: Seq<u8>,
        sent: Seq<u8>,
        done: (usize, usize),
    ) -> bool {
        true
    }

    /// Whether `db_start` may write `message` to an empty buffer and turn
    /// `state` into `next`.
    open spec fn starts_db(
        id: u8,
        queries: i32,
        message: Seq<u8>,
        state: Self::DbState,
        next: Self::DbState,
    ) -> bool {
        true
    }

    /// Whether `db_finish` may turn `send` into `sent` and `state` into `next`
    /// on the first `rpos` bytes of `rbuf`, and return `len`.
    open spec fn finishes_db(
        rbuf: Seq<u8>,
        rpos: usize,
        date: Seq<u8>,
        send: Seq<u8>,
        sent: Seq<u8>,
        state: Self::DbState,
        next: Self::DbState,
        len: usize,
    ) -> bool {
        true
    }

    /// Classifies a received request.
    fn classify(buf: &[u8]) -> (action: RouteAction)
        ensures
            Self::classifies(buf@, action),
    ;

    /// Answers a request that needs no database. Returns the number of
    /// requests answered and the number of bytes written.
    fn handle_fast(id: u8, recv: &[u8], send: &mut [u8], date: &DateCache) -> (done: (usize, usize))
        ensures
            final(send)@.len() == old(send)@.len(),
            Self::handles_fast(id, recv@, date@, old(send)@, final(send)@, done),
    ;

    /// The statements to prepare on a new database connection: name, text and
    /// parameter types.
    fn db_statements() -> Vec<(&'static str, &'static str, &'static [u32])>;

    /// Starts a database operation: writes its messages to `wbuf`.
    fn db_start(id: u8, queries: i32, wbuf: &mut Vec<u8>, state: &mut Self::DbState)
        ensures
            old(wbuf)@.len() == 0 ==> Self::starts_db(
                id,
                queries,
                final(wbuf)@,
                *old(state),
                *final(state),
            ),
    ;

    /// Answers a request from the database's response, the first `rpos` bytes
    /// of `rbuf`. Returns the number of bytes written to `send`; `body` is
    /// scratch space.
    fn db_finish(
        state: &mut Self::DbState,
        rbuf: &[u8],
        rpos: usize,
        send: &mut [u8],
        date: &DateCache,
        body: &mut [u8],
    ) -> (len: usize)
        ensures
            final(send)@.len() == old(send)@.len(),
            Self::finishes_db(
                rbuf@,
                rpos,
                date@,
                old(send)@,
                final(send)@,
                *old(state),
                *final(state),
                len,
            ),
    ;
}

} // verus!
