//! The open HTTP connections of a worker, and the actions that it asks for.

use vstd::prelude::*;

use crate::bytes::{ascii, literal, overwrite, write_at};
use crate::response::{content_length_line, is_framed, lemma_bodiless_is_framed};
use crate::token::{law_token_round_trip, Token};

verus! {

/// How many bytes of responses a connection can hold.
pub const SEND_BUF_SIZE: usize = 65536;

/// An open HTTP connection.
pub struct Connection {
    /// The responses to be sent.
    pub send_buf: Vec<u8>,
}

/// Outside work that a worker asks for.
#[derive(Debug, Clone, Copy, PartialEq, Eq, Structural)]
pub enum Action {
    /// Close a file descriptor.
    CloseFd { fd: i32 },
    /// Receive on the connection in a slot, into a provided buffer.
    Recv { slot: u32 },
    /// Send the first bytes of the send buffer of the connection in a slot.
    Send { slot: u32, len: u32 },
    /// Close the file in a slot.
    CloseSlot { slot: u32 },
    /// Send the messages of a database connection.
    DbSend { index: u32, slot: u32, len: u32 },
    /// Receive on a database connection, behind what has arrived already.
    DbRecv { index: u32, slot: u32, offset: usize, len: u32 },
}

impl Action {
    /// The operation that the completion of an action belongs to; `None` for
    /// work that has no completion.
    pub open spec fn spec_token(self) -> Option<Token> {
        match self {
            Action::CloseFd { .. } => None,
            Action::Recv { slot } => Some(Token::Recv(slot)),
            Action::Send { slot, .. } => Some(Token::Send(slot)),
            Action::CloseSlot { slot } => Some(Token::Close(slot)),
            Action::DbSend { index, .. } => Some(Token::DbSend(index)),
            Action::DbRecv { index, .. } => Some(Token::DbRecv(index)),
        }
    }

    /// The operation that the completion of an action belongs to.
    pub fn token(&self) -> (token: Option<Token>)
        ensures
            token == self.spec_token(),
    {
        match *self {
            Action::CloseFd { .. } => None,
            Action::Recv { slot } => Some(Token::Recv(slot)),
            Action::Send { slot, .. } => Some(Token::Send(slot)),
            Action::CloseSlot { slot } => Some(Token::Close(slot)),
            Action::DbSend { index, .. } => Some(Token::DbSend(index)),
            Action::DbRecv { index, .. } => Some(Token::DbRecv(index)),
        }
    }
}

/// The contents of each connection's send buffer; `None` where a slot has no
/// open connection.
pub open spec fn sends_of(connections: Seq<Option<Connection>>) -> Seq<Option<Seq<u8>>> {
    Seq::new(
        connections.len(),
        |slot: int|
            match connections[slot] {
                Some(conn) => Some(conn.send_buf@),
                None => None,
            },
    )
}

/// Whether there is an open connection in a slot.
pub open spec fn is_open(sends: Seq<Option<Seq<u8>>>, slot: int) -> bool {
    0 <= slot < sends.len() && sends[slot] is Some
}

/// The send buffers when `message` is written to the front of the one in a
/// slot; without an open connection there nothing is written.
pub open spec fn replied(
    sends: Seq<Option<Seq<u8>>>,
    slot: int,
    message: Seq<u8>,
) -> Seq<Option<Seq<u8>>> {
    if is_open(sends, slot) {
        sends.update(slot, Some(overwrite(sends[slot]->0, message)))
    } else {
        sends
    }
}

/// The answer where the database fails.
pub const INTERNAL_ERROR: &'static str =
    "HTTP/1.1 500 Internal Server Error\r\nServer: V\r\nContent-Length: 0\r\n\r\n";

/// The answer where there is no database.
pub const UNAVAILABLE: &'static str =
    "HTTP/1.1 503 Service Unavailable\r\nServer: V\r\nContent-Length: 0\r\n\r\n";

/// Writes a whole message to the send buffer of a connection. Returns its
/// length, or zero where there is no open connection.
fn write_whole(
    connections: &mut Vec<Option<Connection>>,
    fd_idx: usize,
    message: &[u8],
) -> (written: usize)
    requires
        fd_idx < old(connections)@.len(),
        old(connections)@[fd_idx as int] matches Some(conn) ==> message@.len()
            <= conn.send_buf@.len(),
    ensures
        sends_of(final(connections)@) == replied(
            sends_of(old(connections)@),
            fd_idx as int,
            message@,
        ),
        written == if is_open(sends_of(old(connections)@), fd_idx as int) {
            message@.len()
        } else {
            0
        },
{
    let ghost given = connections@;
    let written: usize = if let Some(conn) = &mut connections[fd_idx] {
        let ghost before = conn.send_buf@;
        let end: usize = write_at(conn.send_buf.as_mut_slice(), 0, message);
        assert(conn.send_buf@ =~= conn.send_buf@.take(end as int) + conn.send_buf@.skip(end as int));
        assert(conn.send_buf@ =~= overwrite(before, message@));
        end
    } else {
        0
    };
    assert(sends_of(connections@) =~= replied(sends_of(given), fd_idx as int, message@));
    written
}

/// Whether the open connections have full-size send buffers.
pub open spec fn are_full_size(sends: Seq<Option<Seq<u8>>>) -> bool {
    forall|slot: int|
        0 <= slot < sends.len() && #[trigger] sends[slot] is Some ==> sends[slot]->0.len()
            == SEND_BUF_SIZE
}

/// Writes the answer for a failed database operation. Returns its length, or
/// zero where there is no open connection.
pub fn write_500(connections: &mut Vec<Option<Connection>>, fd_idx: usize) -> (written: usize)
    requires
        fd_idx < old(connections)@.len(),
        old(connections)@[fd_idx as int] matches Some(conn) ==> ascii(INTERNAL_ERROR@).len()
            <= conn.send_buf@.len(),
    ensures
        sends_of(final(connections)@) == replied(
            sends_of(old(connections)@),
            fd_idx as int,
            ascii(INTERNAL_ERROR@),
        ),
        written == if is_open(sends_of(old(connections)@), fd_idx as int) {
            ascii(INTERNAL_ERROR@).len()
        } else {
            0
        },
{
    proof {
        reveal_strlit("HTTP/1.1 500 Internal Server Error\r\nServer: V\r\nContent-Length: 0\r\n\r\n");
    }
    write_whole(connections, fd_idx, literal(INTERNAL_ERROR))
}

/// Writes the answer where there is no database. Returns its length, or zero
/// where there is no open connection.
pub fn write_503(connections: &mut Vec<Option<Connection>>, fd_idx: usize) -> (written: usize)
    requires
        fd_idx < old(connections)@.len(),
        old(connections)@[fd_idx as int] matches Some(conn) ==> ascii(UNAVAILABLE@).len()
            <= conn.send_buf@.len(),
    ensures
        sends_of(final(connections)@) == replied(
            sends_of(old(connections)@),
            fd_idx as int,
            ascii(UNAVAILABLE@),
        ),
        written == if is_open(sends_of(old(connections)@), fd_idx as int) {
            ascii(UNAVAILABLE@).len()
        } else {
            0
        },
{
    proof {
        reveal_strlit("HTTP/1.1 503 Service Unavailable\r\nServer: V\r\nContent-Length: 0\r\n\r\n");
    }
    write_whole(connections, fd_idx, literal(UNAVAILABLE))
}

/// The send that is asked for when `len` bytes are ready in the send buffer of
/// a slot: none where there is no open connection. The length of a send is a
/// 32-bit number.
pub open spec fn send_actions(sends: Seq<Option<Seq<u8>>>, slot: u32, len: usize) -> Seq<Action> {
    if is_open(sends, slot as int) {
        seq![Action::Send { slot, len: len as u32 }]
    } else {
        Seq::empty()
    }
}

/// Asks for a send on an open connection.
pub fn submit_http_send(
    slot: u32,
    connections: &Vec<Option<Connection>>,
    resp_len: usize,
    out: &mut Vec<Action>,
)
    requires
        slot < connections@.len(),
    ensures
        final(out)@ == old(out)@ + send_actions(sends_of(connections@), slot, resp_len),
        connections@[slot as int] is Some && resp_len <= 0xffff_ffff ==> {
            &&& final(out)@.len() == old(out)@.len() + 1
            &&& final(out)@.take(old(out)@.len() as int) == old(out)@
            &&& final(out)@.last() matches Action::Send { slot: s, len } && s == slot && len as int
                == resp_len
        },
{
    if connections[slot as usize].is_some() {
        out.push(Action::Send { slot, len: resp_len as u32 });
    }
    assert(out@ =~= old(out)@ + send_actions(sends_of(connections@), slot, resp_len));
}

/// The send buffers when the connection in a slot is closed.
pub open spec fn closed_sends(sends: Seq<Option<Seq<u8>>>, slot: int) -> Seq<Option<Seq<u8>>> {
    if is_open(sends, slot) {
        sends.update(slot, None)
    } else {
        sends
    }
}

/// The close that is asked for when the connection in a slot is closed: none
/// where there is no open connection.
pub open spec fn close_actions(sends: Seq<Option<Seq<u8>>>, slot: u32) -> Seq<Action> {
    if is_open(sends, slot as int) {
        seq![Action::CloseSlot { slot }]
    } else {
        Seq::empty()
    }
}

/// The pooled buffers when the connection in a slot is closed: its send buffer
/// comes on top.
pub open spec fn closed_pool(
    pool: Seq<Seq<u8>>,
    sends: Seq<Option<Seq<u8>>>,
    slot: int,
) -> Seq<Seq<u8>> {
    if is_open(sends, slot) {
        pool.push(sends[slot]->0)
    } else {
        pool
    }
}

/// The contents of a list of buffers.
pub open spec fn contents_of(bufs: Seq<Vec<u8>>) -> Seq<Seq<u8>> {
    Seq::new(bufs.len(), |i: int| bufs[i]@)
}

/// Closes the connection in a slot: its send buffer goes back to the pool, and
/// the slot is to be closed. Without an open connection there is nothing to do.
pub fn close_connection(
    connections: &mut Vec<Option<Connection>>,
    slot: u32,
    out: &mut Vec<Action>,
    send_buf_pool: &mut Vec<Vec<u8>>,
)
    ensures
        sends_of(final(connections)@) == closed_sends(sends_of(old(connections)@), slot as int),
        contents_of(final(send_buf_pool)@) == closed_pool(
            contents_of(old(send_buf_pool)@),
            sends_of(old(connections)@),
            slot as int,
        ),
        final(out)@ == old(out)@ + close_actions(sends_of(old(connections)@), slot),
{
    if (slot as usize) < connections.len() {
        if let Some(conn) = connections[slot as usize].take() {
            send_buf_pool.push(conn.send_buf);
            out.push(Action::CloseSlot { slot });
        }
    }
    assert(sends_of(connections@) =~= closed_sends(sends_of(old(connections)@), slot as int));
    assert(contents_of(send_buf_pool@) =~= closed_pool(
        contents_of(old(send_buf_pool)@),
        sends_of(old(connections)@),
        slot as int,
    ));
    assert(out@ =~= old(out)@ + close_actions(sends_of(old(connections)@), slot));
}

/// The two error answers are framed and have no body.
pub proof fn law_error_answers_are_framed()
    ensures
        is_framed(ascii(INTERNAL_ERROR@), Seq::<u8>::empty()),
        is_framed(ascii(UNAVAILABLE@), Seq::<u8>::empty()),
{
    reveal_strlit("HTTP/1.1 500 Internal Server Error\r\nServer: V\r\nContent-Length: 0\r\n\r\n");
    reveal_strlit("HTTP/1.1 503 Service Unavailable\r\nServer: V\r\nContent-Length: 0\r\n\r\n");
    reveal_strlit("\r\n");
    reveal_strlit("\r\nContent-Length: ");
    assert(content_length_line(0).len() == 21);
    lemma_bodiless_is_framed(ascii(INTERNAL_ERROR@));
    lemma_bodiless_is_framed(ascii(UNAVAILABLE@));
}

/// The completion of an action leads back to it: the user data that the action
/// is submitted with decodes to the operation on the same slot or index.
pub proof fn law_completion_leads_back(action: Action)
    ensures
        action.spec_token() matches Some(token) ==> Token::of(token.user_data() as u64) == Some(
            token,
        ),
{
    match action.spec_token() {
        Some(token) => law_token_round_trip(token, token),
        None => {},
    }
}

/// Closing a connection twice is the same as closing it once: the second time
/// nothing is closed and no buffer is pooled.
pub proof fn law_close_is_idempotent(sends: Seq<Option<Seq<u8>>>, pool: Seq<Seq<u8>>, slot: u32)
    ensures
        closed_sends(closed_sends(sends, slot as int), slot as int) == closed_sends(
            sends,
            slot as int,
        ),
        close_actions(closed_sends(sends, slot as int), slot) == Seq::<Action>::empty(),
        closed_pool(pool, closed_sends(sends, slot as int), slot as int) == pool,
{
}

/// Where bytes are ready on an open connection, exactly one send is asked for,
/// on its slot and for all of them; without an open connection none is.
pub proof fn law_send_carries_every_byte(sends: Seq<Option<Seq<u8>>>, slot: u32, n: usize)
    requires
        n <= 0xffff_ffff,
    ensures
        slot < sends.len() && sends[slot as int] is Some ==> {
            &&& send_actions(sends, slot, n).len() == 1
            &&& send_actions(sends, slot, n)[0] matches Action::Send { slot: s, len } && s == slot
                && len as int == n
        },
        !(slot < sends.len() && sends[slot as int] is Some) ==> send_actions(sends, slot, n).len()
            == 0,
{
}

/// Closing the connection in a slot closes that slot and no other, and its send
/// buffer is pooled as it is. Where there is none, nothing is done.
pub proof fn law_close_closes_one(sends: Seq<Option<Seq<u8>>>, pool: Seq<Seq<u8>>, slot: u32)
    ensures
        ({
            let i = slot as int;
            let after = closed_sends(sends, i);
            &&& after.len() == sends.len()
            &&& i < sends.len() ==> after[i] is None
            &&& forall|k: int| 0 <= k < sends.len() && k != i ==> #[trigger] after[k] == sends[k]
            &&& i < sends.len() && sends[i] is Some ==> {
                &&& close_actions(sends, slot).len() == 1
                &&& close_actions(sends, slot)[0] matches Action::CloseSlot { slot: s } && s == slot
                &&& closed_pool(pool, sends, i).len() == pool.len() + 1
                &&& closed_pool(pool, sends, i).take(pool.len() as int) == pool
                &&& Some(closed_pool(pool, sends, i)[pool.len() as int]) == sends[i]
            }
            &&& !(i < sends.len() && sends[i] is Some) ==> close_actions(sends, slot).len() == 0
                && closed_pool(pool, sends, i) == pool
        }),
{
    let i = slot as int;
    if i < sends.len() && sends[i] is Some {
        assert(closed_pool(pool, sends, i).take(pool.len() as int) =~= pool);
    }
}

/// An answer goes to the front of the send buffer of its own connection and
/// changes no other byte and no other connection.
pub proof fn law_reply_goes_to_one(sends: Seq<Option<Seq<u8>>>, slot: int, message: Seq<u8>)
    requires
        0 <= slot < sends.len(),
        sends[slot] matches Some(buf) ==> message.len() <= buf.len(),
    ensures
        ({
            let after = replied(sends, slot, message);
            &&& after.len() == sends.len()
            &&& forall|k: int| 0 <= k < sends.len() && k != slot ==> #[trigger] after[k] == sends[k]
            &&& sends[slot] is None ==> after[slot] is None
            &&& sends[slot] matches Some(buf) ==> {
                &&& after[slot] matches Some(next) && next.len() == buf.len() && next.take(
                    message.len() as int,
                ) == message && next.skip(message.len() as int) == buf.skip(message.len() as int)
            }
        }),
{
    if sends[slot] is Some {
        let next = overwrite(sends[slot]->0, message);
        assert(next.take(message.len() as int) =~= message);
        assert(next.skip(message.len() as int) =~= sends[slot]->0.skip(message.len() as int));
    }
}

/// A failed database operation is answered with 500 and a missing database with
/// 503, both without a body.
pub proof fn law_error_answers_text()
    ensures
        ascii(INTERNAL_ERROR@) == ascii(
            "HTTP/1.1 500 Internal Server Error\r\nServer: V\r\nContent-Length: 0\r\n\r\n"@,
        ),
        ascii(UNAVAILABLE@) == ascii(
            "HTTP/1.1 503 Service Unavailable\r\nServer: V\r\nContent-Length: 0\r\n\r\n"@,
        ),
        SEND_BUF_SIZE == 65536,
{
}

/// The send buffers are those of the connections, slot by slot, and the pooled
/// ones stand in their order.
pub proof fn law_sends_show_the_connections(
    connections: Seq<Option<Connection>>,
    bufs: Seq<Vec<u8>>,
    i: int,
)
    ensures
        sends_of(connections).len() == connections.len(),
        is_open(sends_of(connections), i) <==> 0 <= i < connections.len() && connections[i] is Some,
        0 <= i < connections.len() ==> (sends_of(connections)[i] is Some
            <==> connections[i] is Some),
        0 <= i < connections.len() && connections[i] is Some ==> sends_of(connections)[i]->0
            == connections[i]->0.send_buf@,
        contents_of(bufs).len() == bufs.len(),
        0 <= i < bufs.len() ==> contents_of(bufs)[i] == bufs[i]@,
{
}

/// Each action completes as the operation of its own kind, on its own slot or
/// index; closing a descriptor has no completion.
pub proof fn law_actions_complete_as_themselves(slot: u32, index: u32, len: u32, fd: i32, at: usize)
    ensures
        (Action::CloseFd { fd }).spec_token() is None,
        (Action::Recv { slot }).spec_token() == Some(Token::Recv(slot)),
        (Action::Send { slot, len }).spec_token() == Some(Token::Send(slot)),
        (Action::CloseSlot { slot }).spec_token() == Some(Token::Close(slot)),
        (Action::DbSend { index, slot, len }).spec_token() == Some(Token::DbSend(index)),
        (Action::DbRecv { index, slot, offset: at, len }).spec_token() == Some(
            Token::DbRecv(index),
        ),
{
}

} // verus!
