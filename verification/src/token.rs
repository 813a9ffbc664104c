//! Tokens: what a completion belongs to, encoded in its user data.
//!
//! The upper half of the 64-bit user data names the kind of operation, the
//! lower half the slot or index that it was submitted for.

use vstd::prelude::*;

verus! {

pub const TOKEN_ACCEPT: u64 = 0;

pub const TOKEN_RECV_BASE: u64 = 0x1_0000_0000;

pub const TOKEN_SEND_BASE: u64 = 0x2_0000_0000;

pub const TOKEN_CLOSE_BASE: u64 = 0x3_0000_0000;

pub const TOKEN_DB_SEND: u64 = 0x4_0000_0000;

pub const TOKEN_DB_RECV: u64 = 0x5_0000_0000;

/// The operation that a completion belongs to.
#[derive(Debug, Clone, Copy, PartialEq, Eq, Structural)]
pub enum Token {
    /// A connection was accepted.
    Accept,
    /// A receive on the HTTP connection in a slot.
    Recv(u32),
    /// A send on the HTTP connection in a slot.
    Send(u32),
    /// The close of a slot.
    Close(u32),
    /// A send on the database connection with an index.
    DbSend(u32),
    /// A receive on the database connection with an index.
    DbRecv(u32),
}

impl Token {
    /// The user data of the operation.
    pub open spec fn user_data(self) -> int {
        match self {
            Token::Accept => TOKEN_ACCEPT as int,
            Token::Recv(slot) => TOKEN_RECV_BASE + slot,
            Token::Send(slot) => TOKEN_SEND_BASE + slot,
            Token::Close(slot) => TOKEN_CLOSE_BASE + slot,
            Token::DbSend(index) => TOKEN_DB_SEND + index,
            Token::DbRecv(index) => TOKEN_DB_RECV + index,
        }
    }

    /// The operation that user data stands for. The lower half of an accept
    /// is not looked at; a kind that is not known stands for nothing.
    pub open spec fn of(user_data: u64) -> Option<Token> {
        let kind = user_data / 0x1_0000_0000;
        let index = (user_data % 0x1_0000_0000) as u32;
        if kind == 0 {
            Some(Token::Accept)
        } else if kind == 1 {
            Some(Token::Recv(index))
        } else if kind == 2 {
            Some(Token::Send(index))
        } else if kind == 3 {
            Some(Token::Close(index))
        } else if kind == 4 {
            Some(Token::DbSend(index))
        } else if kind == 5 {
            Some(Token::DbRecv(index))
        } else {
            None
        }
    }

    /// Encodes the operation.
    pub fn encode(self) -> (user_data: u64)
        ensures
            user_data == self.user_data(),
    {
        match self {
            Token::Accept => TOKEN_ACCEPT,
            Token::Recv(slot) => tagged(TOKEN_RECV_BASE, slot),
            Token::Send(slot) => tagged(TOKEN_SEND_BASE, slot),
            Token::Close(slot) => tagged(TOKEN_CLOSE_BASE, slot),
            Token::DbSend(index) => tagged(TOKEN_DB_SEND, index),
            Token::DbRecv(index) => tagged(TOKEN_DB_RECV, index),
        }
    }

    /// Decodes user data; `None` where its kind is not known.
    pub fn decode(user_data: u64) -> (token: Option<Token>)
        ensures
            token == Token::of(user_data),
    {
        let kind: u64 = user_data >> 32;
        let index: u32 = (user_data & 0xFFFF_FFFF) as u32;
        assert(user_data >> 32 == user_data / 0x1_0000_0000) by (bit_vector);
        assert(user_data & 0xFFFF_FFFF == user_data % 0x1_0000_0000) by (bit_vector);
        if kind == 0 {
            Some(Token::Accept)
        } else if kind == 1 {
            Some(Token::Recv(index))
        } else if kind == 2 {
            Some(Token::Send(index))
        } else if kind == 3 {
            Some(Token::Close(index))
        } else if kind == 4 {
            Some(Token::DbSend(index))
        } else if kind == 5 {
            Some(Token::DbRecv(index))
        } else {
            None
        }
    }
}

/// Puts an index into the lower half of a kind's user data.
fn tagged(base: u64, index: u32) -> (user_data: u64)
    requires
        base % 0x1_0000_0000 == 0,
    ensures
        user_data == base + index,
{
    assert(base | (index as u64) == base + index) by (bit_vector)
        requires
            base % 0x1_0000_0000 == 0,
    ;
    base | index as u64
}

/// A completion is told apart by its user data: decoding what an operation was
/// submitted with gives that operation back, and no two operations share their
/// user data.
pub proof fn law_token_round_trip(token: Token, other: Token)
    ensures
        0 <= token.user_data() <= u64::MAX,
        Token::of(token.user_data() as u64) == Some(token),
        token.user_data() == other.user_data() ==> token == other,
{
}

/// The user data of an operation has the number of its kind in the upper half
/// and its slot or index in the lower half; accepting has zero in both.
pub proof fn law_user_data_has_two_halves(index: u32)
    ensures
        Token::Accept.user_data() == 0,
        Token::Recv(index).user_data() == 0x1_0000_0000 + index,
        Token::Send(index).user_data() == 2 * 0x1_0000_0000 + index,
        Token::Close(index).user_data() == 3 * 0x1_0000_0000 + index,
        Token::DbSend(index).user_data() == 4 * 0x1_0000_0000 + index,
        Token::DbRecv(index).user_data() == 5 * 0x1_0000_0000 + index,
{
}

/// User data is told apart by its upper half: zero is an accept, whatever the
/// lower half, and no number above five stands for an operation.
pub proof fn law_user_data_is_told_by_its_upper_half(user_data: u64)
    ensures
        user_data < 0x1_0000_0000 <==> Token::of(user_data) == Some(Token::Accept),
        user_data >= 6 * 0x1_0000_0000 <==> Token::of(user_data) is None,
        Token::of(user_data) matches Some(token) ==> token == Token::Accept || token.user_data()
            == user_data,
{
}

} // verus!
