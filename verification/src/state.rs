//! The state of a worker and how events change it.

use vstd::prelude::*;

use crate::app::{App, RouteAction};
use crate::bufring::RingView;
use crate::bytes::{ascii, overwrite};
use crate::connections::{
    are_full_size, close_actions, closed_pool, closed_sends, is_open, law_reply_goes_to_one,
    replied, send_actions, Action, INTERNAL_ERROR, SEND_BUF_SIZE, UNAVAILABLE,
};
use crate::dbpool::{
    all_started, assign, db_send, first_true, idle_of, law_first_idle_is_the_least,
    law_no_request_waits_beside_an_idle_connection, law_queue_is_first_in_first_out, start_actions,
    started, DbRequest, DbView, DB_BUF_SIZE,
};
use crate::filetable::FilesView;
use crate::token::Token;
use crate::worker::{Accepted, FollowUp};

verus! {

/// What a worker holds.
#[verifier::reject_recursive_types(S)]
pub struct WorkerView<S> {
    /// The file slots in use.
    pub files: FilesView,
    /// The send buffer of the HTTP connection in each slot.
    pub sends: Seq<Option<Seq<u8>>>,
    /// The database connections.
    pub dbs: Seq<DbView<S>>,
    /// The requests that wait for a database connection.
    pub queue: Seq<DbRequest>,
    /// The send buffers that are not in use.
    pub pool: Seq<Seq<u8>>,
}

/// A buffer of `len` zero bytes.
pub open spec fn zeros(len: nat) -> Seq<u8> {
    Seq::new(len, |i: int| 0u8)
}

impl<S> WorkerView<S> {
    /// What holds between any two events. There is a place for the connection
    /// of every slot; buffers have their full size; every request names a slot
    /// that has a place; and a request waits only where no database connection
    /// is idle.
    pub open spec fn wf(self) -> bool {
        &&& self.buffers_wf()
        &&& self.queue.len() > 0 ==> forall|i: int|
            0 <= i < self.dbs.len() ==> !(#[trigger] self.dbs[i]).idle
    }

    /// The part of `wf` that also holds while an event is handled.
    pub open spec fn buffers_wf(self) -> bool {
        &&& 0 < self.files.capacity <= self.sends.len()
        &&& are_full_size(self.sends)
        &&& forall|i: int|
            0 <= i < self.pool.len() ==> (#[trigger] self.pool[i]).len() == SEND_BUF_SIZE
        &&& self.dbs.len() <= u32::MAX
        &&& forall|i: int|
            0 <= i < self.dbs.len() ==> {
                &&& (#[trigger] self.dbs[i]).rbuf.len() == DB_BUF_SIZE
                &&& self.dbs[i].rpos <= DB_BUF_SIZE
                &&& self.dbs[i].http_slot < self.sends.len()
            }
        &&& forall|i: int|
            0 <= i < self.queue.len() ==> (#[trigger] self.queue[i]).http_slot < self.sends.len()
    }

    /// No slot has two owners: the slots of open HTTP connections and those of
    /// database connections are in use, no two database connections share one,
    /// and none of theirs is an HTTP connection's.
    pub open spec fn owns_slots(self) -> bool {
        &&& forall|slot: u32| #[trigger]
            is_open(self.sends, slot as int) ==> self.files.used.contains(slot)
        &&& forall|i: int|
            0 <= i < self.dbs.len() ==> self.files.used.contains((#[trigger] self.dbs[i]).slot)
                && !is_open(self.sends, self.dbs[i].slot as int)
        &&& forall|i: int, j: int|
            0 <= i < j < self.dbs.len() ==> (#[trigger] self.dbs[i]).slot != (
            #[trigger] self.dbs[j]).slot
    }

    /// Whether a slot belongs to no connection.
    pub open spec fn is_unowned(self, slot: u32) -> bool {
        &&& !is_open(self.sends, slot as int)
        &&& forall|i: int| 0 <= i < self.dbs.len() ==> (#[trigger] self.dbs[i]).slot != slot
    }

    /// The state when a slot is taken into use.
    pub open spec fn taking(self, slot: u32) -> Self {
        WorkerView {
            files: FilesView { used: self.files.used.insert(slot), ..self.files },
            ..self
        }
    }

    /// The state when a slot is given back.
    pub open spec fn freeing(self, slot: u32) -> Self {
        WorkerView {
            files: FilesView { used: self.files.used.remove(slot), ..self.files },
            ..self
        }
    }

    /// Whether a slot can be taken into use.
    pub open spec fn is_free(self, slot: u32) -> bool {
        slot < self.files.capacity && !self.files.used.contains(slot)
    }

    /// Whether all slots are in use.
    pub open spec fn is_full(self) -> bool {
        forall|slot: u32| slot < self.files.capacity ==> self.files.used.contains(slot)
    }

    /// Whether a completion can belong to the operation: the slot or index
    /// that it names has a place, and no more has arrived than was asked for.
    pub open spec fn expects(
        self,
        token: Option<Token>,
        result: i32,
        buf_id: Option<u16>,
        ring: RingView,
    ) -> bool {
        match token {
            Some(Token::Recv(slot)) => result > 0 ==> {
                &&& slot < self.sends.len()
                &&& buf_id is Some
                &&& buf_id->0 < ring.buffers.len()
                &&& result <= ring.buf_size
            },
            Some(Token::Send(slot)) => result >= 0 ==> slot < self.sends.len(),
            Some(Token::DbSend(index)) => index < self.dbs.len(),
            Some(Token::DbRecv(index)) => {
                &&& index < self.dbs.len()
                &&& self.dbs[index as int].rpos + result <= DB_BUF_SIZE
            },
            _ => true,
        }
    }

    /// The state when the HTTP connection in a slot is closed.
    pub open spec fn closing(self, slot: u32) -> Self {
        WorkerView {
            sends: closed_sends(self.sends, slot as int),
            pool: closed_pool(self.pool, self.sends, slot as int),
            ..self
        }
    }

    /// The state when `len` bytes are ready to be sent on the HTTP connection
    /// in a slot; without any, the connection is closed.
    pub open spec fn answering(self, slot: u32, len: usize) -> Self {
        if len > 0 {
            self
        } else {
            self.closing(slot)
        }
    }

    /// The actions when `len` bytes are ready to be sent on the HTTP connection
    /// in a slot; without any, the connection is closed.
    pub open spec fn answer_actions(self, slot: u32, len: usize) -> Seq<Action> {
        if len > 0 {
            send_actions(self.sends, slot, len)
        } else {
            close_actions(self.sends, slot)
        }
    }
}

/// Whether a request for the database is taken on: without a database it is
/// answered with an error, with an idle connection it is started on the first
/// of them, else it waits behind the others.
pub open spec fn db_taken_on<A: App>(
    before: WorkerView<A::DbState>,
    after: WorkerView<A::DbState>,
    before_out: Seq<Action>,
    after_out: Seq<Action>,
    request: DbRequest,
) -> bool {
    let slot = request.http_slot;
    let i = first_true(idle_of(before.dbs), 0);
    if before.dbs.len() == 0 {
        &&& after == WorkerView {
            sends: replied(before.sends, slot as int, ascii(UNAVAILABLE@)),
            ..before
        }
        &&& after_out == before_out + send_actions(
            before.sends,
            slot,
            ascii(UNAVAILABLE@).len() as usize,
        )
    } else if i < before.dbs.len() {
        &&& after == WorkerView { dbs: before.dbs.update(i, after.dbs[i]), ..before }
        &&& started::<A>(before.dbs[i], after.dbs[i], request)
        &&& after_out == before_out.push(db_send(i, after.dbs[i]))
    } else {
        &&& after == WorkerView { queue: before.queue.push(request), ..before }
        &&& after_out == before_out
    }
}

/// Whether a received request is answered as the application says. Where it
/// needs no database, the application is given the connection's send buffer
/// and what it wrote is sent; a connection without an answer is closed.
pub open spec fn answered<A: App>(
    before: WorkerView<A::DbState>,
    after: WorkerView<A::DbState>,
    before_out: Seq<Action>,
    after_out: Seq<Action>,
    slot: u32,
    action: RouteAction,
    data: Seq<u8>,
    date: Seq<u8>,
) -> bool {
    match action {
        RouteAction::Fast(id) => if is_open(before.sends, slot as int) {
            exists|sent: Seq<u8>, done: (usize, usize)|
                {
                    &&& #[trigger] A::handles_fast(
                        id,
                        data,
                        date,
                        before.sends[slot as int]->0,
                        sent,
                        done,
                    )
                    &&& after == (WorkerView {
                        sends: before.sends.update(slot as int, Some(sent)),
                        ..before
                    }).answering(slot, done.1)
                    &&& after_out == before_out + before.answer_actions(slot, done.1)
                }
        } else {
            after == before && after_out == before_out
        },
        RouteAction::Db { id, queries } => db_taken_on::<A>(
            before,
            after,
            before_out,
            after_out,
            DbRequest { http_slot: slot, route_id: id, queries },
        ),
        RouteAction::NotFound => {
            &&& after == before.closing(slot)
            &&& after_out == before_out + close_actions(before.sends, slot)
        },
    }
}

/// Whether waiting requests are started for as long as there is an idle
/// connection.
pub open spec fn drained<A: App>(
    before: WorkerView<A::DbState>,
    after: WorkerView<A::DbState>,
    before_out: Seq<Action>,
    after_out: Seq<Action>,
) -> bool {
    let (starts, taken) = assign(idle_of(before.dbs), before.queue, before.sends);
    &&& after == WorkerView { dbs: after.dbs, queue: before.queue.skip(taken), ..before }
    &&& all_started::<A>(before.dbs, after.dbs, starts)
    &&& after_out == before_out + start_actions(after.dbs, starts)
}

/// Whether a database operation is given up: its connection becomes idle, the
/// HTTP connection that it was for is answered with an error, and waiting
/// requests are started.
pub open spec fn db_given_up<A: App>(
    before: WorkerView<A::DbState>,
    after: WorkerView<A::DbState>,
    before_out: Seq<Action>,
    after_out: Seq<Action>,
    index: int,
) -> bool {
    let slot = before.dbs[index].http_slot;
    drained::<A>(
        WorkerView {
            dbs: before.dbs.update(index, DbView { idle: true, ..before.dbs[index] }),
            sends: replied(before.sends, slot as int, ascii(INTERNAL_ERROR@)),
            ..before
        },
        after,
        before_out + send_actions(before.sends, slot, ascii(INTERNAL_ERROR@).len() as usize),
        after_out,
    )
}

/// Whether a database operation whose response is complete is answered: its
/// connection becomes idle, the application writes the answer to the send
/// buffer of the HTTP connection that it was for, what it wrote is sent, and
/// waiting requests are started. Where the HTTP connection is gone, the
/// application is not asked.
pub open spec fn db_answered<A: App>(
    before: WorkerView<A::DbState>,
    after: WorkerView<A::DbState>,
    before_out: Seq<Action>,
    after_out: Seq<Action>,
    index: int,
    date: Seq<u8>,
) -> bool {
    let db = before.dbs[index];
    let slot = db.http_slot;
    if is_open(before.sends, slot as int) {
        exists|sent: Seq<u8>, state: A::DbState, len: usize|
            {
                &&& #[trigger] A::finishes_db(
                    db.rbuf,
                    db.rpos,
                    date,
                    before.sends[slot as int]->0,
                    sent,
                    db.state,
                    state,
                    len,
                )
                &&& drained::<A>(
                    WorkerView {
                        dbs: before.dbs.update(index, DbView { idle: true, state, ..db }),
                        sends: before.sends.update(slot as int, Some(sent)),
                        ..before
                    },
                    after,
                    if len > 0 {
                        before_out + send_actions(before.sends, slot, len)
                    } else {
                        before_out
                    },
                    after_out,
                )
            }
    } else {
        drained::<A>(
            WorkerView {
                dbs: before.dbs.update(index, DbView { idle: true, ..db }),
                ..before
            },
            after,
            before_out,
            after_out,
        )
    }
}

/// The receive of what is still missing of a database response.
pub open spec fn db_recv<S>(index: int, db: DbView<S>) -> Action {
    Action::DbRecv {
        index: index as u32,
        slot: db.slot,
        offset: db.rpos,
        len: (db.rbuf.len() - db.rpos) as u32,
    }
}

/// Whether an accepted connection gets a slot where there is one. A negative
/// result is an error: nothing was accepted.
pub open spec fn accepted_as<S>(
    before: WorkerView<S>,
    after: WorkerView<S>,
    result: i32,
    accepted: Accepted,
) -> bool {
    match accepted {
        Accepted::Nothing => result < 0 && after == before,
        Accepted::Refused { fd } => result >= 0 && fd == result && before.is_full() && after
            == before,
        Accepted::Register { slot, fd } => result >= 0 && fd == result && before.is_free(slot)
            && after == before.taking(slot),
    }
}

/// Whether a receive is handled. A result that is not positive closes the
/// connection; else the buffer's first bytes are answered as the application
/// says, and the buffer goes back to the ring.
pub open spec fn received_as<A: App>(
    before: WorkerView<A::DbState>,
    after: WorkerView<A::DbState>,
    before_ring: RingView,
    after_ring: RingView,
    before_out: Seq<Action>,
    after_out: Seq<Action>,
    slot: u32,
    result: i32,
    buf_id: Option<u16>,
    date: Seq<u8>,
) -> bool {
    if result <= 0 {
        &&& after_ring == before_ring
        &&& after == before.closing(slot)
        &&& after_out == before_out + close_actions(before.sends, slot)
    } else {
        let data = before_ring.buffers[buf_id->0 as int].take(result as int);
        &&& after_ring == RingView {
            tail: ((before_ring.tail + 1) % 0x1_0000) as u16,
            ..before_ring
        }
        &&& exists|action: RouteAction| #[trigger]
            A::classifies(data, action) && answered::<A>(
                before,
                after,
                before_out,
                after_out,
                slot,
                action,
                data,
                date,
            )
    }
}

/// Whether a send is handled: after an error the connection is closed, else
/// its next request is asked for.
pub open spec fn sent_as<S>(
    before: WorkerView<S>,
    after: WorkerView<S>,
    before_out: Seq<Action>,
    after_out: Seq<Action>,
    slot: u32,
    result: i32,
) -> bool {
    if result < 0 {
        &&& after == before.closing(slot)
        &&& after_out == before_out + close_actions(before.sends, slot)
    } else {
        &&& after == before
        &&& after_out == if is_open(before.sends, slot as int) {
            before_out.push(Action::Recv { slot })
        } else {
            before_out
        }
    }
}

/// Whether a send on a database connection is handled: after an error its
/// operation is given up, else its response is asked for.
pub open spec fn db_sent_as<A: App>(
    before: WorkerView<A::DbState>,
    after: WorkerView<A::DbState>,
    before_out: Seq<Action>,
    after_out: Seq<Action>,
    index: u32,
    result: i32,
) -> bool {
    if result < 0 {
        db_given_up::<A>(before, after, before_out, after_out, index as int)
    } else {
        &&& after == before
        &&& after_out == before_out.push(db_recv(index as int, before.dbs[index as int]))
    }
}

/// Whether a receive on a database connection is handled: a result that is not
/// positive gives up its operation, else so many bytes more have arrived.
pub open spec fn db_received_as<A: App>(
    before: WorkerView<A::DbState>,
    after: WorkerView<A::DbState>,
    before_out: Seq<Action>,
    after_out: Seq<Action>,
    index: u32,
    result: i32,
) -> bool {
    let db = before.dbs[index as int];
    if result <= 0 {
        db_given_up::<A>(before, after, before_out, after_out, index as int)
    } else {
        &&& after == WorkerView {
            dbs: before.dbs.update(
                index as int,
                DbView { rpos: (db.rpos + result) as usize, ..db },
            ),
            ..before
        }
        &&& after_out == before_out
    }
}

/// Whether a completion is handled as the operation asks that it belongs to,
/// and what is left to do about it is handed on. One that belongs to no
/// operation changes nothing.
pub open spec fn completed_as<A: App>(
    token: Option<Token>,
    before: WorkerView<A::DbState>,
    after: WorkerView<A::DbState>,
    before_ring: RingView,
    after_ring: RingView,
    before_out: Seq<Action>,
    after_out: Seq<Action>,
    result: i32,
    buf_id: Option<u16>,
    date: Seq<u8>,
    next: FollowUp,
) -> bool {
    &&& !(token is Some && token->0 is Recv) ==> after_ring == before_ring
    &&& match token {
        Some(Token::Accept) => {
            &&& next matches FollowUp::Accept(accepted) && accepted_as(
                before,
                after,
                result,
                accepted,
            )
            &&& after_out == before_out
        },
        Some(Token::Recv(slot)) => {
            &&& next == if result > 0 {
                FollowUp::Provide { buf_id: buf_id->0 }
            } else {
                FollowUp::Nothing
            }
            &&& received_as::<A>(
                before,
                after,
                before_ring,
                after_ring,
                before_out,
                after_out,
                slot,
                result,
                buf_id,
                date,
            )
        },
        Some(Token::Send(slot)) => {
            &&& next == FollowUp::Nothing
            &&& sent_as(before, after, before_out, after_out, slot, result)
        },
        Some(Token::Close(slot)) => {
            &&& next == FollowUp::Nothing
            &&& after == before.freeing(slot)
            &&& after_out == before_out
        },
        Some(Token::DbSend(index)) => {
            &&& next == FollowUp::Nothing
            &&& db_sent_as::<A>(before, after, before_out, after_out, index, result)
        },
        Some(Token::DbRecv(index)) => {
            &&& next == if result > 0 {
                FollowUp::Progress { index }
            } else {
                FollowUp::Nothing
            }
            &&& db_received_as::<A>(before, after, before_out, after_out, index, result)
        },
        None => {
            &&& next == FollowUp::Nothing
            &&& after == before
            &&& after_out == before_out
        },
    }
}

/// A request for the database is not left without an answer where there is no
/// database: the next action sends the 503 response, whole.
pub proof fn law_missing_database_is_answered<A: App>(
    before: WorkerView<A::DbState>,
    after: WorkerView<A::DbState>,
    before_out: Seq<Action>,
    after_out: Seq<Action>,
    request: DbRequest,
)
    requires
        before.wf(),
        before.dbs.len() == 0,
        is_open(before.sends, request.http_slot as int),
        db_taken_on::<A>(before, after, before_out, after_out, request),
    ensures
        ({
            let slot = request.http_slot;
            let message = ascii(UNAVAILABLE@);
            &&& after_out == before_out.push(Action::Send { slot, len: message.len() as u32 })
            &&& is_open(after.sends, slot as int)
            &&& after.sends[slot as int]->0.take(message.len() as int) == message
        }),
{
    reveal_strlit("HTTP/1.1 503 Service Unavailable\r\nServer: V\r\nContent-Length: 0\r\n\r\n");
    let slot = request.http_slot as int;
    let message = ascii(UNAVAILABLE@);
    assert(before.sends[slot]->0.len() == SEND_BUF_SIZE);
    assert(after.sends[slot]->0.take(message.len() as int) =~= message);
    assert(after_out =~= before_out.push(
        Action::Send { slot: request.http_slot, len: message.len() as u32 },
    ));
}

/// A request whose database operation fails is not left without an answer: the
/// next action sends the 500 response, whole.
pub proof fn law_failed_operation_is_answered<A: App>(
    before: WorkerView<A::DbState>,
    after: WorkerView<A::DbState>,
    before_out: Seq<Action>,
    after_out: Seq<Action>,
    index: int,
)
    requires
        before.wf(),
        0 <= index < before.dbs.len(),
        is_open(before.sends, before.dbs[index].http_slot as int),
        db_given_up::<A>(before, after, before_out, after_out, index),
    ensures
        ({
            let slot = before.dbs[index].http_slot;
            let message = ascii(INTERNAL_ERROR@);
            &&& after_out.len() > before_out.len()
            &&& after_out.take(before_out.len() as int) == before_out
            &&& after_out[before_out.len() as int] == Action::Send {
                slot,
                len: message.len() as u32,
            }
            &&& is_open(after.sends, slot as int)
            &&& after.sends[slot as int]->0.take(message.len() as int) == message
        }),
{
    reveal_strlit("HTTP/1.1 500 Internal Server Error\r\nServer: V\r\nContent-Length: 0\r\n\r\n");
    let slot = before.dbs[index].http_slot as int;
    let message = ascii(INTERNAL_ERROR@);
    assert(before.sends[slot]->0.len() == SEND_BUF_SIZE);
    assert(after.sends[slot]->0.take(message.len() as int) =~= message);
    assert(after_out.take(before_out.len() as int) =~= before_out);
}

/// Handing out slots or taking them back keeps what holds between events.
pub(crate) proof fn lemma_files_set<S>(s: WorkerView<S>, files: FilesView)
    requires
        s.wf(),
        files.capacity == s.files.capacity,
    ensures
        (WorkerView { files, ..s }).wf(),
{
    let t = WorkerView { files, ..s };
    assert(t.sends == s.sends && t.dbs == s.dbs && t.queue == s.queue && t.pool == s.pool);
}

/// Adding a database connection while no request waits keeps what holds between
/// events.
pub(crate) proof fn lemma_db_added<S>(s: WorkerView<S>, db: DbView<S>)
    requires
        s.wf(),
        s.queue.len() == 0,
        s.dbs.len() < u32::MAX,
        db.rbuf.len() == DB_BUF_SIZE,
        db.rpos <= DB_BUF_SIZE,
        db.http_slot < s.sends.len(),
    ensures
        (WorkerView { dbs: s.dbs.push(db), ..s }).wf(),
{
    let t = WorkerView { dbs: s.dbs.push(db), ..s };
    assert(t.sends == s.sends && t.queue == s.queue && t.pool == s.pool);
    assert forall|i: int| 0 <= i < t.dbs.len() implies {
        &&& (#[trigger] t.dbs[i]).rbuf.len() == DB_BUF_SIZE
        &&& t.dbs[i].rpos <= DB_BUF_SIZE
        &&& t.dbs[i].http_slot < t.sends.len()
    } by {
        if i < s.dbs.len() {
            assert(t.dbs[i] == s.dbs[i]);
        }
    }
}

/// Starting waiting requests restores what holds between events.
pub(crate) proof fn lemma_drained<A: App>(
    before: WorkerView<A::DbState>,
    after: WorkerView<A::DbState>,
    before_out: Seq<Action>,
    after_out: Seq<Action>,
)
    requires
        before.buffers_wf(),
        drained::<A>(before, after, before_out, after_out),
    ensures
        after.wf(),
        before.owns_slots() ==> after.owns_slots(),
{
    let idle = idle_of(before.dbs);
    let (starts, taken) = assign(idle, before.queue, before.sends);
    law_queue_is_first_in_first_out(idle, before.queue, before.sends);
    law_no_request_waits_beside_an_idle_connection(idle, before.queue, before.sends);
    let keep = |r: DbRequest| is_open(before.sends, r.http_slot as int);
    let requests = starts.map_values(|p: (int, DbRequest)| p.1);
    assert forall|k: int| 0 <= k < starts.len() implies is_open(
        before.sends,
        (#[trigger] starts[k]).1.http_slot as int,
    ) by {
        assert(requests[k] == starts[k].1);
        before.queue.take(taken).lemma_filter_pred(keep, k);
    }
    assert forall|i: int| 0 <= i < after.dbs.len() implies {
        &&& (#[trigger] after.dbs[i]).rbuf.len() == DB_BUF_SIZE
        &&& after.dbs[i].rpos <= DB_BUF_SIZE
        &&& after.dbs[i].http_slot < after.sends.len()
        &&& after.dbs[i].slot == before.dbs[i].slot
        &&& after.queue.len() > 0 ==> !after.dbs[i].idle
    } by {
        if exists|k: int| 0 <= k < starts.len() && (#[trigger] starts[k]).0 == i {
            let k = choose|k: int| 0 <= k < starts.len() && (#[trigger] starts[k]).0 == i;
            assert(started::<A>(before.dbs[i], after.dbs[i], starts[k].1));
        } else {
            assert(after.dbs[i] == before.dbs[i]);
            assert(idle[i] == before.dbs[i].idle);
        }
    }
    assert forall|i: int| 0 <= i < after.queue.len() implies (#[trigger] after.queue[i]).http_slot
        < after.sends.len() by {
        assert(after.queue[i] == before.queue[i + taken]);
    }
    if before.owns_slots() {
        assert forall|slot: u32| #[trigger]
            is_open(after.sends, slot as int) implies after.files.used.contains(slot) by {
            assert(is_open(before.sends, slot as int));
        }
    }
}

/// Closing an HTTP connection keeps the state in order.
pub(crate) proof fn lemma_closing<S>(s: WorkerView<S>, slot: u32)
    requires
        s.wf(),
    ensures
        s.closing(slot).wf(),
        s.owns_slots() ==> s.closing(slot).owns_slots(),
{
    let t = s.closing(slot);
    assert(are_full_size(t.sends)) by {
        assert forall|k: int|
            0 <= k < t.sends.len() && #[trigger] t.sends[k] is Some implies t.sends[k]->0.len()
            == SEND_BUF_SIZE by {
            assert(s.sends[k] is Some);
        }
    }
    if is_open(s.sends, slot as int) {
        assert(s.sends[slot as int]->0.len() == SEND_BUF_SIZE);
    }
    assert forall|k: u32| #[trigger] is_open(t.sends, k as int) implies is_open(
        s.sends,
        k as int,
    ) by {}
    if s.owns_slots() {
        assert forall|i: int| 0 <= i < t.dbs.len() implies t.files.used.contains(
            (#[trigger] t.dbs[i]).slot,
        ) && !is_open(t.sends, t.dbs[i].slot as int) by {
            assert(!is_open(s.sends, s.dbs[i].slot as int));
        }
    }
}

/// Putting a full-size buffer into a slot keeps the buffers in order. Where
/// the slot is in use and is no database connection's, it also keeps the
/// owners apart.
pub(crate) proof fn lemma_send_buffer_set<S>(s: WorkerView<S>, slot: u32, buf: Seq<u8>)
    requires
        s.buffers_wf(),
        slot < s.sends.len(),
        buf.len() == SEND_BUF_SIZE,
    ensures
        (WorkerView { sends: s.sends.update(slot as int, Some(buf)), ..s }).buffers_wf(),
        s.wf() ==> (WorkerView { sends: s.sends.update(slot as int, Some(buf)), ..s }).wf(),
        s.owns_slots() && (is_open(s.sends, slot as int) || (s.is_unowned(slot)
            && s.files.used.contains(slot))) ==> (WorkerView {
            sends: s.sends.update(slot as int, Some(buf)),
            ..s
        }).owns_slots(),
{
    let t = WorkerView { sends: s.sends.update(slot as int, Some(buf)), ..s };
    assert(are_full_size(t.sends)) by {
        assert forall|k: int|
            0 <= k < t.sends.len() && #[trigger] t.sends[k] is Some implies t.sends[k]->0.len()
            == SEND_BUF_SIZE by {
            if k != slot {
                assert(s.sends[k] is Some);
            }
        }
    }
    if s.owns_slots() && (is_open(s.sends, slot as int) || (s.is_unowned(slot)
        && s.files.used.contains(slot))) {
        assert forall|k: u32| #[trigger] is_open(t.sends, k as int) implies t.files.used.contains(
            k,
        ) by {
            if k != slot {
                assert(is_open(s.sends, k as int));
            } else {
                assert(is_open(s.sends, slot as int) ==> s.files.used.contains(slot));
            }
        }
        assert forall|i: int| 0 <= i < t.dbs.len() implies t.files.used.contains(
            (#[trigger] t.dbs[i]).slot,
        ) && !is_open(t.sends, t.dbs[i].slot as int) by {
            assert(!is_open(s.sends, s.dbs[i].slot as int));
        }
    }
}

/// Replacing a database connection by a later state of it keeps the buffers in
/// order and the owners apart. A connection that is not idle also keeps what
/// holds between events.
pub(crate) proof fn lemma_db_set<S>(s: WorkerView<S>, i: int, db: DbView<S>)
    requires
        s.buffers_wf(),
        0 <= i < s.dbs.len(),
        db.slot == s.dbs[i].slot,
        db.rbuf.len() == DB_BUF_SIZE,
        db.rpos <= DB_BUF_SIZE,
        db.http_slot < s.sends.len(),
    ensures
        (WorkerView { dbs: s.dbs.update(i, db), ..s }).buffers_wf(),
        s.wf() && (!db.idle || s.dbs[i].idle) ==> (WorkerView {
            dbs: s.dbs.update(i, db),
            ..s
        }).wf(),
        s.owns_slots() ==> (WorkerView { dbs: s.dbs.update(i, db), ..s }).owns_slots(),
{
    let t = WorkerView { dbs: s.dbs.update(i, db), ..s };
    assert forall|k: int| 0 <= k < t.dbs.len() implies (#[trigger] t.dbs[k]).slot
        == s.dbs[k].slot by {}
    assert forall|k: int| 0 <= k < t.dbs.len() && k != i implies #[trigger] t.dbs[k]
        == s.dbs[k] by {}
    if s.wf() && (!db.idle || s.dbs[i].idle) && s.queue.len() > 0 {
        assert(!s.dbs[i].idle);
    }
    if s.owns_slots() {
        assert forall|slot: u32| #[trigger]
            is_open(t.sends, slot as int) implies t.files.used.contains(slot) by {
            assert(is_open(s.sends, slot as int));
        }
    }
}

/// A request may wait where no database connection is idle.
pub(crate) proof fn lemma_queued<S>(s: WorkerView<S>, request: DbRequest)
    requires
        s.buffers_wf(),
        request.http_slot < s.sends.len(),
        forall|i: int| 0 <= i < s.dbs.len() ==> !(#[trigger] s.dbs[i]).idle,
    ensures
        (WorkerView { queue: s.queue.push(request), ..s }).wf(),
{
    let t = WorkerView { queue: s.queue.push(request), ..s };
    assert forall|i: int| 0 <= i < t.queue.len() implies (#[trigger] t.queue[i]).http_slot
        < t.sends.len() by {
        if i < s.queue.len() {
            assert(t.queue[i] == s.queue[i]);
        }
    }
}

/// Writing a message that fits to a send buffer keeps the state in order.
pub(crate) proof fn lemma_replied<S>(s: WorkerView<S>, slot: u32, message: Seq<u8>)
    requires
        s.buffers_wf(),
        message.len() <= SEND_BUF_SIZE,
    ensures
        replied(s.sends, slot as int, message).len() == s.sends.len(),
        (WorkerView { sends: replied(s.sends, slot as int, message), ..s }).buffers_wf(),
        s.wf() ==> (WorkerView { sends: replied(s.sends, slot as int, message), ..s }).wf(),
        s.owns_slots() ==> (WorkerView {
            sends: replied(s.sends, slot as int, message),
            ..s
        }).owns_slots(),
{
    if is_open(s.sends, slot as int) {
        assert(s.sends[slot as int]->0.len() == SEND_BUF_SIZE);
        lemma_send_buffer_set(s, slot, overwrite(s.sends[slot as int]->0, message));
    }
}

/// Where the application answers a request that needs no database, all that it
/// wrote is sent: on an open connection, `n` bytes written ask for exactly one
/// send, on that slot and of `n` bytes, out of the buffer as the application
/// left it, and nothing else changes. Nothing written closes the connection.
pub proof fn law_fast_answers_are_sent_whole<A: App>(
    before: WorkerView<A::DbState>,
    after: WorkerView<A::DbState>,
    before_out: Seq<Action>,
    after_out: Seq<Action>,
    slot: u32,
    id: u8,
    data: Seq<u8>,
    date: Seq<u8>,
)
    requires
        slot < before.sends.len(),
        answered::<A>(
            before,
            after,
            before_out,
            after_out,
            slot,
            RouteAction::Fast(id),
            data,
            date,
        ),
    ensures
        before.sends[slot as int] is None ==> after == before && after_out == before_out,
        before.sends[slot as int] matches Some(buf) ==> exists|sent: Seq<u8>, done: (usize, usize)|
            {
                &&& #[trigger] A::handles_fast(id, data, date, buf, sent, done)
                &&& 0 < done.1 <= 0xffff_ffff ==> {
                    &&& after_out.len() == before_out.len() + 1
                    &&& after_out.take(before_out.len() as int) == before_out
                    &&& after_out.last() matches Action::Send { slot: s, len } && s == slot
                        && len as int == done.1
                    &&& after.sends == before.sends.update(slot as int, Some(sent))
                    &&& after.pool == before.pool
                }
                &&& done.1 == 0 ==> {
                    &&& after_out.len() == before_out.len() + 1
                    &&& after_out.take(before_out.len() as int) == before_out
                    &&& after_out.last() matches Action::CloseSlot { slot: s } && s == slot
                    &&& after.sends == before.sends.update(slot as int, None)
                    &&& after.pool == before.pool.push(sent)
                }
                &&& after.files == before.files
                &&& after.dbs == before.dbs
                &&& after.queue == before.queue
            },
{
    let i = slot as int;
    if before.sends[i] is Some {
        let buf = before.sends[i]->0;
        let (sent, done) = choose|sent: Seq<u8>, done: (usize, usize)|
            {
                &&& #[trigger] A::handles_fast(id, data, date, buf, sent, done)
                &&& after == (WorkerView {
                    sends: before.sends.update(i, Some(sent)),
                    ..before
                }).answering(slot, done.1)
                &&& after_out == before_out + before.answer_actions(slot, done.1)
            };
        assert(after_out.take(before_out.len() as int) =~= before_out);
        assert(done.1 == 0 ==> after.sends =~= before.sends.update(i, None));
        assert(A::handles_fast(id, data, date, buf, sent, done));
    }
}

/// A request that the application does not know closes its connection: one
/// close is asked for, on its slot, and nothing is sent.
pub proof fn law_unknown_requests_are_closed<A: App>(
    before: WorkerView<A::DbState>,
    after: WorkerView<A::DbState>,
    before_out: Seq<Action>,
    after_out: Seq<Action>,
    slot: u32,
    data: Seq<u8>,
    date: Seq<u8>,
)
    requires
        slot < before.sends.len(),
        before.sends[slot as int] is Some,
        answered::<A>(
            before,
            after,
            before_out,
            after_out,
            slot,
            RouteAction::NotFound,
            data,
            date,
        ),
    ensures
        after_out.len() == before_out.len() + 1,
        after_out.take(before_out.len() as int) == before_out,
        after_out.last() matches Action::CloseSlot { slot: s } && s == slot,
        after.sends == before.sends.update(slot as int, None),
        after.pool == before.pool.push(before.sends[slot as int]->0),
        after.files == before.files,
        after.dbs == before.dbs,
        after.queue == before.queue,
{
    assert(after_out.take(before_out.len() as int) =~= before_out);
}

/// A request for the database is started at once on the idle connection with
/// the least index, and its messages are sent whole. It waits, behind all others,
/// only where no connection is idle; then nothing is sent.
pub proof fn law_database_requests_start_or_wait<A: App>(
    before: WorkerView<A::DbState>,
    after: WorkerView<A::DbState>,
    before_out: Seq<Action>,
    after_out: Seq<Action>,
    slot: u32,
    id: u8,
    queries: i32,
    data: Seq<u8>,
    date: Seq<u8>,
    i: int,
)
    requires
        before.dbs.len() > 0,
        before.dbs.len() <= 0xffff_ffff,
        0 <= i < before.dbs.len(),
        forall|k: int| 0 <= k < i ==> !(#[trigger] before.dbs[k]).idle,
        answered::<A>(
            before,
            after,
            before_out,
            after_out,
            slot,
            RouteAction::Db { id, queries },
            data,
            date,
        ),
    ensures
        after.files == before.files,
        after.sends == before.sends,
        after.pool == before.pool,
        before.dbs[i].idle ==> {
            &&& after.queue == before.queue
            &&& after.dbs.len() == before.dbs.len()
            &&& forall|k: int|
                0 <= k < before.dbs.len() && k != i ==> #[trigger] after.dbs[k] == before.dbs[k]
            &&& after.dbs[i].http_slot == slot
            &&& after.dbs[i].idle == false
            &&& after.dbs[i].rpos == 0
            &&& A::starts_db(
                id,
                queries,
                after.dbs[i].wbuf,
                before.dbs[i].state,
                after.dbs[i].state,
            )
            &&& after_out.len() == before_out.len() + 1
            &&& after_out.take(before_out.len() as int) == before_out
            &&& after.dbs[i].wbuf.len() <= 0xffff_ffff ==> (after_out.last() matches Action::DbSend {
                index,
                slot: s,
                len,
            } && index as int == i && s == before.dbs[i].slot && len as int
                == after.dbs[i].wbuf.len())
        },
        i == before.dbs.len() - 1 && !before.dbs[i].idle ==> {
            &&& after.dbs == before.dbs
            &&& after_out == before_out
            &&& after.queue.len() == before.queue.len() + 1
            &&& after.queue.take(before.queue.len() as int) == before.queue
            &&& after.queue.last().http_slot == slot
            &&& after.queue.last().route_id == id
            &&& after.queue.last().queries == queries
        },
{
    law_first_idle_is_the_least(before.dbs);
    let first = first_true(idle_of(before.dbs), 0);
    assert(after_out.len() == before_out.len() + 1 ==> after_out.take(before_out.len() as int)
        =~= before_out);
    if before.dbs[i].idle {
        assert(first == i) by {
            if first < i {
                assert(!before.dbs[first].idle);
            }
            if i < first {
                assert(!before.dbs[i].idle);
            }
        }
    }
    if i == before.dbs.len() - 1 && !before.dbs[i].idle {
        assert(first == before.dbs.len()) by {
            if first < before.dbs.len() {
                assert(!before.dbs[first].idle);
            }
        }
        assert(after.queue.take(before.queue.len() as int) =~= before.queue);
    }
}

/// Starting waiting requests takes them from the front of the queue and sends
/// for those that are started, and it touches no HTTP connection.
pub proof fn law_draining_touches_no_http_connection<A: App>(
    before: WorkerView<A::DbState>,
    after: WorkerView<A::DbState>,
    before_out: Seq<Action>,
    after_out: Seq<Action>,
)
    requires
        drained::<A>(before, after, before_out, after_out),
    ensures
        ({
            let (starts, taken) = assign(idle_of(before.dbs), before.queue, before.sends);
            &&& after.files == before.files
            &&& after.sends == before.sends
            &&& after.pool == before.pool
            &&& 0 <= taken <= before.queue.len()
            &&& after.queue == before.queue.skip(taken)
            &&& all_started::<A>(before.dbs, after.dbs, starts)
            &&& after_out.len() == before_out.len() + starts.len()
            &&& after_out.take(before_out.len() as int) == before_out
            &&& after_out.skip(before_out.len() as int) == start_actions(after.dbs, starts)
        }),
{
    let (starts, taken) = assign(idle_of(before.dbs), before.queue, before.sends);
    law_queue_is_first_in_first_out(idle_of(before.dbs), before.queue, before.sends);
    assert(after_out.take(before_out.len() as int) =~= before_out);
    assert(after_out.skip(before_out.len() as int) =~= start_actions(after.dbs, starts));
}

/// After a database operation its connection serves again: given up or
/// answered, it is idle when waiting requests are started, and only the HTTP
/// connection that it was for is written to.
pub proof fn law_operations_end_with_an_idle_connection<A: App>(
    before: WorkerView<A::DbState>,
    after: WorkerView<A::DbState>,
    before_out: Seq<Action>,
    after_out: Seq<Action>,
    index: int,
    date: Seq<u8>,
)
    requires
        before.wf(),
        0 <= index < before.dbs.len(),
        db_given_up::<A>(before, after, before_out, after_out, index) || db_answered::<A>(
            before,
            after,
            before_out,
            after_out,
            index,
            date,
        ),
    ensures
        after.files == before.files,
        after.pool == before.pool,
        after.dbs.len() == before.dbs.len(),
        forall|k: int|
            0 <= k < before.sends.len() && k != before.dbs[index].http_slot
                ==> #[trigger] after.sends[k] == before.sends[k],
        before.queue.len() == 0 ==> after.dbs[index].idle && after.queue.len() == 0,
        after_out.len() >= before_out.len(),
        after_out.take(before_out.len() as int) == before_out,
{
    let db = before.dbs[index];
    let slot = db.http_slot;
    if db_given_up::<A>(before, after, before_out, after_out, index) {
        lemma_ends_idle::<A>(
            WorkerView {
                dbs: before.dbs.update(index, DbView { idle: true, ..db }),
                sends: replied(before.sends, slot as int, ascii(INTERNAL_ERROR@)),
                ..before
            },
            after,
            before_out + send_actions(before.sends, slot, ascii(INTERNAL_ERROR@).len() as usize),
            after_out,
            before_out,
            index,
        );
    } else if is_open(before.sends, slot as int) {
        let (sent, state, len) = choose|sent: Seq<u8>, state: A::DbState, len: usize|
            {
                &&& #[trigger] A::finishes_db(
                    db.rbuf,
                    db.rpos,
                    date,
                    before.sends[slot as int]->0,
                    sent,
                    db.state,
                    state,
                    len,
                )
                &&& drained::<A>(
                    WorkerView {
                        dbs: before.dbs.update(index, DbView { idle: true, state, ..db }),
                        sends: before.sends.update(slot as int, Some(sent)),
                        ..before
                    },
                    after,
                    if len > 0 {
                        before_out + send_actions(before.sends, slot, len)
                    } else {
                        before_out
                    },
                    after_out,
                )
            };
        lemma_ends_idle::<A>(
            WorkerView {
                dbs: before.dbs.update(index, DbView { idle: true, state, ..db }),
                sends: before.sends.update(slot as int, Some(sent)),
                ..before
            },
            after,
            if len > 0 {
                before_out + send_actions(before.sends, slot, len)
            } else {
                before_out
            },
            after_out,
            before_out,
            index,
        );
    } else {
        lemma_ends_idle::<A>(
            WorkerView {
                dbs: before.dbs.update(index, DbView { idle: true, ..db }),
                ..before
            },
            after,
            before_out,
            after_out,
            before_out,
            index,
        );
    }
}

proof fn lemma_ends_idle<A: App>(
    mid: WorkerView<A::DbState>,
    after: WorkerView<A::DbState>,
    mid_out: Seq<Action>,
    after_out: Seq<Action>,
    out: Seq<Action>,
    index: int,
)
    requires
        0 <= index < mid.dbs.len(),
        mid.dbs[index].idle,
        drained::<A>(mid, after, mid_out, after_out),
        mid_out.len() >= out.len(),
        mid_out.take(out.len() as int) =~= out,
    ensures
        after.files == mid.files,
        after.pool == mid.pool,
        after.sends == mid.sends,
        after.dbs.len() == mid.dbs.len(),
        mid.queue.len() == 0 ==> after.dbs[index].idle && after.queue.len() == 0,
        after_out.len() >= out.len(),
        after_out.take(out.len() as int) == out,
{
    law_draining_touches_no_http_connection::<A>(mid, after, mid_out, after_out);
    let starts = assign(idle_of(mid.dbs), mid.queue, mid.sends).0;
    assert(after_out.take(out.len() as int) =~= mid_out.take(out.len() as int));
    if mid.queue.len() == 0 {
        assert(starts.len() == 0);
        assert(after.dbs[index] == mid.dbs[index]);
    }
}

/// Where the response of the database is complete, the application answers the
/// HTTP connection that the operation was for, from the response as it arrived,
/// and all that it wrote is sent: the next action is a send on that slot of as
/// many bytes as it reports, out of the buffer as it left it.
pub proof fn law_database_answers_are_sent_whole<A: App>(
    before: WorkerView<A::DbState>,
    after: WorkerView<A::DbState>,
    before_out: Seq<Action>,
    after_out: Seq<Action>,
    index: int,
    date: Seq<u8>,
)
    requires
        0 <= index < before.dbs.len(),
        before.dbs[index].http_slot < before.sends.len(),
        before.sends[before.dbs[index].http_slot as int] is Some,
        db_answered::<A>(before, after, before_out, after_out, index, date),
    ensures
        ({
            let db = before.dbs[index];
            let slot = db.http_slot;
            exists|sent: Seq<u8>, state: A::DbState, len: usize|
                {
                    &&& #[trigger] A::finishes_db(
                        db.rbuf,
                        db.rpos,
                        date,
                        before.sends[slot as int]->0,
                        sent,
                        db.state,
                        state,
                        len,
                    )
                    &&& after.sends == before.sends.update(slot as int, Some(sent))
                    &&& len <= 0xffff_ffff ==> drained::<A>(
                        WorkerView {
                            dbs: before.dbs.update(index, DbView { idle: true, state, ..db }),
                            sends: after.sends,
                            ..before
                        },
                        after,
                        if len == 0 {
                            before_out
                        } else {
                            before_out.push(Action::Send { slot, len: len as u32 })
                        },
                        after_out,
                    )
                    &&& 0 < len <= 0xffff_ffff ==> {
                        &&& after_out.len() > before_out.len()
                        &&& after_out[before_out.len() as int] matches Action::Send {
                            slot: s,
                            len: n,
                        } && s == slot && n as int == len
                    }
                }
        }),
{
    let db = before.dbs[index];
    let slot = db.http_slot;
    let (sent, state, len) = choose|sent: Seq<u8>, state: A::DbState, len: usize|
        {
            &&& #[trigger] A::finishes_db(
                db.rbuf,
                db.rpos,
                date,
                before.sends[slot as int]->0,
                sent,
                db.state,
                state,
                len,
            )
            &&& drained::<A>(
                WorkerView {
                    dbs: before.dbs.update(index, DbView { idle: true, state, ..db }),
                    sends: before.sends.update(slot as int, Some(sent)),
                    ..before
                },
                after,
                if len > 0 {
                    before_out + send_actions(before.sends, slot, len)
                } else {
                    before_out
                },
                after_out,
            )
        };
    assert(before_out + send_actions(before.sends, slot, len) =~= before_out.push(
        Action::Send { slot, len: len as u32 },
    ));
    assert(A::finishes_db(
        db.rbuf,
        db.rpos,
        date,
        before.sends[slot as int]->0,
        sent,
        db.state,
        state,
        len,
    ));
}

/// The rest of a database response is received right behind what has arrived,
/// on the connection's own slot, and no more than there is room for.
pub proof fn law_responses_are_received_in_place<S>(index: int, db: DbView<S>)
    requires
        0 <= index <= 0xffff_ffff,
        db.rpos <= db.rbuf.len() <= 0xffff_ffff,
    ensures
        db_recv(index, db) matches Action::DbRecv { index: i, slot, offset, len } && i as int
            == index && slot == db.slot && offset == db.rpos && offset + len == db.rbuf.len(),
{
}

/// Taking a slot into use and giving it back change that slot and nothing else,
/// and a slot is free where it is below the capacity and not in use.
pub proof fn law_slots_change_one_by_one<S>(s: WorkerView<S>, slot: u32, other: u32)
    ensures
        s.taking(slot).files.used.contains(slot),
        !s.freeing(slot).files.used.contains(slot),
        other != slot ==> (s.taking(slot).files.used.contains(other)
            <==> s.files.used.contains(other)),
        other != slot ==> (s.freeing(slot).files.used.contains(other)
            <==> s.files.used.contains(other)),
        s.taking(slot).files.capacity == s.files.capacity,
        s.freeing(slot).files.capacity == s.files.capacity,
        s.taking(slot).sends == s.sends && s.freeing(slot).sends == s.sends,
        s.taking(slot).dbs == s.dbs && s.freeing(slot).dbs == s.dbs,
        s.taking(slot).queue == s.queue && s.freeing(slot).queue == s.queue,
        s.taking(slot).pool == s.pool && s.freeing(slot).pool == s.pool,
        s.is_free(slot) <==> slot < s.files.capacity && !s.files.used.contains(slot),
        s.is_full() && slot < s.files.capacity ==> s.files.used.contains(slot),
{
}

/// An accepted connection is given a free slot, with its own descriptor, and is
/// refused only where every slot is in use; an error accepts nothing.
pub proof fn law_connections_are_accepted_while_there_is_room<S>(
    before: WorkerView<S>,
    after: WorkerView<S>,
    result: i32,
    accepted: Accepted,
    slot: u32,
)
    requires
        accepted_as(before, after, result, accepted),
    ensures
        result < 0 <==> accepted == Accepted::Nothing,
        accepted matches Accepted::Refused { fd } ==> fd == result && (slot
            < before.files.capacity ==> before.files.used.contains(slot)),
        accepted matches Accepted::Register { slot: s, fd } ==> {
            &&& fd == result
            &&& s < before.files.capacity
            &&& !before.files.used.contains(s)
            &&& after.files.used == before.files.used.insert(s)
        },
        !(accepted is Register) ==> after == before,
        after.sends == before.sends,
        after.dbs == before.dbs,
        after.queue == before.queue,
        after.pool == before.pool,
{
}

/// A receive without bytes closes its connection and leaves the ring alone. One
/// with bytes has the application classify exactly these bytes of the buffer,
/// and the buffer goes back to the ring with its contents.
pub proof fn law_received_bytes_are_classified<A: App>(
    before: WorkerView<A::DbState>,
    after: WorkerView<A::DbState>,
    before_ring: RingView,
    after_ring: RingView,
    before_out: Seq<Action>,
    after_out: Seq<Action>,
    slot: u32,
    result: i32,
    buf_id: Option<u16>,
    date: Seq<u8>,
)
    requires
        received_as::<A>(
            before,
            after,
            before_ring,
            after_ring,
            before_out,
            after_out,
            slot,
            result,
            buf_id,
            date,
        ),
    ensures
        after_ring.buffers == before_ring.buffers,
        after_ring.buf_size == before_ring.buf_size,
        after_ring.bgid == before_ring.bgid,
        result <= 0 ==> {
            &&& after_ring.tail == before_ring.tail
            &&& after.files == before.files
            &&& after.dbs == before.dbs
            &&& after.queue == before.queue
            &&& slot < before.sends.len() ==> after.sends == before.sends.update(slot as int, None)
            &&& slot >= before.sends.len() ==> after.sends == before.sends
            &&& slot < before.sends.len() && before.sends[slot as int] is Some ==> {
                &&& after_out == before_out.push(Action::CloseSlot { slot })
                &&& after.pool == before.pool.push(before.sends[slot as int]->0)
            }
            &&& slot >= before.sends.len() || before.sends[slot as int] is None ==> after_out
                == before_out && after.pool == before.pool
        },
        result > 0 ==> {
            &&& before_ring.tail < 0xffff ==> after_ring.tail == before_ring.tail + 1
            &&& before_ring.tail == 0xffff ==> after_ring.tail == 0
            &&& exists|action: RouteAction| #[trigger]
                A::classifies(
                    before_ring.buffers[buf_id->0 as int].take(result as int),
                    action,
                ) && answered::<A>(
                    before,
                    after,
                    before_out,
                    after_out,
                    slot,
                    action,
                    before_ring.buffers[buf_id->0 as int].take(result as int),
                    date,
                )
        },
{
    if result <= 0 {
        if slot < before.sends.len() {
            assert(after.sends =~= before.sends.update(slot as int, None));
        }
        assert(after_out == before_out + close_actions(before.sends, slot));
        if slot < before.sends.len() && before.sends[slot as int] is Some {
            assert(after_out =~= before_out.push(Action::CloseSlot { slot }));
        } else {
            assert(after_out =~= before_out);
        }
    }
}

/// A send that went through asks for the next request on the same open
/// connection and changes nothing; one that failed closes it.
pub proof fn law_sends_lead_to_the_next_request<S>(
    before: WorkerView<S>,
    after: WorkerView<S>,
    before_out: Seq<Action>,
    after_out: Seq<Action>,
    slot: u32,
    result: i32,
)
    requires
        slot < before.sends.len(),
        sent_as(before, after, before_out, after_out, slot, result),
    ensures
        before.sends[slot as int] is None ==> after_out == before_out,
        result >= 0 ==> after == before,
        result >= 0 && before.sends[slot as int] is Some ==> after_out == before_out.push(
            Action::Recv { slot },
        ),
        result < 0 ==> after.sends == before.sends.update(slot as int, None) && after.files
            == before.files && after.dbs == before.dbs && after.queue == before.queue,
        result < 0 && before.sends[slot as int] is Some ==> after_out == before_out.push(
            Action::CloseSlot { slot },
        ) && after.pool == before.pool.push(before.sends[slot as int]->0),
{
    if result < 0 {
        assert(after.sends =~= before.sends.update(slot as int, None));
        if before.sends[slot as int] is Some {
            assert(after_out =~= before_out.push(Action::CloseSlot { slot }));
        } else {
            assert(after_out =~= before_out);
        }
    }
}

/// A database connection whose messages went out waits for the response, and
/// what arrives is counted; a failure gives up the operation.
pub proof fn law_database_connections_wait_for_responses<A: App>(
    before: WorkerView<A::DbState>,
    after: WorkerView<A::DbState>,
    before_out: Seq<Action>,
    after_out: Seq<Action>,
    index: u32,
    result: i32,
)
    requires
        index < before.dbs.len(),
        before.dbs[index as int].rpos <= before.dbs[index as int].rbuf.len() <= 32768,
        before.dbs[index as int].rpos + result <= 32768,
    ensures
        ({
            let db = before.dbs[index as int];
            &&& db_sent_as::<A>(before, after, before_out, after_out, index, result) && result >= 0
                ==> {
                &&& after == before
                &&& after_out.len() == before_out.len() + 1
                &&& after_out.take(before_out.len() as int) == before_out
                &&& after_out.last() matches Action::DbRecv { index: i, slot, offset, len } && i
                    == index && slot == db.slot && offset == db.rpos && offset + len
                    == db.rbuf.len()
            }
            &&& db_sent_as::<A>(before, after, before_out, after_out, index, result) && result < 0
                ==> db_given_up::<A>(before, after, before_out, after_out, index as int)
            &&& db_received_as::<A>(before, after, before_out, after_out, index, result) && result
                <= 0 ==> db_given_up::<A>(before, after, before_out, after_out, index as int)
            &&& db_received_as::<A>(before, after, before_out, after_out, index, result) && result
                > 0 ==> {
                &&& after_out == before_out
                &&& after.dbs.len() == before.dbs.len()
                &&& after.dbs[index as int].rpos == db.rpos + result
                &&& after.dbs[index as int].rbuf == db.rbuf
                &&& after.dbs[index as int].idle == db.idle
                &&& after.dbs[index as int].http_slot == db.http_slot
                &&& after.dbs[index as int].slot == db.slot
                &&& forall|k: int|
                    0 <= k < before.dbs.len() && k != index ==> #[trigger] after.dbs[k]
                        == before.dbs[k]
                &&& after.sends == before.sends
                &&& after.queue == before.queue
            }
        }),
{
    if db_sent_as::<A>(before, after, before_out, after_out, index, result) && result >= 0 {
        assert(after_out.take(before_out.len() as int) =~= before_out);
    }
}

/// Each completion is handled as the kind of operation that its token names, on
/// the slot or index that it names, and what is left to do is that kind's.
pub proof fn law_completions_are_handled_by_kind<A: App>(
    token: Option<Token>,
    before: WorkerView<A::DbState>,
    after: WorkerView<A::DbState>,
    before_ring: RingView,
    after_ring: RingView,
    before_out: Seq<Action>,
    after_out: Seq<Action>,
    result: i32,
    buf_id: Option<u16>,
    date: Seq<u8>,
    next: FollowUp,
)
    requires
        completed_as::<A>(
            token,
            before,
            after,
            before_ring,
            after_ring,
            before_out,
            after_out,
            result,
            buf_id,
            date,
            next,
        ),
    ensures
        token is None ==> after == before && after_ring == before_ring && after_out == before_out
            && next == FollowUp::Nothing,
        token == Some(Token::Accept) ==> after_ring == before_ring && after_out == before_out && (
        next matches FollowUp::Accept(accepted) && accepted_as(before, after, result, accepted)),
        token matches Some(Token::Recv(slot)) ==> received_as::<A>(
            before,
            after,
            before_ring,
            after_ring,
            before_out,
            after_out,
            slot,
            result,
            buf_id,
            date,
        ) && (result > 0 ==> next == FollowUp::Provide { buf_id: buf_id->0 }) && (result <= 0
            ==> next == FollowUp::Nothing),
        token matches Some(Token::Send(slot)) ==> sent_as(
            before,
            after,
            before_out,
            after_out,
            slot,
            result,
        ) && after_ring == before_ring && next == FollowUp::Nothing,
        token matches Some(Token::Close(slot)) ==> after.files.used == before.files.used.remove(
            slot,
        ) && after.sends == before.sends && after.dbs == before.dbs && after.queue == before.queue
            && after_ring == before_ring && after_out == before_out && next == FollowUp::Nothing,
        token matches Some(Token::DbSend(index)) ==> db_sent_as::<A>(
            before,
            after,
            before_out,
            after_out,
            index,
            result,
        ) && after_ring == before_ring && next == FollowUp::Nothing,
        token matches Some(Token::DbRecv(index)) ==> db_received_as::<A>(
            before,
            after,
            before_out,
            after_out,
            index,
            result,
        ) && after_ring == before_ring && (result > 0 ==> next == FollowUp::Progress { index }) && (
        result <= 0 ==> next == FollowUp::Nothing),
{
}

/// A completion can be handled where it names a place that there is and brings
/// no more than was asked for.
pub proof fn law_expected_completions_have_a_place<S>(
    s: WorkerView<S>,
    ring: RingView,
    index: u32,
    result: i32,
    buf_id: Option<u16>,
)
    ensures
        s.expects(None, result, buf_id, ring),
        s.expects(Some(Token::Accept), result, buf_id, ring),
        s.expects(Some(Token::Close(index)), result, buf_id, ring),
        s.expects(Some(Token::Recv(index)), result, buf_id, ring) <==> result <= 0 || (index
            < s.sends.len() && buf_id is Some && buf_id->0 < ring.buffers.len() && result
            <= ring.buf_size),
        s.expects(Some(Token::Send(index)), result, buf_id, ring) <==> result < 0 || index
            < s.sends.len(),
        s.expects(Some(Token::DbSend(index)), result, buf_id, ring) <==> index < s.dbs.len(),
        s.expects(Some(Token::DbRecv(index)), result, buf_id, ring) <==> index < s.dbs.len()
            && s.dbs[index as int].rpos + result <= 32768,
{
}

/// A fresh buffer holds nothing but zeros.
pub proof fn law_fresh_buffers_are_zero(len: nat, i: int)
    requires
        0 <= i < len,
    ensures
        zeros(len).len() == len,
        zeros(len)[i] == 0,
{
}

/// A worker without a database answers 503 on an open connection and does
/// nothing else: no other connection, no pooled buffer and no slot changes, and
/// nothing waits. Where the connection is gone, it does nothing at all.
pub proof fn law_missing_database_changes_nothing_else<A: App>(
    before: WorkerView<A::DbState>,
    after: WorkerView<A::DbState>,
    before_out: Seq<Action>,
    after_out: Seq<Action>,
    request: DbRequest,
)
    requires
        before.wf(),
        before.dbs.len() == 0,
        request.http_slot < before.sends.len(),
        db_taken_on::<A>(before, after, before_out, after_out, request),
    ensures
        ({
            let slot = request.http_slot;
            let message = ascii(
                "HTTP/1.1 503 Service Unavailable\r\nServer: V\r\nContent-Length: 0\r\n\r\n"@,
            );
            &&& after.files == before.files
            &&& after.dbs == before.dbs
            &&& after.queue == before.queue
            &&& after.pool == before.pool
            &&& before.sends[slot as int] is None ==> after.sends == before.sends && after_out
                == before_out
            &&& before.sends[slot as int] is Some ==> {
                &&& after.sends == before.sends.update(slot as int, after.sends[slot as int])
                &&& after.sends[slot as int]->0.take(66) == message
                &&& after.sends[slot as int]->0.skip(66) == before.sends[slot as int]->0.skip(66)
                &&& after_out == before_out.push(Action::Send { slot, len: 66 })
            }
        }),
{
    reveal_strlit("HTTP/1.1 503 Service Unavailable\r\nServer: V\r\nContent-Length: 0\r\n\r\n");
    let slot = request.http_slot as int;
    if before.sends[slot] is Some {
        assert(before.sends[slot]->0.len() == SEND_BUF_SIZE);
        law_reply_goes_to_one(before.sends, slot, ascii(UNAVAILABLE@));
        assert(after.sends =~= before.sends.update(slot, after.sends[slot]));
        assert(after_out =~= before_out.push(Action::Send { slot: request.http_slot, len: 66 }));
    } else {
        assert(after_out =~= before_out);
    }
}

/// A database operation that fails is answered with 500 on its open HTTP
/// connection, and then waiting requests are started as after every operation.
/// Where the HTTP connection is gone, nothing is written or sent for it.
pub proof fn law_failed_operations_answer_and_go_on<A: App>(
    before: WorkerView<A::DbState>,
    after: WorkerView<A::DbState>,
    before_out: Seq<Action>,
    after_out: Seq<Action>,
    index: int,
)
    requires
        before.wf(),
        0 <= index < before.dbs.len(),
        db_given_up::<A>(before, after, before_out, after_out, index),
    ensures
        ({
            let db = before.dbs[index];
            let slot = db.http_slot;
            let message = ascii(
                "HTTP/1.1 500 Internal Server Error\r\nServer: V\r\nContent-Length: 0\r\n\r\n"@,
            );
            let freed = WorkerView {
                dbs: before.dbs.update(index, DbView { idle: true, ..db }),
                ..before
            };
            &&& before.sends[slot as int] is None ==> drained::<A>(
                freed,
                after,
                before_out,
                after_out,
            )
            &&& before.sends[slot as int] is Some ==> {
                &&& after.sends[slot as int]->0.take(68) == message
                &&& after.sends[slot as int]->0.skip(68) == before.sends[slot as int]->0.skip(68)
                &&& drained::<A>(
                    WorkerView {
                        sends: before.sends.update(slot as int, after.sends[slot as int]),
                        ..freed
                    },
                    after,
                    before_out.push(Action::Send { slot, len: 68 }),
                    after_out,
                )
            }
        }),
{
    reveal_strlit("HTTP/1.1 500 Internal Server Error\r\nServer: V\r\nContent-Length: 0\r\n\r\n");
    let db = before.dbs[index];
    let slot = db.http_slot as int;
    let sends = replied(before.sends, slot, ascii(INTERNAL_ERROR@));
    let out = before_out + send_actions(
        before.sends,
        db.http_slot,
        ascii(INTERNAL_ERROR@).len() as usize,
    );
    assert(after.sends == sends);
    if before.sends[slot] is Some {
        assert(before.sends[slot]->0.len() == SEND_BUF_SIZE);
        law_reply_goes_to_one(before.sends, slot, ascii(INTERNAL_ERROR@));
        assert(sends =~= before.sends.update(slot, after.sends[slot]));
        assert(out =~= before_out.push(Action::Send { slot: db.http_slot, len: 68 }));
    } else {
        assert(out =~= before_out);
    }
}

/// A complete database response for an HTTP connection that is gone is dropped:
/// its database connection is idle again and waiting requests are started, and
/// nothing is sent for it.
pub proof fn law_answers_to_gone_connections_are_dropped<A: App>(
    before: WorkerView<A::DbState>,
    after: WorkerView<A::DbState>,
    before_out: Seq<Action>,
    after_out: Seq<Action>,
    index: int,
    date: Seq<u8>,
)
    requires
        0 <= index < before.dbs.len(),
        before.dbs[index].http_slot < before.sends.len(),
        before.sends[before.dbs[index].http_slot as int] is None,
        db_answered::<A>(before, after, before_out, after_out, index, date),
    ensures
        drained::<A>(
            WorkerView {
                dbs: before.dbs.update(index, DbView { idle: true, ..before.dbs[index] }),
                ..before
            },
            after,
            before_out,
            after_out,
        ),
{
}

/// An answer of some bytes is sent and changes nothing; an answer without bytes
/// closes the connection, where there is one.
pub proof fn law_empty_answers_close<S>(s: WorkerView<S>, slot: u32, len: usize)
    requires
        slot < s.sends.len(),
        len <= 0xffff_ffff,
    ensures
        len > 0 ==> s.answering(slot, len) == s,
        len > 0 && s.sends[slot as int] is Some ==> s.answer_actions(slot, len) == seq![
            Action::Send { slot, len: len as u32 },
        ],
        len == 0 && s.sends[slot as int] is Some ==> s.answer_actions(slot, len) == seq![
            Action::CloseSlot { slot },
        ],
        s.sends[slot as int] is None ==> s.answer_actions(slot, len).len() == 0 && s.answering(
            slot,
            len,
        ).sends == s.sends && s.answering(slot, len).pool == s.pool,
        len == 0 ==> s.answering(slot, len).sends == s.sends.update(slot as int, None),
        len == 0 && s.sends[slot as int] is Some ==> s.answering(slot, len).pool == s.pool.push(
            s.sends[slot as int]->0,
        ),
        s.answering(slot, len).files == s.files,
        s.answering(slot, len).dbs == s.dbs,
        s.answering(slot, len).queue == s.queue,
{
    assert(len == 0 ==> s.answering(slot, len).sends =~= s.sends.update(slot as int, None));
}

} // verus!
