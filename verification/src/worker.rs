//! The event handling of a worker.
//!
//! A worker owns its connections and nothing is shared. For each completion it
//! updates its state and lists the actions that are to be taken; performing
//! them is left to its caller.

use std::collections::VecDeque;

use vstd::prelude::*;

use crate::app::{App, RouteAction};
use crate::bufring::ProvidedBufRing;
use crate::bytes::ascii;
use crate::connections::{
    close_actions, close_connection, contents_of, is_open, send_actions, sends_of,
    submit_http_send, write_500, write_503, Action, Connection, INTERNAL_ERROR, SEND_BUF_SIZE,
    UNAVAILABLE,
};
use crate::date::DateCache;
use crate::dbpool::{
    dbs_of, drain_db_queue, find_idle, idle_of, lemma_first_true, start_db_op, AsyncDbConn,
    DbRequest, DbView, DB_BUF_SIZE,
};
use crate::filetable::FileTable;
use crate::state::{
    accepted_as, completed_as, db_answered, db_given_up, db_received_as, db_recv, db_sent_as,
    db_taken_on, drained, lemma_closing, lemma_db_added, lemma_db_set, lemma_drained, lemma_files_set,
    lemma_queued, lemma_replied, lemma_send_buffer_set, received_as, sent_as, zeros, WorkerView,
};
use crate::token::Token;

verus! {

/// How many file slots a worker has.
pub const FILE_TABLE_CAP: u32 = 4096;

/// How many send buffers a worker makes in advance.
pub const POOLED_SEND_BUFS: usize = 256;

/// The state of a worker.
pub struct Worker<A: App> {
    files: FileTable,
    connections: Vec<Option<Connection>>,
    db_conns: Vec<AsyncDbConn<A::DbState>>,
    db_queue: VecDeque<DbRequest>,
    send_buf_pool: Vec<Vec<u8>>,
}

impl<A: App> View for Worker<A> {
    type V = WorkerView<A::DbState>;

    closed spec fn view(&self) -> WorkerView<A::DbState> {
        WorkerView {
            files: self.files@,
            sends: sends_of(self.connections@),
            dbs: dbs_of(self.db_conns@),
            queue: self.db_queue@,
            pool: contents_of(self.send_buf_pool@),
        }
    }
}

/// What is to be done about an accepted connection.
#[derive(Debug, Clone, Copy, PartialEq, Eq, Structural)]
pub enum Accepted {
    /// Nothing was accepted.
    Nothing,
    /// There is no slot for the connection, which is to be closed.
    Refused { fd: i32 },
    /// The connection is to be registered in a slot.
    Register { slot: u32, fd: i32 },
}

/// What is left to do about a completion.
#[derive(Debug, Clone, Copy, PartialEq, Eq, Structural)]
pub enum FollowUp {
    /// Nothing.
    Nothing,
    /// What is to be done about an accepted connection.
    Accept(Accepted),
    /// The receive buffer was read and can be provided again.
    Provide { buf_id: u16 },
    /// More of a database response has arrived: whether it is complete is to
    /// be found out.
    Progress { index: u32 },
}

impl<A: App> Worker<A> {
    /// The table of slots is consistent.
    pub closed spec fn files_wf(&self) -> bool {
        self.files.wf()
    }

    /// What holds of a worker between any two events.
    pub open spec fn inv(&self) -> bool {
        self.files_wf() && self@.wf()
    }

    /// A worker without connections, with its send buffers made in advance.
    pub fn new() -> (worker: Self)
        ensures
            worker.inv(),
            worker@.owns_slots(),
            worker@.files.capacity == FILE_TABLE_CAP,
            worker@.files.capacity == 4096,
            worker@.sends.len() == 4096,
            worker@.pool.len() == 256,
            worker@.files.used == Set::<u32>::empty(),
            worker@.sends == Seq::new(FILE_TABLE_CAP as nat, |slot: int| None::<Seq<u8>>),
            worker@.dbs.len() == 0,
            worker@.queue.len() == 0,
            worker@.pool == Seq::new(
                POOLED_SEND_BUFS as nat,
                |i: int| zeros(SEND_BUF_SIZE as nat),
            ),
    {
        let mut connections: Vec<Option<Connection>> = Vec::new();
        let mut slot: u32 = 0;
        while slot < FILE_TABLE_CAP
            invariant
                slot <= FILE_TABLE_CAP,
                connections@.len() == slot,
                forall|k: int| 0 <= k < slot ==> #[trigger] connections@[k] is None,
            decreases FILE_TABLE_CAP - slot,
        {
            connections.push(None);
            slot += 1;
        }
        let mut send_buf_pool: Vec<Vec<u8>> = Vec::new();
        let mut made: usize = 0;
        while made < POOLED_SEND_BUFS
            invariant
                made <= POOLED_SEND_BUFS,
                send_buf_pool@.len() == made,
                forall|k: int|
                    0 <= k < made ==> (#[trigger] send_buf_pool@[k])@ == zeros(
                        SEND_BUF_SIZE as nat,
                    ),
            decreases POOLED_SEND_BUFS - made,
        {
            send_buf_pool.push(zeroed(SEND_BUF_SIZE));
            made += 1;
        }
        let worker = Worker {
            files: FileTable::new(FILE_TABLE_CAP),
            connections,
            db_conns: Vec::new(),
            db_queue: VecDeque::new(),
            send_buf_pool,
        };
        proof {
            assert(worker@.sends =~= Seq::new(
                FILE_TABLE_CAP as nat,
                |slot: int| None::<Seq<u8>>,
            ));
            assert(worker@.pool =~= Seq::new(
                POOLED_SEND_BUFS as nat,
                |i: int| zeros(SEND_BUF_SIZE as nat),
            ));
        }
        worker
    }

    /// Takes a slot into use for a database connection; `None` where all are
    /// in use.
    pub fn admit_db(&mut self) -> (slot: Option<u32>)
        requires
            old(self).inv(),
        ensures
            final(self).inv(),
            old(self)@.owns_slots() ==> final(self)@.owns_slots(),
            match slot {
                Some(s) => {
                    &&& old(self)@.owns_slots() ==> final(self)@.is_unowned(s)
                    &&& old(self)@.is_free(s)
                    &&& final(self)@ == old(self)@.taking(s)
                },
                None => old(self)@.is_full() && final(self)@ == old(self)@,
            },
    {
        let slot = self.files.acquire();
        proof {
            lemma_files_set(old(self)@, self@.files);
        }
        slot
    }

    /// Adds the database connection in a slot that was registered for it; where
    /// that failed, gives the slot back. Connections are added while no request
    /// waits for one.
    pub fn db_registered(&mut self, slot: u32, ok: bool)
        requires
            old(self).inv(),
            old(self)@.queue.len() == 0,
            old(self)@.dbs.len() < u32::MAX,
        ensures
            final(self).inv(),
            old(self)@.owns_slots() && old(self)@.is_unowned(slot) && old(
                self,
            )@.files.used.contains(slot) ==> final(self)@.owns_slots(),
            !ok ==> final(self)@ == old(self)@.freeing(slot),
            ok ==> exists|state: A::DbState| #[trigger]
                call_ensures(<A::DbState as Default>::default, (), state) && final(self)@ == (
                WorkerView {
                    dbs: old(self)@.dbs.push(
                        DbView {
                            slot,
                            wbuf: Seq::empty(),
                            rbuf: zeros(DB_BUF_SIZE as nat),
                            rpos: 0,
                            idle: true,
                            http_slot: 0,
                            state,
                        },
                    ),
                    ..old(self)@
                }),
    {
        if !ok {
            self.files.release(slot);
            proof {
                lemma_files_set(old(self)@, self@.files);
            }
            return ;
        }
        let state: A::DbState = Default::default();
        let conn = AsyncDbConn {
            slot,
            wbuf: Vec::with_capacity(DB_BUF_SIZE),
            rbuf: zeroed(DB_BUF_SIZE),
            rpos: 0,
            idle: true,
            http_slot: 0,
            state,
        };
        let ghost added = conn@;
        self.db_conns.push(conn);
        proof {
            assert(self@.dbs =~= old(self)@.dbs.push(added));
            lemma_db_added(old(self)@, added);
            assert(added == DbView {
                slot,
                wbuf: Seq::empty(),
                rbuf: zeros(DB_BUF_SIZE as nat),
                rpos: 0,
                idle: true,
                http_slot: 0,
                state,
            });
        }
    }

    /// Finds a slot for an accepted connection. A negative result is an error:
    /// nothing was accepted.
    pub fn accepted(&mut self, result: i32) -> (accepted: Accepted)
        requires
            old(self).inv(),
        ensures
            final(self).inv(),
            old(self)@.owns_slots() ==> final(self)@.owns_slots(),
            accepted_as(old(self)@, final(self)@, result, accepted),
            accepted matches Accepted::Register { slot, .. } ==> old(self)@.owns_slots()
                ==> final(self)@.is_unowned(slot),
    {
        if result < 0 {
            return Accepted::Nothing;
        }
        let slot = self.files.acquire();
        proof {
            lemma_files_set(old(self)@, self@.files);
        }
        match slot {
            Some(slot) => Accepted::Register { slot, fd: result },
            None => Accepted::Refused { fd: result },
        }
    }

    /// Opens the accepted connection in a slot that was registered for it and
    /// asks for its first request; where registering failed, gives the slot
    /// back. Either way the descriptor is closed: the slot holds the file.
    pub fn accept_registered(&mut self, slot: u32, fd: i32, ok: bool, out: &mut Vec<Action>)
        requires
            old(self).inv(),
            slot < old(self)@.sends.len(),
        ensures
            final(self).inv(),
            old(self)@.owns_slots() && old(self)@.is_unowned(slot) && old(
                self,
            )@.files.used.contains(slot) ==> final(self)@.owns_slots(),
            !ok ==> final(self)@ == old(self)@.freeing(slot) && final(out)@ == old(out)@.push(Action::CloseFd { fd }),
            ok ==> final(self)@ == (if old(self)@.pool.len() > 0 {
                WorkerView {
                    sends: old(self)@.sends.update(slot as int, Some(old(self)@.pool.last())),
                    pool: old(self)@.pool.drop_last(),
                    ..old(self)@
                }
            } else {
                WorkerView {
                    sends: old(self)@.sends.update(
                        slot as int,
                        Some(zeros(SEND_BUF_SIZE as nat)),
                    ),
                    ..old(self)@
                }
            }) && final(out)@ == old(out)@.push(Action::CloseFd { fd }).push(Action::Recv { slot }),
    {
        out.push(Action::CloseFd { fd });
        if !ok {
            self.files.release(slot);
            proof {
                lemma_files_set(old(self)@, self@.files);
            }
            return ;
        }
        let send_buf = match self.send_buf_pool.pop() {
            Some(buf) => buf,
            None => zeroed(SEND_BUF_SIZE),
        };
        let ghost buf = send_buf@;
        proof {
            lemma_send_buffer_set(old(self)@, slot, buf);
        }
        self.connections[slot as usize] = Some(Connection { send_buf });
        out.push(Action::Recv { slot });
        proof {
            assert(self@.sends =~= old(self)@.sends.update(slot as int, Some(buf)));
            if old(self)@.pool.len() > 0 {
                assert(self@.pool =~= old(self)@.pool.drop_last());
                assert(buf == old(self)@.pool.last());
            } else {
                assert(self@.pool =~= old(self)@.pool);
            }
        }
    }

    /// Closes the HTTP connection in a slot.
    pub fn close(&mut self, slot: u32, out: &mut Vec<Action>)
        requires
            old(self).inv(),
        ensures
            final(self).inv(),
            old(self)@.owns_slots() ==> final(self)@.owns_slots(),
            final(self)@ == old(self)@.closing(slot),
            final(out)@ == old(out)@ + close_actions(old(self)@.sends, slot),
    {
        proof {
            lemma_closing(self@, slot);
        }
        close_connection(&mut self.connections, slot, out, &mut self.send_buf_pool);
    }

    /// Sends what the application wrote to the send buffer of a slot; where it
    /// wrote nothing, closes the connection.
    pub fn answer_fast(&mut self, slot: u32, resp_len: usize, out: &mut Vec<Action>)
        requires
            old(self).inv(),
            slot < old(self)@.sends.len(),
        ensures
            final(self).inv(),
            old(self)@.owns_slots() ==> final(self)@.owns_slots(),
            final(self)@ == old(self)@.answering(slot, resp_len),
            final(out)@ == old(out)@ + old(self)@.answer_actions(slot, resp_len),
            old(self)@.sends[slot as int] is Some && 0 < resp_len <= 0xffff_ffff ==> {
                &&& final(self)@ == old(self)@
                &&& final(out)@.len() == old(out)@.len() + 1
                &&& final(out)@.take(old(out)@.len() as int) == old(out)@
                &&& final(out)@.last() matches Action::Send { slot: s, len } && s == slot
                    && len as int == resp_len
            },
    {
        if resp_len > 0 {
            submit_http_send(slot, &self.connections, resp_len, out);
        } else {
            self.close(slot, out);
        }
    }

    /// Takes on a request for the database.
    pub fn take_on_db(&mut self, request: DbRequest, out: &mut Vec<Action>)
        requires
            old(self).inv(),
            request.http_slot < old(self)@.sends.len(),
        ensures
            final(self).inv(),
            old(self)@.owns_slots() ==> final(self)@.owns_slots(),
            db_taken_on::<A>(old(self)@, final(self)@, old(out)@, final(out)@, request),
    {
        let slot: u32 = request.http_slot;
        if self.db_conns.is_empty() {
            proof {
                reveal_strlit("HTTP/1.1 503 Service Unavailable\r\nServer: V\r\nContent-Length: 0\r\n\r\n");
                lemma_replied(self@, slot, ascii(UNAVAILABLE@));
                assert(sends_of(self.connections@).len() == self.connections@.len());
            }
            let resp_len: usize = write_503(&mut self.connections, slot as usize);
            assert(sends_of(self.connections@).len() == self.connections@.len());
            if resp_len > 0 {
                submit_http_send(slot, &self.connections, resp_len, out);
            }
            assert(out@ =~= old(out)@ + send_actions(
                old(self)@.sends,
                slot,
                ascii(UNAVAILABLE@).len() as usize,
            ));
        } else {
            match find_idle(&self.db_conns) {
                Some(db_idx) => {
                    proof {
                        lemma_first_true(idle_of(self@.dbs), 0);
                    }
                    start_db_op::<A>(&mut self.db_conns[db_idx], db_idx as u32, request, out);
                    assert(self@.dbs =~= old(self)@.dbs.update(
                        db_idx as int,
                        self@.dbs[db_idx as int],
                    ));
                    proof {
                        assert(old(self)@.dbs[db_idx as int].rbuf.len() == DB_BUF_SIZE);
                        lemma_db_set(old(self)@, db_idx as int, self@.dbs[db_idx as int]);
                    }
                },
                None => {
                    proof {
                        lemma_first_true(idle_of(self@.dbs), 0);
                        assert forall|i: int| 0 <= i < self@.dbs.len() implies !(
                        #[trigger] self@.dbs[i]).idle by {
                            assert(!idle_of(self@.dbs)[i]);
                        }
                        lemma_queued(self@, request);
                    }
                    self.db_queue.push_back(request);
                },
            }
        }
    }

    /// Handles the completion of a receive. A result that is not positive is
    /// an error or the end of the stream, which closes the connection. A
    /// positive one is the length of the request in the ring's buffer
    /// `buf_id`, which is answered as the application says; the buffer then
    /// goes back to the ring.
    pub fn received(
        &mut self,
        slot: u32,
        result: i32,
        buf_id: Option<u16>,
        ring: &mut ProvidedBufRing,
        date: &DateCache,
        out: &mut Vec<Action>,
    )
        requires
            old(self).inv(),
            result > 0 ==> {
                &&& slot < old(self)@.sends.len()
                &&& old(ring).wf()
                &&& buf_id is Some
                &&& buf_id->0 < old(ring)@.buffers.len()
                &&& result <= old(ring)@.buf_size
            },
        ensures
            final(self).inv(),
            old(self)@.owns_slots() ==> final(self)@.owns_slots(),
            old(ring).wf() ==> final(ring).wf(),
            received_as::<A>(
                old(self)@,
                final(self)@,
                old(ring)@,
                final(ring)@,
                old(out)@,
                final(out)@,
                slot,
                result,
                buf_id,
                date@,
            ),
    {
        if result <= 0 {
            self.close(slot, out);
            return ;
        }
        let id: u16 = buf_id.unwrap();
        let recv_data: &[u8] = ring.get_buf(id, result as usize);
        let ghost data = recv_data@;
        let action = A::classify(recv_data);
        match action {
            RouteAction::Fast(route) => {
                let ghost before = self@;
                assert(before.sends.len() == self.connections@.len());
                let resp_len: usize = if let Some(conn) = &mut self.connections[slot as usize] {
                    let (_, len) = A::handle_fast(
                        route,
                        recv_data,
                        conn.send_buf.as_mut_slice(),
                        date,
                    );
                    len
                } else {
                    0
                };
                proof {
                    if is_open(before.sends, slot as int) {
                        let sent = self@.sends[slot as int]->0;
                        assert(self@.sends =~= before.sends.update(slot as int, Some(sent)));
                        assert(before.sends[slot as int]->0.len() == SEND_BUF_SIZE);
                        lemma_send_buffer_set(before, slot, sent);
                    } else {
                        assert(self@.sends =~= before.sends);
                    }
                }
                ring.return_buf(id);
                self.answer_fast(slot, resp_len, out);
                proof {
                    if !is_open(before.sends, slot as int) {
                        assert(out@ =~= old(out)@);
                    }
                }
            },
            RouteAction::Db { id: route_id, queries } => {
                ring.return_buf(id);
                self.take_on_db(DbRequest { http_slot: slot, route_id, queries }, out);
            },
            RouteAction::NotFound => {
                ring.return_buf(id);
                self.close(slot, out);
            },
        }
        assert(A::classifies(data, action));
    }

    /// Handles the completion of a send: after an error the connection is
    /// closed, else its next request is asked for.
    pub fn sent(&mut self, slot: u32, result: i32, out: &mut Vec<Action>)
        requires
            old(self).inv(),
            result >= 0 ==> slot < old(self)@.sends.len(),
        ensures
            final(self).inv(),
            old(self)@.owns_slots() ==> final(self)@.owns_slots(),
            sent_as(old(self)@, final(self)@, old(out)@, final(out)@, slot, result),
    {
        if result < 0 {
            self.close(slot, out);
        } else if self.connections[slot as usize].is_some() {
            out.push(Action::Recv { slot });
        }
    }

    /// Handles the completion of a close: the slot can be handed out again.
    pub fn closed(&mut self, slot: u32)
        requires
            old(self).inv(),
        ensures
            final(self).inv(),
            old(self)@.owns_slots() && old(self)@.is_unowned(slot) ==> final(self)@.owns_slots(),
            final(self)@ == old(self)@.freeing(slot),
    {
        self.files.release(slot);
        proof {
            lemma_files_set(old(self)@, self@.files);
        }
    }

    /// Starts waiting requests for as long as there is an idle connection.
    fn drain(&mut self, out: &mut Vec<Action>)
        requires
            old(self).files_wf(),
            old(self)@.buffers_wf(),
        ensures
            final(self).inv(),
            old(self)@.owns_slots() ==> final(self)@.owns_slots(),
            drained::<A>(old(self)@, final(self)@, old(out)@, final(out)@),
    {
        assert(self@.sends.len() == self.connections@.len());
        assert forall|k: int| 0 <= k < self.db_queue@.len() implies (
        #[trigger] self.db_queue@[k]).http_slot < self.connections@.len() by {
            assert(self@.queue[k].http_slot < self@.sends.len());
        }
        drain_db_queue::<A>(&mut self.db_queue, &mut self.db_conns, &self.connections, out);
        proof {
            lemma_drained::<A>(old(self)@, self@, old(out)@, out@);
        }
    }

    /// Gives up the operation on a database connection.
    fn give_up(&mut self, index: u32, out: &mut Vec<Action>)
        requires
            old(self).inv(),
            index < old(self)@.dbs.len(),
        ensures
            final(self).inv(),
            old(self)@.owns_slots() ==> final(self)@.owns_slots(),
            db_given_up::<A>(old(self)@, final(self)@, old(out)@, final(out)@, index as int),
    {
        let ghost before = self@;
        proof {
            reveal_strlit("HTTP/1.1 500 Internal Server Error\r\nServer: V\r\nContent-Length: 0\r\n\r\n");
            lemma_db_set(before, index as int, DbView { idle: true, ..before.dbs[index as int] });
            assert(before.sends.len() == self.connections@.len());
        }
        let hs: u32 = self.db_conns[index as usize].http_slot;
        self.db_conns[index as usize].idle = true;
        proof {
            assert(self@.dbs =~= before.dbs.update(
                index as int,
                DbView { idle: true, ..before.dbs[index as int] },
            ));
            lemma_replied(self@, hs, ascii(INTERNAL_ERROR@));
        }
        let resp_len: usize = write_500(&mut self.connections, hs as usize);
        assert(self@.sends.len() == self.connections@.len());
        if resp_len > 0 {
            submit_http_send(hs, &self.connections, resp_len, out);
        }
        assert(out@ =~= old(out)@ + send_actions(
            before.sends,
            hs,
            ascii(INTERNAL_ERROR@).len() as usize,
        ));
        self.drain(out);
    }

    /// Handles the completion of a send on a database connection: after an
    /// error its operation is given up, else its response is asked for.
    pub fn db_sent(&mut self, index: u32, result: i32, out: &mut Vec<Action>)
        requires
            old(self).inv(),
            index < old(self)@.dbs.len(),
        ensures
            final(self).inv(),
            old(self)@.owns_slots() ==> final(self)@.owns_slots(),
            db_sent_as::<A>(old(self)@, final(self)@, old(out)@, final(out)@, index, result),
    {
        if result < 0 {
            self.give_up(index, out);
        } else {
            self.ask_for_response(index, out);
        }
    }

    /// Asks for what is still missing of a database response.
    fn ask_for_response(&self, index: u32, out: &mut Vec<Action>)
        requires
            self.inv(),
            index < self@.dbs.len(),
        ensures
            final(out)@ == old(out)@.push(db_recv(index as int, self@.dbs[index as int])),
    {
        assert(self@.dbs[index as int].rpos <= DB_BUF_SIZE);
        let db = &self.db_conns[index as usize];
        out.push(
            Action::DbRecv {
                index,
                slot: db.slot,
                offset: db.rpos,
                len: (db.rbuf.len() - db.rpos) as u32,
            },
        );
    }

    /// Handles the completion of a receive on a database connection. A result
    /// that is not positive is an error or the end of the stream, which gives
    /// up its operation. A positive one is the number of bytes that arrived;
    /// then `true` is returned, and whether the response is complete is for
    /// `db_progress` to act on.
    pub fn db_received(&mut self, index: u32, result: i32, out: &mut Vec<Action>) -> (arrived: bool)
        requires
            old(self).inv(),
            index < old(self)@.dbs.len(),
            old(self)@.dbs[index as int].rpos + result <= DB_BUF_SIZE,
        ensures
            final(self).inv(),
            old(self)@.owns_slots() ==> final(self)@.owns_slots(),
            arrived == (result > 0),
            db_received_as::<A>(old(self)@, final(self)@, old(out)@, final(out)@, index, result),
    {
        if result <= 0 {
            self.give_up(index, out);
            return false;
        }
        let ghost before = self@;
        let rpos: usize = self.db_conns[index as usize].rpos + result as usize;
        self.db_conns[index as usize].rpos = rpos;
        proof {
            let next = DbView { rpos, ..before.dbs[index as int] };
            assert(self@.dbs =~= before.dbs.update(index as int, next));
            lemma_db_set(before, index as int, next);
        }
        true
    }

    /// Goes on with a database operation of whose response more has arrived.
    /// Where the response is not complete, the rest is asked for. Where it is,
    /// the application answers.
    pub fn db_progress(
        &mut self,
        index: u32,
        complete: bool,
        date: &DateCache,
        body: &mut [u8],
        out: &mut Vec<Action>,
    )
        requires
            old(self).inv(),
            index < old(self)@.dbs.len(),
        ensures
            final(self).inv(),
            old(self)@.owns_slots() ==> final(self)@.owns_slots(),
            !complete ==> final(self)@ == old(self)@ && final(out)@ == old(out)@.push(
                db_recv(index as int, old(self)@.dbs[index as int]),
            ),
            complete ==> db_answered::<A>(
                old(self)@,
                final(self)@,
                old(out)@,
                final(out)@,
                index as int,
                date@,
            ),
    {
        if !complete {
            self.ask_for_response(index, out);
            return ;
        }
        let ghost before = self@;
        let ghost db = before.dbs[index as int];
        assert(before.sends.len() == self.connections@.len());
        assert(db.http_slot < before.sends.len());
        let hs: u32 = self.db_conns[index as usize].http_slot;
        let conn = &mut self.db_conns[index as usize];
        let resp_len: usize = if let Some(http) = &mut self.connections[hs as usize] {
            A::db_finish(
                &mut conn.state,
                conn.rbuf.as_slice(),
                conn.rpos,
                http.send_buf.as_mut_slice(),
                date,
                body,
            )
        } else {
            0
        };
        conn.idle = true;
        let ghost state = self@.dbs[index as int].state;
        let ghost next = DbView { idle: true, state, ..db };
        proof {
            assert(self@.dbs =~= before.dbs.update(index as int, next));
            lemma_db_set(before, index as int, next);
            let mid = WorkerView { dbs: before.dbs.update(index as int, next), ..before };
            if is_open(before.sends, hs as int) {
                let sent = self@.sends[hs as int]->0;
                assert(self@.sends =~= before.sends.update(hs as int, Some(sent)));
                assert(before.sends[hs as int]->0.len() == SEND_BUF_SIZE);
                lemma_send_buffer_set(mid, hs, sent);
            } else {
                assert(self@.sends =~= before.sends);
            }
        }
        if resp_len > 0 {
            submit_http_send(hs, &self.connections, resp_len, out);
        }
        self.drain(out);
    }

    /// Whether a completion can belong to the operation that its user data
    /// stands for.
    pub fn expects(
        &self,
        user_data: u64,
        result: i32,
        buf_id: Option<u16>,
        ring: &ProvidedBufRing,
    ) -> (yes: bool)
        requires
            self.inv(),
        ensures
            yes == self@.expects(Token::of(user_data), result, buf_id, ring@),
    {
        match Token::decode(user_data) {
            Some(Token::Recv(slot)) => result <= 0 || ((slot as usize) < self.connections.len()
                && match buf_id {
                Some(id) => id < ring.buf_count() && result as u32 <= ring.buf_size(),
                None => false,
            }),
            Some(Token::Send(slot)) => result < 0 || (slot as usize) < self.connections.len(),
            Some(Token::DbSend(index)) => (index as usize) < self.db_conns.len(),
            Some(Token::DbRecv(index)) => {
                if (index as usize) < self.db_conns.len() {
                    assert(self@.dbs[index as int].rpos <= DB_BUF_SIZE);
                    let rpos: usize = self.db_conns[index as usize].rpos;
                    result <= 0 || result as usize <= DB_BUF_SIZE - rpos
                } else {
                    false
                }
            },
            _ => true,
        }
    }

    /// Handles a completion: its user data tells which operation it belongs
    /// to. Returns what is left to do about it.
    pub fn completed(
        &mut self,
        user_data: u64,
        result: i32,
        buf_id: Option<u16>,
        ring: &mut ProvidedBufRing,
        date: &DateCache,
        out: &mut Vec<Action>,
    ) -> (next: FollowUp)
        requires
            old(self).inv(),
            old(ring).wf(),
            old(self)@.expects(Token::of(user_data), result, buf_id, old(ring)@),
        ensures
            final(self).inv(),
            final(ring).wf(),
            old(self)@.owns_slots() && (Token::of(user_data) matches Some(Token::Close(slot))
                ==> old(self)@.is_unowned(slot)) ==> final(self)@.owns_slots(),
            completed_as::<A>(
                Token::of(user_data),
                old(self)@,
                final(self)@,
                old(ring)@,
                final(ring)@,
                old(out)@,
                final(out)@,
                result,
                buf_id,
                date@,
                next,
            ),
    {
        match Token::decode(user_data) {
            Some(Token::Accept) => FollowUp::Accept(self.accepted(result)),
            Some(Token::Recv(slot)) => {
                self.received(slot, result, buf_id, ring, date, out);
                match buf_id {
                    Some(id) if result > 0 => FollowUp::Provide { buf_id: id },
                    _ => FollowUp::Nothing,
                }
            },
            Some(Token::Send(slot)) => {
                self.sent(slot, result, out);
                FollowUp::Nothing
            },
            Some(Token::Close(slot)) => {
                self.closed(slot);
                FollowUp::Nothing
            },
            Some(Token::DbSend(index)) => {
                self.db_sent(index, result, out);
                FollowUp::Nothing
            },
            Some(Token::DbRecv(index)) => if self.db_received(index, result, out) {
                FollowUp::Progress { index }
            } else {
                FollowUp::Nothing
            },
            None => FollowUp::Nothing,
        }
    }

    /// Whether a database connection more is to be opened, of as many as are
    /// wanted; after a failure none is.
    pub fn wants_db(&self, wanted: usize, failed: bool) -> (more: bool)
        ensures
            more == (!failed && self@.dbs.len() < wanted),
    {
        !failed && self.db_conns.len() < wanted
    }

    /// The send buffer of the HTTP connection in a slot, from whose front the
    /// bytes of a send are taken; `None` where there is no open connection.
    pub fn send_data(&self, slot: u32) -> (data: Option<&[u8]>)
        ensures
            match data {
                Some(d) => is_open(self@.sends, slot as int) && self@.sends[slot as int] == Some(
                    d@,
                ),
                None => !is_open(self@.sends, slot as int),
            },
    {
        if (slot as usize) < self.connections.len() {
            match &self.connections[slot as usize] {
                Some(conn) => Some(conn.send_buf.as_slice()),
                None => None,
            }
        } else {
            None
        }
    }

    /// The number of database connections.
    pub fn db_count(&self) -> (count: usize)
        ensures
            count == self@.dbs.len(),
    {
        self.db_conns.len()
    }

    /// The messages of a database connection.
    pub fn db_message(&self, index: u32) -> (message: &[u8])
        requires
            index < self@.dbs.len(),
        ensures
            message@ == self@.dbs[index as int].wbuf,
    {
        self.db_conns[index as usize].wbuf.as_slice()
    }

    /// What has arrived of a database response.
    pub fn db_data(&self, index: u32) -> (data: &[u8])
        requires
            self.inv(),
            index < self@.dbs.len(),
        ensures
            data@ == self@.dbs[index as int].rbuf.take(self@.dbs[index as int].rpos as int),
    {
        assert(self@.dbs[index as int].rpos <= DB_BUF_SIZE);
        let db = &self.db_conns[index as usize];
        let data: &[u8] = &db.rbuf[0..db.rpos];
        assert(data@ =~= self@.dbs[index as int].rbuf.take(db.rpos as int));
        data
    }

    /// The space for what is still missing of a database response.
    pub fn db_space(&mut self, index: u32) -> (space: &mut [u8])
        requires
            old(self).inv(),
            index < old(self)@.dbs.len(),
        ensures
            ({
                let db = old(self)@.dbs[index as int];
                &&& space@ == db.rbuf.skip(db.rpos as int)
                &&& final(space)@.len() == space@.len() ==> final(self).inv() && final(self)@ == (
                WorkerView {
                    dbs: old(self)@.dbs.update(
                        index as int,
                        DbView { rbuf: db.rbuf.take(db.rpos as int) + final(space)@, ..db },
                    ),
                    ..old(self)@
                })
            }),
    {
        let ghost before = self@;
        let ghost db = before.dbs[index as int];
        assert(db.rpos <= DB_BUF_SIZE && db.rbuf.len() == DB_BUF_SIZE);
        let ghost conns = self.db_conns@;
        let ghost arrived = db.rbuf.take(db.rpos as int);
        assert forall|c: AsyncDbConn<A::DbState>| #[trigger]
            dbs_of(conns.update(index as int, c)) == before.dbs.update(index as int, c@) by {
            assert(dbs_of(conns.update(index as int, c)) =~= before.dbs.update(index as int, c@));
        }
        assert forall|filled: Seq<u8>|
            filled.len() == db.rbuf.len() - db.rpos implies (WorkerView {
            dbs: before.dbs.update(
                index as int,
                DbView { rbuf: #[trigger] (arrived + filled), ..db },
            ),
            ..before
        }).wf() by {
            lemma_db_set(before, index as int, DbView { rbuf: arrived + filled, ..db });
        }
        let conn = &mut self.db_conns[index as usize];
        let rpos: usize = conn.rpos;
        let (front, space) = conn.rbuf.as_mut_slice().split_at_mut(rpos);
        assert(front@ =~= arrived);
        assert(space@ =~= db.rbuf.skip(db.rpos as int));
        space
    }
}

/// A buffer of `len` zero bytes.
fn zeroed(len: usize) -> (buf: Vec<u8>)
    ensures
        buf@ == zeros(len as nat),
{
    let mut buf: Vec<u8> = Vec::new();
    buf.resize(len, 0);
    assert(buf@ =~= zeros(len as nat));
    buf
}

} // verus!
