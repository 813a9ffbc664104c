//! The database connections of a worker and the requests that wait for one.

use std::collections::VecDeque;

use vstd::prelude::*;

use crate::app::App;
use crate::connections::{is_open, sends_of, Action, Connection};

verus! {

/// How many bytes of a database response a connection can hold.
pub const DB_BUF_SIZE: usize = 32768;

/// A database connection. At most one operation is under way on it.
pub struct AsyncDbConn<S> {
    /// The file slot of the connection.
    pub slot: u32,
    /// The messages to be sent.
    pub wbuf: Vec<u8>,
    /// The response that has arrived so far.
    pub rbuf: Vec<u8>,
    /// How much of the response has arrived.
    pub rpos: usize,
    /// Whether no operation is under way.
    pub idle: bool,
    /// The HTTP connection that the operation is for.
    pub http_slot: u32,
    /// What the application keeps for the connection.
    pub state: S,
}

/// A request that waits for a database connection.
#[derive(Debug, Clone, Copy, PartialEq, Eq, Structural)]
pub struct DbRequest {
    pub http_slot: u32,
    pub route_id: u8,
    pub queries: i32,
}

/// What a database connection holds.
#[verifier::reject_recursive_types(S)]
pub struct DbView<S> {
    pub slot: u32,
    pub wbuf: Seq<u8>,
    pub rbuf: Seq<u8>,
    pub rpos: usize,
    pub idle: bool,
    pub http_slot: u32,
    pub state: S,
}

impl<S> View for AsyncDbConn<S> {
    type V = DbView<S>;

    open spec fn view(&self) -> DbView<S> {
        DbView {
            slot: self.slot,
            wbuf: self.wbuf@,
            rbuf: self.rbuf@,
            rpos: self.rpos,
            idle: self.idle,
            http_slot: self.http_slot,
            state: self.state,
        }
    }
}

/// What a list of database connections holds.
pub open spec fn dbs_of<S>(conns: Seq<AsyncDbConn<S>>) -> Seq<DbView<S>> {
    Seq::new(conns.len(), |i: int| conns[i]@)
}

/// The send of a connection's messages. Its length is a 32-bit number.
pub open spec fn db_send<S>(index: int, db: DbView<S>) -> Action {
    Action::DbSend { index: index as u32, slot: db.slot, len: db.wbuf.len() as u32 }
}

/// Whether `after` is the connection `before` when an operation for a request
/// was started on it: the operation is under way, nothing of its response has
/// arrived, and the application was given an empty buffer to write to.
pub open spec fn started<A: App>(
    before: DbView<A::DbState>,
    after: DbView<A::DbState>,
    request: DbRequest,
) -> bool {
    &&& after.slot == before.slot
    &&& after.rbuf == before.rbuf
    &&& after.rpos == 0
    &&& !after.idle
    &&& after.http_slot == request.http_slot
    &&& A::starts_db(request.route_id, request.queries, after.wbuf, before.state, after.state)
}

/// Starts a database operation for a request: has the application write its
/// messages and asks for them to be sent.
pub fn start_db_op<A: App>(
    db: &mut AsyncDbConn<A::DbState>,
    db_idx: u32,
    request: DbRequest,
    out: &mut Vec<Action>,
)
    ensures
        started::<A>(old(db)@, final(db)@, request),
        final(out)@ == old(out)@.push(db_send(db_idx as int, final(db)@)),
{
    db.idle = false;
    db.http_slot = request.http_slot;
    db.rpos = 0;
    db.wbuf.clear();
    A::db_start(request.route_id, request.queries, &mut db.wbuf, &mut db.state);
    out.push(Action::DbSend { index: db_idx, slot: db.slot, len: db.wbuf.len() as u32 });
}

/// The least index at or after `from` that holds `true`, or the length.
pub open spec fn first_true(flags: Seq<bool>, from: int) -> int
    decreases flags.len() - from,
{
    if from >= flags.len() {
        flags.len() as int
    } else if flags[from] {
        from
    } else {
        first_true(flags, from + 1)
    }
}

pub(crate) proof fn lemma_first_true(flags: Seq<bool>, from: int)
    requires
        0 <= from <= flags.len(),
    ensures
        from <= first_true(flags, from) <= flags.len(),
        first_true(flags, from) < flags.len() ==> flags[first_true(flags, from)],
        forall|i: int| from <= i < first_true(flags, from) ==> !flags[i],
    decreases flags.len() - from,
{
    if from < flags.len() && !flags[from] {
        lemma_first_true(flags, from + 1);
    }
}

/// Which connections have no operation under way.
pub open spec fn idle_of<S>(dbs: Seq<DbView<S>>) -> Seq<bool> {
    Seq::new(dbs.len(), |i: int| dbs[i].idle)
}

/// Finds the first connection that has no operation under way.
pub fn find_idle<S>(db_conns: &Vec<AsyncDbConn<S>>) -> (found: Option<usize>)
    ensures
        match found {
            Some(i) => i < db_conns@.len() && i == first_true(idle_of(dbs_of(db_conns@)), 0),
            None => first_true(idle_of(dbs_of(db_conns@)), 0) == db_conns@.len(),
        },
{
    let mut i: usize = 0;
    while i < db_conns.len()
        invariant
            i <= db_conns@.len(),
            first_true(idle_of(dbs_of(db_conns@)), 0) == first_true(
                idle_of(dbs_of(db_conns@)),
                i as int,
            ),
        decreases db_conns@.len() - i,
    {
        if db_conns[i].idle {
            return Some(i);
        }
        i += 1;
    }
    None
}

/// Which waiting requests are started on which connections, and how many
/// leave the queue. As long as there is an idle connection, the request at the
/// front of the queue leaves it; where its HTTP connection is still open, it is
/// started on the first idle connection.
pub open spec fn assign(idle: Seq<bool>, queue: Seq<DbRequest>, sends: Seq<Option<Seq<u8>>>) -> (
    Seq<(int, DbRequest)>,
    int,
)
    decreases queue.len(),
{
    let i = first_true(idle, 0);
    if queue.len() == 0 || i >= idle.len() {
        (Seq::empty(), 0)
    } else if is_open(sends, queue[0].http_slot as int) {
        let (starts, taken) = assign(idle.update(i, false), queue.drop_first(), sends);
        (seq![(i, queue[0])] + starts, taken + 1)
    } else {
        let (starts, taken) = assign(idle, queue.drop_first(), sends);
        (starts, taken + 1)
    }
}

/// Whether the connections went from `before` to `after` by starting exactly
/// the operations in `starts`.
pub open spec fn all_started<A: App>(
    before: Seq<DbView<A::DbState>>,
    after: Seq<DbView<A::DbState>>,
    starts: Seq<(int, DbRequest)>,
) -> bool {
    &&& after.len() == before.len()
    &&& forall|k: int|
        0 <= k < starts.len() ==> started::<A>(
            before[(#[trigger] starts[k]).0],
            after[starts[k].0],
            starts[k].1,
        )
    &&& forall|i: int|
        0 <= i < before.len() && (forall|k: int|
            0 <= k < starts.len() ==> (#[trigger] starts[k]).0 != i) ==> #[trigger] after[i]
            == before[i]
}

/// The sends of the operations in `starts`.
pub open spec fn start_actions<S>(
    dbs: Seq<DbView<S>>,
    starts: Seq<(int, DbRequest)>,
) -> Seq<Action> {
    Seq::new(starts.len(), |k: int| db_send(starts[k].0, dbs[starts[k].0]))
}

/// Starts waiting requests for as long as there is an idle connection.
/// Requests whose HTTP connection is gone are dropped.
pub fn drain_db_queue<A: App>(
    queue: &mut VecDeque<DbRequest>,
    db_conns: &mut Vec<AsyncDbConn<A::DbState>>,
    connections: &Vec<Option<Connection>>,
    out: &mut Vec<Action>,
)
    requires
        old(db_conns)@.len() <= u32::MAX,
        forall|k: int|
            0 <= k < old(queue)@.len() ==> (#[trigger] old(queue)@[k]).http_slot
                < connections@.len(),
    ensures
        ({
            let (starts, taken) = assign(
                idle_of(dbs_of(old(db_conns)@)),
                old(queue)@,
                sends_of(connections@),
            );
            &&& final(queue)@ == old(queue)@.skip(taken)
            &&& all_started::<A>(dbs_of(old(db_conns)@), dbs_of(final(db_conns)@), starts)
            &&& final(out)@ == old(out)@ + start_actions(dbs_of(final(db_conns)@), starts)
        }),
{
    let ghost before = dbs_of(db_conns@);
    let ghost waiting = queue@;
    let ghost sends = sends_of(connections@);
    let ghost all = assign(idle_of(before), waiting, sends);
    let ghost mut done: Seq<(int, DbRequest)> = Seq::empty();
    let ghost mut gone: int = 0;
    assert(all.0 =~= done + all.0);
    assert(waiting.skip(0) =~= waiting);
    assert(out@ =~= old(out)@ + start_actions(before, done));
    loop
        invariant
            db_conns@.len() <= u32::MAX,
            db_conns@.len() == before.len(),
            sends == sends_of(connections@),
            0 <= gone <= waiting.len(),
            queue@ == waiting.skip(gone),
            forall|k: int|
                0 <= k < waiting.len() ==> (#[trigger] waiting[k]).http_slot < connections@.len(),
            all == assign(idle_of(before), waiting, sends),
            all.0 == done + assign(idle_of(dbs_of(db_conns@)), queue@, sends).0,
            all.1 == gone + assign(idle_of(dbs_of(db_conns@)), queue@, sends).1,
            forall|k: int|
                0 <= k < done.len() ==> 0 <= (#[trigger] done[k]).0 < before.len()
                    && !dbs_of(db_conns@)[done[k].0].idle,
            all_started::<A>(before, dbs_of(db_conns@), done),
            out@ == old(out)@ + start_actions(dbs_of(db_conns@), done),
        ensures
            all.0 == done,
            all.1 == gone,
        decreases queue@.len(),
    {
        let ghost now = dbs_of(db_conns@);
        proof {
            lemma_first_true(idle_of(now), 0);
        }
        match find_idle(db_conns) {
            Some(db_idx) => {
                match queue.pop_front() {
                    Some(req) => {
                        proof {
                            assert(req == waiting[gone]);
                            assert(waiting.skip(gone).drop_first() =~= waiting.skip(gone + 1));
                        }
                        if connections[req.http_slot as usize].is_some() {
                            assert(is_open(sends, req.http_slot as int));
                            start_db_op::<A>(&mut db_conns[db_idx], db_idx as u32, req, out);
                            proof {
                                let next = dbs_of(db_conns@);
                                let step = (db_idx as int, req);
                                assert(idle_of(next) =~= idle_of(now).update(db_idx as int, false));
                                lemma_started_more::<A>(before, now, next, done, step);
                                assert(all.0 =~= done.push(step) + assign(
                                    idle_of(next),
                                    queue@,
                                    sends,
                                ).0);
                                assert(out@ =~= old(out)@ + start_actions(next, done.push(step)));
                                done = done.push(step);
                            }
                        } else {
                            assert(!is_open(sends, req.http_slot as int));
                        }
                        proof {
                            gone = gone + 1;
                        }
                    },
                    None => {
                        assert(all.0 =~= done);
                        break ;
                    },
                }
            },
            None => {
                assert(all.0 =~= done);
                break ;
            },
        }
    }
}

proof fn lemma_started_more<A: App>(
    before: Seq<DbView<A::DbState>>,
    now: Seq<DbView<A::DbState>>,
    next: Seq<DbView<A::DbState>>,
    done: Seq<(int, DbRequest)>,
    step: (int, DbRequest),
)
    requires
        all_started::<A>(before, now, done),
        forall|k: int| 0 <= k < done.len() ==> 0 <= (#[trigger] done[k]).0 < before.len(),
        forall|k: int| 0 <= k < done.len() ==> (#[trigger] done[k]).0 != step.0,
        0 <= step.0 < before.len(),
        next.len() == now.len(),
        forall|i: int| 0 <= i < now.len() && i != step.0 ==> #[trigger] next[i] == now[i],
        started::<A>(now[step.0], next[step.0], step.1),
    ensures
        all_started::<A>(before, next, done.push(step)),
{
    let more = done.push(step);
    assert(now[step.0] == before[step.0]);
    assert forall|k: int| 0 <= k < more.len() implies started::<A>(
        before[(#[trigger] more[k]).0],
        next[more[k].0],
        more[k].1,
    ) by {
        if k < done.len() {
            assert(more[k] == done[k]);
        }
    }
    assert forall|i: int|
        0 <= i < before.len() && (forall|k: int|
            0 <= k < more.len() ==> (#[trigger] more[k]).0 != i) implies #[trigger] next[i]
        == before[i] by {
        assert(more[done.len() as int].0 != i);
        assert forall|k: int| 0 <= k < done.len() implies (#[trigger] done[k]).0 != i by {
            assert(more[k].0 != i);
        }
        assert(now[i] == before[i]);
    }
}

/// The requests in a list whose HTTP connection is open, in their order.
pub open spec fn live(queue: Seq<DbRequest>, sends: Seq<Option<Seq<u8>>>) -> Seq<DbRequest> {
    queue.filter(|r: DbRequest| is_open(sends, r.http_slot as int))
}

/// Waiting requests are served first in, first out: those that leave the queue
/// are its first ones, and of them those with an open HTTP connection are
/// started, in their order.
pub proof fn law_queue_is_first_in_first_out(
    idle: Seq<bool>,
    queue: Seq<DbRequest>,
    sends: Seq<Option<Seq<u8>>>,
)
    ensures
        ({
            let (starts, taken) = assign(idle, queue, sends);
            &&& 0 <= taken <= queue.len()
            &&& starts.map_values(|p: (int, DbRequest)| p.1) == live(queue.take(taken), sends)
        }),
    decreases queue.len(),
{
    let keep = |r: DbRequest| is_open(sends, r.http_slot as int);
    let second = |p: (int, DbRequest)| p.1;
    let i = first_true(idle, 0);
    let (starts, taken) = assign(idle, queue, sends);
    reveal(Seq::filter);
    if queue.len() == 0 || i >= idle.len() {
        assert(starts.map_values(second) =~= queue.take(0).filter(keep));
    } else {
        let first = seq![queue[0]];
        let rest = queue.drop_first();
        let next = if keep(queue[0]) {
            idle.update(i, false)
        } else {
            idle
        };
        let (more, n) = assign(next, rest, sends);
        law_queue_is_first_in_first_out(next, rest, sends);
        assert(queue.take(taken) =~= first + rest.take(n));
        Seq::filter_distributes_over_add(first, rest.take(n), keep);
        assert(first.drop_last().filter(keep) =~= Seq::<DbRequest>::empty());
        assert(first.filter(keep) =~= if keep(queue[0]) {
            first
        } else {
            Seq::empty()
        });
        assert(starts.map_values(second) =~= first.filter(keep) + more.map_values(second));
    }
}

/// A request is started on a connection that was idle, and no two requests on
/// the same one. A request is left waiting only where no connection is left
/// idle.
pub proof fn law_no_request_waits_beside_an_idle_connection(
    idle: Seq<bool>,
    queue: Seq<DbRequest>,
    sends: Seq<Option<Seq<u8>>>,
)
    ensures
        ({
            let (starts, taken) = assign(idle, queue, sends);
            &&& forall|k: int|
                0 <= k < starts.len() ==> 0 <= (#[trigger] starts[k]).0 < idle.len()
                    && idle[starts[k].0]
            &&& forall|j: int, k: int|
                0 <= j < k < starts.len() ==> (#[trigger] starts[j]).0 < (#[trigger] starts[k]).0
            &&& taken < queue.len() ==> forall|i: int|
                0 <= i < idle.len() && #[trigger] idle[i] ==> exists|k: int|
                    0 <= k < starts.len() && (#[trigger] starts[k]).0 == i
        }),
    decreases queue.len(),
{
    let i = first_true(idle, 0);
    let (starts, taken) = assign(idle, queue, sends);
    lemma_first_true(idle, 0);
    if queue.len() > 0 && i < idle.len() {
        let rest = queue.drop_first();
        if is_open(sends, queue[0].http_slot as int) {
            let next = idle.update(i, false);
            let (more, n) = assign(next, rest, sends);
            law_no_request_waits_beside_an_idle_connection(next, rest, sends);
            assert forall|k: int| 0 <= k < starts.len() implies 0 <= (#[trigger] starts[k]).0
                < idle.len() && idle[starts[k].0] && (k > 0 ==> i < starts[k].0) by {
                if k > 0 {
                    assert(starts[k] == more[k - 1]);
                    assert(next[more[k - 1].0]);
                }
            }
            assert forall|j: int, k: int| 0 <= j < k < starts.len() implies (
            #[trigger] starts[j]).0 < (#[trigger] starts[k]).0 by {
                assert(starts[k] == more[k - 1]);
                if j > 0 {
                    assert(starts[j] == more[j - 1]);
                }
            }
            if taken < queue.len() {
                assert forall|a: int| 0 <= a < idle.len() && #[trigger] idle[a] implies exists|
                    k: int,
                |
                    0 <= k < starts.len() && (#[trigger] starts[k]).0 == a by {
                    if a == i {
                        assert(starts[0].0 == a);
                    } else {
                        assert(next[a]);
                        let k = choose|k: int| 0 <= k < more.len() && (#[trigger] more[k]).0 == a;
                        assert(starts[k + 1] == more[k]);
                    }
                }
            }
        } else {
            law_no_request_waits_beside_an_idle_connection(idle, rest, sends);
        }
    }
}

/// An operation that was started is under way for the request's HTTP
/// connection, nothing of its response has arrived, and the application was
/// asked to start the request's route with the request's number of queries.
/// The connection keeps its slot.
pub proof fn law_started_operation_is_the_requests<A: App>(
    before: DbView<A::DbState>,
    after: DbView<A::DbState>,
    request: DbRequest,
)
    requires
        started::<A>(before, after, request),
    ensures
        after.idle == false,
        after.rpos == 0,
        after.http_slot == request.http_slot,
        after.slot == before.slot,
        after.rbuf == before.rbuf,
        A::starts_db(request.route_id, request.queries, after.wbuf, before.state, after.state),
{
}

/// The messages of an operation are sent whole, on the connection's own slot,
/// and the send carries the connection's index.
pub proof fn law_messages_are_sent_whole<S>(index: int, db: DbView<S>)
    requires
        0 <= index <= 0xffff_ffff,
        db.wbuf.len() <= 0xffff_ffff,
    ensures
        db_send(index, db) matches Action::DbSend { index: i, slot, len } && i as int == index
            && slot == db.slot && len as int == db.wbuf.len(),
{
}

/// The first idle connection is the one with the least index; where there is
/// none, the search ends behind the last.
pub proof fn law_first_idle_is_the_least<S>(dbs: Seq<DbView<S>>)
    ensures
        ({
            let i = first_true(idle_of(dbs), 0);
            &&& 0 <= i <= dbs.len()
            &&& i < dbs.len() ==> dbs[i].idle
            &&& forall|k: int| 0 <= k < i ==> !(#[trigger] dbs[k]).idle
        }),
{
    lemma_first_true(idle_of(dbs), 0);
    let i = first_true(idle_of(dbs), 0);
    assert forall|k: int| 0 <= k < i implies !(#[trigger] dbs[k]).idle by {
        assert(!idle_of(dbs)[k]);
    }
}

/// Waiting requests go to the idle connections in the order of their indices:
/// no idle connection below one that is used is passed over.
pub proof fn law_idle_connections_are_used_in_order(
    idle: Seq<bool>,
    queue: Seq<DbRequest>,
    sends: Seq<Option<Seq<u8>>>,
    k: int,
    i: int,
)
    requires
        0 <= k < assign(idle, queue, sends).0.len(),
        0 <= i < assign(idle, queue, sends).0[k].0,
        i < idle.len(),
        idle[i],
    ensures
        exists|j: int| 0 <= j < k && (#[trigger] assign(idle, queue, sends).0[j]).0 == i,
    decreases queue.len(),
{
    let first = first_true(idle, 0);
    lemma_first_true(idle, 0);
    let starts = assign(idle, queue, sends).0;
    let rest = queue.drop_first();
    if is_open(sends, queue[0].http_slot as int) {
        let next = idle.update(first, false);
        let more = assign(next, rest, sends).0;
        if i == first {
            assert(starts[0].0 == i);
            assert(k > 0);
        } else {
            assert(k > 0);
            assert(starts[k] == more[k - 1]);
            law_idle_connections_are_used_in_order(next, rest, sends, k - 1, i);
            let j = choose|j: int| 0 <= j < k - 1 && (#[trigger] more[j]).0 == i;
            assert(starts[j + 1] == more[j]);
        }
    } else {
        law_idle_connections_are_used_in_order(idle, rest, sends, k, i);
    }
}

/// A request leaves the queue only while a connection is idle: when the last of
/// those that leave it does so, there is one that none before it was started
/// on. If that last request is started, then there.
pub proof fn law_queue_is_left_for_an_idle_connection(
    idle: Seq<bool>,
    queue: Seq<DbRequest>,
    sends: Seq<Option<Seq<u8>>>,
)
    requires
        assign(idle, queue, sends).1 > 0,
    ensures
        ({
            let (starts, taken) = assign(idle, queue, sends);
            exists|i: int|
                {
                    &&& 0 <= i < idle.len()
                    &&& #[trigger] idle[i]
                    &&& forall|k: int|
                        0 <= k < starts.len() && (#[trigger] starts[k]).0 == i ==> k
                            == starts.len() - 1 && is_open(
                            sends,
                            queue[taken - 1].http_slot as int,
                        )
                }
        }),
    decreases queue.len(),
{
    let first = first_true(idle, 0);
    lemma_first_true(idle, 0);
    let (starts, taken) = assign(idle, queue, sends);
    let rest = queue.drop_first();
    let open = is_open(sends, queue[0].http_slot as int);
    let next = if open {
        idle.update(first, false)
    } else {
        idle
    };
    let (more, n) = assign(next, rest, sends);
    law_queue_is_first_in_first_out(next, rest, sends);
    assert(idle[first]);
    if n == 0 {
        reveal(Seq::filter);
        assert(live(rest.take(0), sends).len() == 0);
        assert(more.map_values(|p: (int, DbRequest)| p.1).len() == more.len());
    } else {
        law_queue_is_left_for_an_idle_connection(next, rest, sends);
        let i = choose|i: int|
            {
                &&& 0 <= i < next.len()
                &&& #[trigger] next[i]
                &&& forall|k: int|
                    0 <= k < more.len() && (#[trigger] more[k]).0 == i ==> k == more.len() - 1
                        && is_open(sends, rest[n - 1].http_slot as int)
            };
        assert(rest[n - 1] == queue[taken - 1]);
        assert(idle[i]);
        assert forall|k: int| 0 <= k < starts.len() && (#[trigger] starts[k]).0 == i implies k
            == starts.len() - 1 && is_open(sends, queue[taken - 1].http_slot as int) by {
            if open {
                assert(starts[0].0 == first);
                assert(k > 0);
                assert(starts[k] == more[k - 1]);
            } else {
                assert(starts[k] == more[k]);
            }
        }
    }
}

/// Starting operations changes exactly the connections that they are started
/// on, and each of them is sent its own messages, in the order of the starts.
pub proof fn law_starts_change_their_connections<A: App>(
    before: Seq<DbView<A::DbState>>,
    after: Seq<DbView<A::DbState>>,
    starts: Seq<(int, DbRequest)>,
)
    requires
        all_started::<A>(before, after, starts),
    ensures
        after.len() == before.len(),
        forall|k: int|
            0 <= k < starts.len() ==> {
                let (i, request) = #[trigger] starts[k];
                &&& after[i].idle == false
                &&& after[i].rpos == 0
                &&& after[i].http_slot == request.http_slot
                &&& after[i].slot == before[i].slot
                &&& A::starts_db(
                    request.route_id,
                    request.queries,
                    after[i].wbuf,
                    before[i].state,
                    after[i].state,
                )
            },
        forall|i: int|
            0 <= i < before.len() && (forall|k: int|
                0 <= k < starts.len() ==> (#[trigger] starts[k]).0 != i) ==> #[trigger] after[i]
                == before[i],
        start_actions(after, starts).len() == starts.len(),
        forall|k: int|
            0 <= k < starts.len() && 0 <= starts[k].0 <= 0xffff_ffff && after[starts[k].0].wbuf.len()
                <= 0xffff_ffff ==> {
                let i = starts[k].0;
                #[trigger] start_actions(after, starts)[k] matches Action::DbSend {
                    index,
                    slot,
                    len,
                } && index as int == i && slot == after[i].slot && len as int
                    == after[i].wbuf.len()
            },
        DB_BUF_SIZE == 32768,
{
    assert forall|k: int| 0 <= k < starts.len() implies {
        let (i, request) = #[trigger] starts[k];
        &&& after[i].idle == false
        &&& after[i].rpos == 0
        &&& after[i].http_slot == request.http_slot
        &&& after[i].slot == before[i].slot
        &&& A::starts_db(
            request.route_id,
            request.queries,
            after[i].wbuf,
            before[i].state,
            after[i].state,
        )
    } by {
        assert(started::<A>(before[starts[k].0], after[starts[k].0], starts[k].1));
    }
}

/// What the model holds of a database connection is what the connection holds.
pub proof fn law_views_show_the_connections<S>(conns: Seq<AsyncDbConn<S>>, i: int)
    requires
        0 <= i < conns.len(),
    ensures
        dbs_of(conns).len() == conns.len(),
        dbs_of(conns)[i].slot == conns[i].slot,
        dbs_of(conns)[i].wbuf == conns[i].wbuf@,
        dbs_of(conns)[i].rbuf == conns[i].rbuf@,
        dbs_of(conns)[i].rpos == conns[i].rpos,
        dbs_of(conns)[i].idle == conns[i].idle,
        dbs_of(conns)[i].http_slot == conns[i].http_slot,
        dbs_of(conns)[i].state == conns[i].state,
        idle_of(dbs_of(conns)).len() == conns.len(),
        idle_of(dbs_of(conns))[i] == conns[i].idle,
{
}

/// Every request that leaves the queue while its HTTP connection is open is
/// started, in the order of the queue, and no other is.
pub proof fn law_open_requests_are_started_in_order(
    idle: Seq<bool>,
    queue: Seq<DbRequest>,
    sends: Seq<Option<Seq<u8>>>,
)
    ensures
        ({
            let (starts, taken) = assign(idle, queue, sends);
            &&& 0 <= taken <= queue.len()
            &&& starts.map_values(|p: (int, DbRequest)| p.1) == queue.take(taken).filter(
                |r: DbRequest|
                    (r.http_slot as int) < sends.len() && sends[r.http_slot as int] is Some,
            )
        }),
{
    let (starts, taken) = assign(idle, queue, sends);
    law_queue_is_first_in_first_out(idle, queue, sends);
    assert((|r: DbRequest| is_open(sends, r.http_slot as int)) =~= (|r: DbRequest|
        (r.http_slot as int) < sends.len() && sends[r.http_slot as int] is Some));
}

} // verus!
