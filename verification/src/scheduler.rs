//! A cooperative scheduler for one ring: all workers share one queue of
//! pending deliveries, and the scheduler hands the messages out one at a
//! time, in the order in which they were posted.

use std::collections::VecDeque;
use vstd::prelude::*;
use crate::bench::{ConfigError, Spec};
use crate::clock::now;
use crate::ring::{is_cycle, succ, Ring};
use crate::worker::{Action, Message, Worker};

verus! {

/// A message on its way to the worker at position `to`.
#[derive(Debug, PartialEq, Eq)]
pub struct Envelope {
    pub to: u32,
    pub msg: Message,
}

/// A ring together with the deliveries that are pending.
#[derive(Debug)]
pub struct Scheduler {
    /// The workers.
    pub ring: Ring,
    /// Pending deliveries, oldest first.
    pub queue: VecDeque<Envelope>,
    /// Whether the first worker has signalled that the trip budget is
    /// spent.
    pub finished: bool,
    /// Round trips counted so far: the number of times the first worker
    /// took a trip off its budget.
    pub trips: u32,
}

/// The mathematical state of a scheduler.
pub struct State {
    pub workers: Seq<Worker>,
    pub queue: Seq<Envelope>,
    pub finished: bool,
    pub trips: nat,
}

impl View for Scheduler {
    type V = State;

    open spec fn view(&self) -> State {
        State {
            workers: self.ring.workers@,
            queue: self.queue@,
            finished: self.finished,
            trips: self.trips as nat,
        }
    }
}

/// Deliveries that a message for position `to` of a ring of `n` workers
/// needs at most to be handled by the first worker.
pub open spec fn weight(to: int, n: int) -> int {
    if to == 0 {
        1
    } else {
        n - to + 1
    }
}

/// The sum of the weights of the pending deliveries.
pub open spec fn load(queue: Seq<Envelope>, n: int) -> int
    decreases queue.len(),
{
    if queue.len() == 0 {
        0
    } else {
        load(queue.drop_last(), n) + weight(queue.last().to as int, n)
    }
}

impl State {
    /// The state after the oldest pending message has been delivered: the
    /// addressed worker has handled it, and what it passes on is posted
    /// behind the other pending messages.
    pub open spec fn next(self) -> State
        recommends
            self.queue.len() > 0,
            self.queue[0].to < self.workers.len(),
    {
        let env = self.queue[0];
        let rest = self.queue.subrange(1, self.queue.len() as int);
        let worker = self.workers[env.to as int];
        match worker.react(env.msg) {
            Ok((after, action)) => {
                let workers = self.workers.update(env.to as int, after);
                match action {
                    Action::Forward { to, msg } => State {
                        workers,
                        queue: rest.push(Envelope { to, msg }),
                        finished: self.finished,
                        trips: if after.msgs != worker.msgs {
                            self.trips + 1
                        } else {
                            self.trips
                        },
                    },
                    Action::Finish { to } => State {
                        workers,
                        queue: rest.push(Envelope { to, msg: Message::Terminate }),
                        finished: true,
                        trips: self.trips,
                    },
                    Action::Stop { to } => State {
                        workers,
                        queue: rest.push(Envelope { to, msg: Message::Terminate }),
                        finished: self.finished,
                        trips: self.trips,
                    },
                    _ => State { workers, queue: rest, finished: self.finished, trips: self.trips },
                }
            },
            Err(_) => State { queue: rest, ..self },
        }
    }

    /// Whether every pending message is a payload or a termination, for a
    /// worker of the ring.
    pub open spec fn addressed(self) -> bool {
        forall|j: int|
            0 <= j < self.queue.len() ==> (#[trigger] self.queue[j]).to < self.workers.len() && (
            self.queue[j].msg is Data || self.queue[j].msg is Terminate)
    }

    /// What every state of a scheduler satisfies: the ring is closed, the
    /// pending messages are addressed, and the trips counted and the trips
    /// left fit the counter together.
    pub open spec fn sound(self) -> bool {
        &&& is_cycle(self.workers)
        &&& self.addressed()
        &&& self.trips + self.workers[0].msgs <= u32::MAX
    }

    /// Whether exactly the workers before position `k` have stopped.
    pub open spec fn stopped_below(self, k: int) -> bool {
        forall|i: int| 0 <= i < self.workers.len() ==> (#[trigger] self.workers[i]).stopped == (i < k)
    }

    /// The steady state: payloads circulate, no worker has stopped, and the
    /// budget is not known to be spent.
    pub open spec fn steady(self) -> bool {
        &&& self.sound()
        &&& !self.finished
        &&& self.stopped_below(0)
        &&& forall|j: int| 0 <= j < self.queue.len() ==> (#[trigger] self.queue[j]).msg is Data
    }

    /// Whether the pending message at index `j` is the one termination
    /// among the pending messages, and is addressed to position `k`.
    pub open spec fn token_at(self, j: int, k: int) -> bool {
        &&& 0 <= j < self.queue.len()
        &&& self.queue[j].msg is Terminate
        &&& self.queue[j].to == k
        &&& forall|i: int|
            0 <= i < self.queue.len() && i != j ==> (#[trigger] self.queue[i]).msg is Data
    }

    /// The ring winds down: the workers before position `k` have stopped,
    /// and while a worker is left, one termination is on its way to the
    /// first of them. Before any worker has stopped, nothing else is
    /// pending.
    pub open spec fn draining(self, k: int) -> bool {
        &&& self.sound()
        &&& 0 <= k <= self.workers.len()
        &&& self.stopped_below(k)
        &&& k < self.workers.len() ==> exists|j: int| self.token_at(j, k)
        &&& k == 0 ==> self.queue.len() == 1
    }

    /// A bound on the deliveries that are still to come. Every delivery
    /// lowers it.
    pub open spec fn measure(self) -> int {
        let n = self.workers.len() as int;
        (if self.workers[0].stopped {
            0
        } else {
            self.workers[0].msgs * n + n
        }) + load(self.queue, n)
    }
}

/// Posting a message adds its weight to the load.
pub proof fn lemma_load_push(queue: Seq<Envelope>, env: Envelope, n: int)
    ensures
        load(queue.push(env), n) == load(queue, n) + weight(env.to as int, n),
{
    assert(queue.push(env).drop_last() =~= queue);
}

/// Taking the oldest message takes its weight off the load.
pub proof fn lemma_load_pop(queue: Seq<Envelope>, n: int)
    requires
        queue.len() > 0,
    ensures
        load(queue.subrange(1, queue.len() as int), n) == load(queue, n) - weight(
            queue[0].to as int,
            n,
        ),
    decreases queue.len(),
{
    let rest = queue.subrange(1, queue.len() as int);
    if queue.len() == 1 {
        assert(queue.drop_last().len() == 0);
        assert(load(queue.drop_last(), n) == 0);
        assert(rest.len() == 0);
    } else {
        lemma_load_pop(queue.drop_last(), n);
        assert(queue.drop_last().subrange(1, queue.len() - 1) =~= rest.drop_last());
        assert(rest.last() == queue.last());
        assert(queue.drop_last()[0] == queue[0]);
    }
}

/// The load of messages for workers of the ring is at least their number.
pub proof fn lemma_load_bound(queue: Seq<Envelope>, n: int)
    requires
        forall|j: int| 0 <= j < queue.len() ==> (#[trigger] queue[j]).to < n,
    ensures
        load(queue, n) >= queue.len(),
    decreases queue.len(),
{
    if queue.len() > 0 {
        lemma_load_bound(queue.drop_last(), n);
    }
}

/// `count` payloads with the content `data`, each addressed to the first
/// worker.
pub open spec fn seeds(count: nat, data: String) -> Seq<Envelope> {
    Seq::new(count, |i: int| Envelope { to: 0, msg: Message::Data { data } })
}

/// Whether every payload among `after` is one of the payloads among
/// `before`, with the same content.
pub open spec fn payloads_from(after: Seq<Envelope>, before: Seq<Envelope>) -> bool {
    forall|j: int|
        0 <= j < after.len() && (#[trigger] after[j]).msg is Data ==> exists|i: int|
            0 <= i < before.len() && (#[trigger] before[i]).msg == after[j].msg
}

/// The measure of a sound state is not negative.
pub proof fn lemma_measure_bound(s: State)
    requires
        s.sound(),
    ensures
        s.measure() >= 0,
{
    let n = s.workers.len() as int;
    let m = s.workers[0].msgs as int;
    lemma_load_bound(s.queue, n);
    assert(m * n >= 0) by (nonlinear_arith)
        requires
            m >= 0,
            n >= 1,
    ;
}

/// Whether two rows of workers differ at most in which workers have
/// stopped.
pub open spec fn same_but_stopped(after: Seq<Worker>, before: Seq<Worker>) -> bool {
    &&& after.len() == before.len()
    &&& forall|i: int|
        0 <= i < after.len() ==> #[trigger] after[i] == (Worker {
            stopped: after[i].stopped,
            ..before[i]
        })
}

/// A delivery in a sound state is no violation, and leads to a sound state.
pub proof fn lemma_next_sound(s: State)
    requires
        s.sound(),
        s.queue.len() > 0,
    ensures
        s.next().sound(),
        s.workers[s.queue[0].to as int].react(s.queue[0].msg) is Ok,
        s.next().workers.len() == s.workers.len(),
{
    let n = s.workers.len() as int;
    let t = s.next();
    let at = s.queue[0].to as int;
    assert(s.workers[at].next == Some(succ(at, n) as u32));
    assert forall|i: int| 0 <= i < t.workers.len() implies (#[trigger] t.workers[i]).id == i
        && t.workers[i].max == n && t.workers[i].next == Some(
        succ(i, n) as u32,
    ) by {
        assert(s.workers[i].id == i);
        assert(s.workers[i].next == Some(succ(i, n) as u32));
    }
    assert forall|j: int| 0 <= j < t.queue.len() implies (#[trigger] t.queue[j]).to < n && (
    t.queue[j].msg is Data || t.queue[j].msg is Terminate) by {
        if j < s.queue.len() - 1 {
            assert(t.queue[j] == s.queue[j + 1]);
        }
    }
}

/// A delivery in the steady state keeps the number of pending messages,
/// alters no payload, and lowers the measure. Where the message reaches the first worker
/// with no trip left, the run is finished: the first worker has stopped,
/// and the termination is on its way to the second. Every other delivery
/// leaves the state steady; it changes at most the first worker's budget,
/// and the trips counted and the trips left still add up to the same.
pub proof fn lemma_steady_step(s: State)
    requires
        s.steady(),
        s.queue.len() > 0,
    ensures
        s.next().measure() < s.measure(),
        s.next().queue.len() == s.queue.len(),
        payloads_from(s.next().queue, s.queue),
        s.queue[0].to == 0 && s.workers[0].msgs == 0 ==> s.next().finished && s.next().draining(1)
            && s.next().trips == s.trips && s.next().workers == s.workers.update(
            0,
            Worker { stopped: true, ..s.workers[0] },
        ),
        !(s.queue[0].to == 0 && s.workers[0].msgs == 0) ==> s.next().steady() && s.next().trips
            + s.next().workers[0].msgs == s.trips + s.workers[0].msgs && s.next().workers
            == s.workers.update(0, Worker { msgs: s.next().workers[0].msgs, ..s.workers[0] }),
{
    let n = s.workers.len() as int;
    let t = s.next();
    let at = s.queue[0].to as int;
    let to = succ(at, n);
    let rest = s.queue.subrange(1, s.queue.len() as int);
    let m = s.workers[0].msgs as int;
    lemma_next_sound(s);
    lemma_load_pop(s.queue, n);
    assert(s.queue[0].msg is Data);
    assert(s.workers[at].next == Some(to as u32));
    assert(!s.workers[at].stopped);
    assert(!s.workers[0].stopped);
    let posted = t.queue.last();
    assert(t.queue =~= rest.push(posted));
    lemma_load_push(rest, posted, n);
    assert(posted.to == to);
    assert(m * n >= 0) by (nonlinear_arith)
        requires
            m >= 0,
            n >= 1,
    ;
    assert forall|j: int| 0 <= j < t.queue.len() && (#[trigger] t.queue[j]).msg is Data implies exists|
        i: int,
    |
        0 <= i < s.queue.len() && (#[trigger] s.queue[i]).msg == t.queue[j].msg by {
        if j < s.queue.len() - 1 {
            assert(t.queue[j] == s.queue[j + 1]);
        } else {
            assert(t.queue[j].msg == s.queue[0].msg);
        }
    }
    if at == 0 && m == 0 {
        assert(t.workers =~= s.workers.update(0, Worker { stopped: true, ..s.workers[0] }));
        assert(t.stopped_below(1)) by {
            assert forall|i: int| 0 <= i < t.workers.len() implies (
            #[trigger] t.workers[i]).stopped == (i < 1) by {
                assert(!s.workers[i].stopped);
            }
        }
        if 1 < n {
            assert(t.token_at(t.queue.len() - 1, 1)) by {
                assert forall|i: int|
                    0 <= i < t.queue.len() && i != t.queue.len() - 1 implies (
                #[trigger] t.queue[i]).msg is Data by {
                    assert(t.queue[i] == s.queue[i + 1]);
                }
            }
        }
    } else {
        assert(t.workers =~= s.workers.update(0, Worker { msgs: t.workers[0].msgs, ..s.workers[0] }));
        assert(t.stopped_below(0)) by {
            assert forall|i: int| 0 <= i < t.workers.len() implies (
            #[trigger] t.workers[i]).stopped == (i < 0) by {
                assert(!s.workers[i].stopped);
            }
        }
        assert forall|j: int| 0 <= j < t.queue.len() implies (#[trigger] t.queue[j]).msg is Data by {
            if j < s.queue.len() - 1 {
                assert(t.queue[j] == s.queue[j + 1]);
            }
        }
        if at == 0 {
            assert((m - 1) * n + n == m * n) by (nonlinear_arith);
        }
    }
}

/// A delivery while the ring winds down lowers the measure, changes
/// neither the trips counted nor the signal of the first worker, and
/// changes the workers at most in that one more has stopped: the one that
/// the termination has reached.
pub proof fn lemma_draining_step(s: State, k: int)
    requires
        s.draining(k),
        s.queue.len() > 0,
    ensures
        s.next().measure() < s.measure(),
        s.next().finished == s.finished,
        s.next().trips == s.trips,
        same_but_stopped(s.next().workers, s.workers),
        s.next().draining(
            if s.queue[0].msg is Terminate && k < s.workers.len() {
                k + 1
            } else {
                k
            },
        ),
{
    let n = s.workers.len() as int;
    let t = s.next();
    let at = s.queue[0].to as int;
    let to = succ(at, n);
    let rest = s.queue.subrange(1, s.queue.len() as int);
    let m = s.workers[0].msgs as int;
    lemma_next_sound(s);
    lemma_load_pop(s.queue, n);
    assert(s.workers[at].next == Some(to as u32));
    assert(s.workers[at].stopped == (at < k));
    assert(s.workers[0].stopped == (0 < k));
    assert(m * n >= 0) by (nonlinear_arith)
        requires
            m >= 0,
            n >= 1,
    ;
    if s.workers[at].stopped {
        assert(t.queue =~= rest);
        assert(t.workers =~= s.workers);
    } else {
        let posted = t.queue.last();
        assert(t.queue =~= rest.push(posted));
        lemma_load_push(rest, posted, n);
        assert(posted.to == to);
    }
    if k < n {
        let j = choose|j: int| s.token_at(j, k);
        assert(s.token_at(j, k));
        if s.queue[0].msg is Terminate {
            assert(j == 0);
            assert(at == k);
            assert(t.workers =~= s.workers.update(at, Worker { stopped: true, ..s.workers[at] }));
            assert(t.stopped_below(k + 1)) by {
                assert forall|i: int| 0 <= i < t.workers.len() implies (
                #[trigger] t.workers[i]).stopped == (i < k + 1) by {
                    assert(s.workers[i].stopped == (i < k));
                }
            }
            if k + 1 < n {
                assert(t.token_at(t.queue.len() - 1, k + 1)) by {
                    assert forall|i: int|
                        0 <= i < t.queue.len() && i != t.queue.len() - 1 implies (
                    #[trigger] t.queue[i]).msg is Data by {
                        assert(t.queue[i] == s.queue[i + 1]);
                    }
                }
            }
        } else {
            assert(j != 0);
            assert(k != 0);
            assert(at != 0 || s.workers[at].stopped);
            assert(t.workers =~= s.workers);
            assert(t.token_at(j - 1, k)) by {
                assert(t.queue[j - 1] == s.queue[j]);
                assert forall|i: int| 0 <= i < t.queue.len() && i != j - 1 implies (
                #[trigger] t.queue[i]).msg is Data by {
                    if i < s.queue.len() - 1 {
                        assert(t.queue[i] == s.queue[i + 1]);
                    }
                }
            }
        }
    } else {
        assert(s.workers[at].stopped);
    }
    assert(same_but_stopped(t.workers, s.workers)) by {
        assert forall|i: int| 0 <= i < t.workers.len() implies #[trigger] t.workers[i] == (Worker {
            stopped: t.workers[i].stopped,
            ..s.workers[i]
        }) by {}
    }
}

impl Scheduler {
    /// A scheduler for a closed ring, with nothing pending and no trip
    /// counted.
    pub fn new(ring: Ring) -> (s: Scheduler)
        requires
            is_cycle(ring.workers@),
        ensures
            s@ == (State { workers: ring.workers@, queue: Seq::empty(), finished: false, trips: 0 }),
            s@.sound(),
    {
        Scheduler { ring, queue: VecDeque::new(), finished: false, trips: 0 }
    }

    /// Delivers the oldest pending message.
    pub fn step(&mut self)
        requires
            old(self)@.sound(),
            old(self)@.queue.len() > 0,
        ensures
            final(self)@ == old(self)@.next(),
            final(self)@.sound(),
    {
        let ghost before = self@;
        let ghost n = before.workers.len() as int;
        let envelope = self.queue.pop_front();
        match envelope {
            None => {},
            Some(Envelope { to: at, msg }) => {
                assert(before.queue[0].to == at);
                assert(at < n);
                let mut w = self.ring.workers[at as usize];
                let ghost worker = w;
                let left = w.msgs;
                assert(worker.next == Some(succ(at as int, n) as u32));
                let handled = w.handle(msg);
                self.ring.workers.set(at as usize, w);
                match handled {
                    Ok(Action::Forward { to, msg }) => {
                        if w.msgs != left {
                            self.trips = self.trips + 1;
                        }
                        self.queue.push_back(Envelope { to, msg });
                    },
                    Ok(Action::Finish { to }) => {
                        self.finished = true;
                        self.queue.push_back(Envelope { to, msg: Message::Terminate });
                    },
                    Ok(Action::Stop { to }) => {
                        self.queue.push_back(Envelope { to, msg: Message::Terminate });
                    },
                    _ => {},
                }
                proof {
                    lemma_next_sound(before);
                    assert(self@.queue =~= before.next().queue);
                    assert(self@.workers =~= before.next().workers);
                }
            },
        }
    }
}

impl Scheduler {
    /// Puts `count` payloads with the content of `data` on the ring, each
    /// addressed to the first worker, behind what is pending.
    pub fn seed(&mut self, count: u32, data: &String)
        requires
            old(self)@.steady(),
        ensures
            final(self)@.steady(),
            final(self)@ == (State {
                queue: old(self)@.queue + seeds(count as nat, *data),
                ..old(self)@
            }),
    {
        let ghost before = self@;
        let mut i: u32 = 0;
        proof {
            assert(before.queue + seeds(0, *data) =~= before.queue);
        }
        while i < count
            invariant
                i <= count,
                self@.steady(),
                self@ == (State { queue: before.queue + seeds(i as nat, *data), ..before }),
            decreases count - i,
        {
            let ghost queued = self@.queue;
            let payload = data.clone();
            self.queue.push_back(Envelope { to: 0, msg: Message::Data { data: payload } });
            i = i + 1;
            proof {
                assert(self@.queue =~= before.queue + seeds(i as nat, *data));
                assert forall|j: int| 0 <= j < self@.queue.len() implies (
                #[trigger] self@.queue[j]).msg is Data && self@.queue[j].to
                    < self@.workers.len() by {
                    if j < queued.len() {
                        assert(self@.queue[j] == queued[j]);
                    }
                }
            }
        }
    }

    /// Delivers pending messages until the first worker signals that the
    /// trip budget is spent, or nothing is pending. With a payload on the
    /// ring the signal always comes: the first worker has then counted
    /// every trip of its budget and has stopped, no other worker has
    /// changed, and the termination has taken the place of the payload that
    /// found the budget spent. The payloads that are still pending have the
    /// content that they were seeded with. With nothing on the ring nothing
    /// happens.
    pub fn run(&mut self)
        requires
            old(self)@.steady(),
        ensures
            old(self)@.queue.len() == 0 ==> final(self)@ == old(self)@,
            old(self)@.queue.len() > 0 ==> final(self)@.finished,
            old(self)@.queue.len() > 0 ==> final(self)@.draining(1),
            old(self)@.queue.len() > 0 ==> final(self)@.trips == old(self)@.trips + old(self)@.workers[0].msgs,
            old(self)@.queue.len() > 0 ==> final(self)@.workers == old(self)@.workers.update(
                0,
                Worker { msgs: 0, stopped: true, ..old(self)@.workers[0] },
            ),
            final(self)@.queue.len() == old(self)@.queue.len(),
            payloads_from(final(self)@.queue, old(self)@.queue),
    {
        let ghost before = self@;
        proof {
            assert(before.workers.update(0, before.workers[0]) =~= before.workers);
            assert forall|j: int|
                0 <= j < before.queue.len() && (#[trigger] before.queue[j]).msg is Data implies exists|
                i: int,
            |
                0 <= i < before.queue.len() && (#[trigger] before.queue[i]).msg
                    == before.queue[j].msg by {
                assert(before.queue[j].msg == before.queue[j].msg);
            }
        }
        while !self.finished && self.queue.len() > 0
            invariant
                before.steady(),
                self@.sound(),
                self@.queue.len() == before.queue.len(),
                payloads_from(self@.queue, before.queue),
                before.queue.len() == 0 ==> self@ == before,
                self@.trips + self@.workers[0].msgs == before.trips + before.workers[0].msgs,
                self@.finished ==> self@.draining(1) && self@.workers[0].msgs == 0
                    && self@.workers == before.workers.update(
                    0,
                    Worker { msgs: 0, stopped: true, ..before.workers[0] },
                ),
                !self@.finished ==> self@.steady() && self@.workers == before.workers.update(
                    0,
                    Worker { msgs: self@.workers[0].msgs, ..before.workers[0] },
                ),
            decreases self@.measure(),
        {
            proof {
                lemma_steady_step(self@);
            }
            let ghost s = self@;
            self.step();
            proof {
                lemma_measure_bound(self@);
                assert forall|j: int|
                    0 <= j < self@.queue.len() && (#[trigger] self@.queue[j]).msg is Data implies exists|
                    i: int,
                |
                    0 <= i < before.queue.len() && (#[trigger] before.queue[i]).msg
                        == self@.queue[j].msg by {
                    let via = choose|i: int|
                        0 <= i < s.queue.len() && (#[trigger] s.queue[i]).msg == self@.queue[j].msg;
                    assert(s.queue[via].msg is Data);
                }
                if s.queue[0].to == 0 && s.workers[0].msgs == 0 {
                    assert(self@.workers =~= before.workers.update(
                        0,
                        Worker { msgs: 0, stopped: true, ..before.workers[0] },
                    ));
                } else {
                    assert(self@.workers =~= before.workers.update(
                        0,
                        Worker { msgs: self@.workers[0].msgs, ..before.workers[0] },
                    ));
                }
            }
        }
    }

    /// Tears the ring down. Where no termination is on its way yet, one is
    /// handed to the first worker. Then the pending messages are delivered
    /// until none is left. After that every worker has stopped. Nothing
    /// else changes: no trip is counted, and every worker keeps its place,
    /// its successor and its budget.
    pub fn shutdown(&mut self)
        requires
            old(self)@.steady() && old(self)@.queue.len() == 0 || exists|k: int|
                old(self)@.draining(k),
        ensures
            final(self)@.queue.len() == 0,
            final(self)@.stopped_below(final(self)@.workers.len() as int),
            final(self)@.sound(),
            final(self)@.finished == old(self)@.finished,
            final(self)@.trips == old(self)@.trips,
            same_but_stopped(final(self)@.workers, old(self)@.workers),
    {
        let ghost before = self@;
        let ghost mut k: int = 0;
        if self.queue.len() == 0 && !self.ring.workers[0].stopped {
            self.queue.push_back(Envelope { to: 0, msg: Message::Terminate });
            proof {
                if !before.steady() {
                    let stopped = choose|k: int| before.draining(k);
                    assert(before.workers[0].stopped == (0 < stopped));
                }
                assert(self@.token_at(0, 0));
            }
        } else {
            proof {
                k = choose|k: int| before.draining(k);
            }
        }
        while self.queue.len() > 0
            invariant
                self@.draining(k),
                self@.finished == before.finished,
                self@.trips == before.trips,
                same_but_stopped(self@.workers, before.workers),
            decreases self@.measure(),
        {
            proof {
                lemma_draining_step(self@, k);
                if self@.queue[0].msg is Terminate && k < self@.workers.len() {
                    k = k + 1;
                }
            }
            self.step();
            proof {
                lemma_measure_bound(self@);
            }
        }
    }
}

/// Runs the whole life of a ring without a clock: builds and closes the
/// ring of `spec.procs` workers, seeds `spec.paralell` payloads of
/// `spec.size` characters, delivers until the first worker has counted
/// `spec.messages` round trips, and tears the ring down. Returns the
/// scheduler as the run left it.
pub fn simulate(spec: &Spec) -> (r: Result<Scheduler, ConfigError>)
    ensures
        r is Err <==> !spec.valid(),
        r is Err ==> r->Err_0 == ConfigError::EmptyRing,
        r is Ok ==> r->Ok_0@.outcome_of(*spec),
{
    match Ring::build(spec.procs, spec.messages) {
        Err(e) => Err(e),
        Ok(ring) => {
            let ghost built = ring.workers@;
            let mut scheduler = Scheduler::new(ring);
            let data = spec.payload();
            assert(scheduler@.steady());
            scheduler.seed(spec.paralell, &data);
            scheduler.run();
            let ghost ran = scheduler@;
            scheduler.shutdown();
            proof {
                let s = scheduler@;
                assert forall|i: int| 0 <= i < s.workers.len() implies (#[trigger] s.workers[i])
                    == (Worker {
                    msgs: if i == 0 && spec.paralell >= 1 {
                        0
                    } else {
                        spec.messages
                    },
                    stopped: true,
                    ..built[i]
                }) by {
                    assert(s.workers[i] == (Worker { stopped: s.workers[i].stopped, ..ran.workers[i] }));
                }
            }
            Ok(scheduler)
        },
    }
}

impl State {
    /// What a complete run of `spec` leaves behind: a closed ring of
    /// `spec.procs` workers that have all stopped, and nothing pending.
    /// With a payload on the ring the first worker has signalled the end,
    /// exactly `spec.messages` round trips were counted, and its budget is
    /// spent. With none, no trip was counted and the budget is untouched.
    /// Every other worker has the budget that it was created with.
    pub open spec fn outcome_of(self, spec: Spec) -> bool {
        &&& self.workers.len() == spec.procs
        &&& is_cycle(self.workers)
        &&& self.queue.len() == 0
        &&& self.finished == (spec.paralell >= 1)
        &&& self.trips == if spec.paralell >= 1 {
            spec.messages
        } else {
            0
        }
        &&& forall|i: int|
            0 <= i < self.workers.len() ==> (#[trigger] self.workers[i]).stopped
                && self.workers[i].msgs == if i == 0 && spec.paralell >= 1 {
                0
            } else {
                spec.messages
            }
    }
}

/// Name under which the results of this scheduler are reported.
pub open spec fn substrate_name() -> Seq<char> {
    "rust_scheduler"@
}

/// One benchmark run on the cooperative scheduler. The clock is read
/// before the ring is built, once it is closed, and when the first worker
/// has signalled that the trip budget is spent; the ring is torn down
/// after the last reading. The times of the result are the spans between
/// the readings, whatever the clock returned.
pub fn run(spec: &Spec) -> (r: Result<crate::bench::Result, ConfigError>)
    ensures
        r is Err <==> !spec.valid(),
        r is Err ==> r->Err_0 == ConfigError::EmptyRing,
        r is Ok ==> r->Ok_0.name@ == substrate_name() && r->Ok_0.spec == *spec,
{
    let data = spec.payload();
    let begun = now();
    match Ring::build(spec.procs, spec.messages) {
        Err(e) => Err(e),
        Ok(ring) => {
            let mut scheduler = Scheduler::new(ring);
            let closed = now();
            assert(scheduler@.steady());
            scheduler.seed(spec.paralell, &data);
            scheduler.run();
            let done = now();
            scheduler.shutdown();
            Ok(crate::bench::Result::measured("rust_scheduler", spec, begun, closed, done))
        },
    }
}

} // verus!
