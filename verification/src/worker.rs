//! The messages of the ring and the state machine of a single worker.

use vstd::prelude::*;

verus! {

/// What travels between the workers of a ring, and back to the runner.
#[derive(Debug, PartialEq, Eq)]
pub enum Message {
    /// Looks for the end of the chain; the worker without a successor takes
    /// `first` as its successor.
    CloseRing { first: u32 },
    /// A payload. It circulates until the trip budget is spent.
    Data { data: String },
    /// Tells the runner that the ring is closed. No worker accepts it.
    InitDone,
    /// Makes each worker pass it on once and stop.
    Terminate,
}

impl Clone for Message {
    fn clone(&self) -> (r: Self)
        ensures
            r == *self,
    {
        match self {
            Message::CloseRing { first } => Message::CloseRing { first: *first },
            Message::Data { data } => Message::Data { data: data.clone() },
            Message::InitDone => Message::InitDone,
            Message::Terminate => Message::Terminate,
        }
    }
}

/// What the substrate has to do after a worker has handled a message.
#[derive(Debug, PartialEq, Eq)]
pub enum Action {
    /// Nothing: the worker had stopped, and the message is dropped.
    Discard,
    /// Nothing to send: the worker was the end of the chain and now points
    /// at the first worker, so the ring is closed.
    Closed,
    /// Hand `msg` to worker `to`.
    Forward { to: u32, msg: Message },
    /// The trip budget is spent: hand `Terminate` to worker `to`, and tell
    /// the runner that the steady state is over. The worker has stopped.
    Finish { to: u32 },
    /// Hand `Terminate` to worker `to`. The worker has stopped.
    Stop { to: u32 },
}

/// A message that the protocol does not allow where it arrived. The ring
/// is unusable after one.
#[derive(Debug, Clone, Copy, PartialEq, Eq, Structural)]
pub enum ProtocolViolation {
    /// A payload or a termination reached worker `id` before it had a
    /// successor.
    NoSuccessor { id: u32 },
    /// Worker `id` received the signal that is meant for the runner.
    UnexpectedInitDone { id: u32 },
}

/// One worker of the ring.
#[derive(Debug, Clone, Copy, PartialEq, Eq)]
pub struct Worker {
    /// The successor, once it is known.
    pub next: Option<u32>,
    /// Position in the ring.
    pub id: u32,
    /// Number of workers in the ring.
    pub max: u32,
    /// Round trips that are left. Only the worker at position 0 counts.
    pub msgs: u32,
    /// Whether the worker has stopped accepting messages.
    pub stopped: bool,
}

impl Worker {
    /// The state after `msg` has been handled and the action that goes with
    /// it, or the violation that `msg` is.
    pub open spec fn react(self, msg: Message) -> Result<(Worker, Action), ProtocolViolation> {
        if self.stopped {
            Ok((self, Action::Discard))
        } else {
            match msg {
                Message::CloseRing { first } => match self.next {
                    Some(to) => Ok((self, Action::Forward { to, msg })),
                    None => Ok((Worker { next: Some(first), ..self }, Action::Closed)),
                },
                Message::Data { data } => match self.next {
                    None => Err(ProtocolViolation::NoSuccessor { id: self.id }),
                    Some(to) => if self.id != 0 {
                        Ok((self, Action::Forward { to, msg }))
                    } else if self.msgs == 0 {
                        Ok((Worker { stopped: true, ..self }, Action::Finish { to }))
                    } else {
                        Ok(
                            (
                                Worker { msgs: (self.msgs - 1) as u32, ..self },
                                Action::Forward { to, msg },
                            ),
                        )
                    },
                },
                Message::InitDone => Err(ProtocolViolation::UnexpectedInitDone { id: self.id }),
                Message::Terminate => match self.next {
                    None => Err(ProtocolViolation::NoSuccessor { id: self.id }),
                    Some(to) => Ok((Worker { stopped: true, ..self }, Action::Stop { to })),
                },
            }
        }
    }

    /// A worker at position `id` of a ring of `max` workers, without a
    /// successor yet, with `msgs` round trips to count.
    pub fn new(id: u32, max: u32, msgs: u32) -> (w: Worker)
        ensures
            w == (Worker { next: None, id, max, msgs, stopped: false }),
    {
        Worker { next: None, id, max, msgs, stopped: false }
    }

    /// Whether the worker has a successor to create: every worker but the
    /// last of the ring has.
    pub open spec fn has_successor_to_create(self) -> bool {
        self.id + 1 < self.max
    }

    /// The successor that a worker creates: at the next position of the
    /// same ring, with the same budget, and without a successor of its own.
    pub open spec fn successor(self) -> Worker {
        Worker { next: None, id: (self.id + 1) as u32, max: self.max, msgs: self.msgs, stopped: false }
    }

    /// Start of a worker's life: it creates its successor and points at it.
    /// The last worker of the ring creates none and is left unchanged.
    pub fn started(&mut self) -> (created: Option<Worker>)
        ensures
            old(self).has_successor_to_create() ==> created == Some(old(self).successor())
                && *final(self) == (Worker { next: Some(old(self).successor().id), ..*old(self) }),
            !old(self).has_successor_to_create() ==> created is None && *final(self) == *old(self),
    {
        if self.max > 0 && self.id < self.max - 1 {
            let created = Worker::new(self.id + 1, self.max, self.msgs);
            self.next = Some(self.id + 1);
            Some(created)
        } else {
            None
        }
    }

    /// Handles one message. A stopped worker drops it. `CloseRing` is passed
    /// on, or ends at the worker without a successor. `Data` is passed on
    /// unchanged; the worker at position 0 first takes one trip off its
    /// budget, and finishes the run where none is left. `Terminate` is
    /// passed on once and stops the worker. A violation leaves the worker
    /// as it was.
    pub fn handle(&mut self, msg: Message) -> (r: Result<Action, ProtocolViolation>)
        ensures
            match old(self).react(msg) {
                Ok((after, action)) => r == Ok::<Action, ProtocolViolation>(action) && *final(self) == after,
                Err(e) => r == Err::<Action, ProtocolViolation>(e) && *final(self) == *old(self),
            },
    {
        if self.stopped {
            return Ok(Action::Discard);
        }
        match msg {
            Message::CloseRing { first } => match self.next {
                Some(to) => Ok(Action::Forward { to, msg: Message::CloseRing { first } }),
                None => {
                    self.next = Some(first);
                    Ok(Action::Closed)
                },
            },
            Message::Data { data } => match self.next {
                None => Err(ProtocolViolation::NoSuccessor { id: self.id }),
                Some(to) => {
                    if self.id != 0 {
                        Ok(Action::Forward { to, msg: Message::Data { data } })
                    } else if self.msgs == 0 {
                        self.stopped = true;
                        Ok(Action::Finish { to })
                    } else {
                        self.msgs = self.msgs - 1;
                        Ok(Action::Forward { to, msg: Message::Data { data } })
                    }
                },
            },
            Message::InitDone => Err(ProtocolViolation::UnexpectedInitDone { id: self.id }),
            Message::Terminate => match self.next {
                None => Err(ProtocolViolation::NoSuccessor { id: self.id }),
                Some(to) => {
                    self.stopped = true;
                    Ok(Action::Stop { to })
                },
            },
        }
    }
}

impl Worker {
    /// The worker's state and its actions, in order, after it has taken the
    /// messages of `inbox` one by one, up to the one at which it stops; or
    /// the first violation among them.
    pub open spec fn drain(self, inbox: Seq<Message>) -> Result<
        (Worker, Seq<Action>),
        ProtocolViolation,
    >
        decreases inbox.len(),
    {
        if inbox.len() == 0 || self.stopped {
            Ok((self, Seq::empty()))
        } else {
            match self.react(inbox[0]) {
                Err(e) => Err(e),
                Ok((after, action)) => match after.drain(inbox.skip(1)) {
                    Err(e) => Err(e),
                    Ok((last, rest)) => Ok((last, seq![action] + rest)),
                },
            }
        }
    }
}

/// The loop of a worker over the messages that wait for it: it handles them
/// in order until it stops or none is left, and returns what the substrate
/// has to do for each. Messages behind the one that stopped the worker are
/// never looked at. A violation ends the loop and leaves the worker as it
/// was before the call.
pub fn thread_loop(worker: &mut Worker, inbox: &Vec<Message>) -> (r: Result<
    Vec<Action>,
    ProtocolViolation,
>)
    ensures
        match old(worker).drain(inbox@) {
            Ok((last, actions)) => r is Ok && r->Ok_0@ == actions && *final(worker) == last,
            Err(e) => r == Err::<Vec<Action>, ProtocolViolation>(e) && *final(worker) == *old(worker),
        },
{
    let ghost start = *worker;
    let mut w = *worker;
    let mut actions: Vec<Action> = Vec::new();
    let mut i: usize = 0;
    proof {
        assert(inbox@.skip(0) =~= inbox@);
        match start.drain(inbox@) {
            Ok((last, rest)) => {
                assert(actions@ + rest =~= rest);
            },
            Err(e) => {},
        }
    }
    while i < inbox.len() && !w.stopped
        invariant
            i <= inbox.len(),
            *worker == start,
            match w.drain(inbox@.skip(i as int)) {
                Ok((last, rest)) => start.drain(inbox@) == Ok::<
                    (Worker, Seq<Action>),
                    ProtocolViolation,
                >((last, actions@ + rest)),
                Err(e) => start.drain(inbox@) == Err::<(Worker, Seq<Action>), ProtocolViolation>(
                    e,
                ),
            },
        decreases inbox.len() - i,
    {
        let ghost before = w;
        let ghost done = actions@;
        let ghost left = inbox@.skip(i as int);
        let msg = inbox[i].clone();
        assert(msg == left[0]);
        assert(left.skip(1) =~= inbox@.skip(i + 1));
        match w.handle(msg) {
            Err(e) => {
                return Err(e);
            },
            Ok(action) => {
                actions.push(action);
                proof {
                    match w.drain(left.skip(1)) {
                        Ok((last, rest)) => {
                            assert(done.push(action) + rest =~= done + (seq![action] + rest));
                        },
                        Err(e) => {},
                    }
                }
            },
        }
        i = i + 1;
    }
    proof {
        let left = inbox@.skip(i as int);
        assert(left.len() == 0 || w.stopped);
        assert(actions@ + Seq::<Action>::empty() =~= actions@);
    }
    *worker = w;
    Ok(actions)
}

} // verus!
