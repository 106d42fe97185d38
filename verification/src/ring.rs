//! The ring of workers and its two-phase construction: first a chain in
//! which every worker creates its successor, then one pass that links the
//! last worker back to the first.

use vstd::prelude::*;
use crate::bench::ConfigError;
use crate::worker::{Action, Message, Worker};

verus! {

/// The position after `i` in a ring of `n` workers.
pub open spec fn succ(i: int, n: int) -> int {
    if i + 1 < n {
        i + 1
    } else {
        0
    }
}

/// Whether every worker sits at its own position of a ring of this size.
pub open spec fn is_seated(workers: Seq<Worker>) -> bool {
    &&& 1 <= workers.len() <= u32::MAX
    &&& forall|i: int|
        0 <= i < workers.len() ==> (#[trigger] workers[i]).id == i && workers[i].max
            == workers.len()
}

/// A chain: each worker points at the next position, and the last worker at
/// nothing.
pub open spec fn is_chain(workers: Seq<Worker>) -> bool {
    &&& is_seated(workers)
    &&& forall|i: int|
        0 <= i < workers.len() ==> (#[trigger] workers[i]).next == if i + 1 < workers.len() {
            Some((i + 1) as u32)
        } else {
            None
        }
}

/// A closed ring: each worker points at the next position, and the last
/// worker at the first.
pub open spec fn is_cycle(workers: Seq<Worker>) -> bool {
    &&& is_seated(workers)
    &&& forall|i: int|
        0 <= i < workers.len() ==> (#[trigger] workers[i]).next == Some(
            succ(i, workers.len() as int) as u32,
        )
}

/// Whether no worker has stopped and each has `msgs` trips to count.
pub open spec fn is_fresh(workers: Seq<Worker>, msgs: u32) -> bool {
    forall|i: int|
        0 <= i < workers.len() ==> !(#[trigger] workers[i]).stopped && workers[i].msgs == msgs
}

/// The workers of one benchmark run, by position.
#[derive(Debug)]
pub struct Ring {
    pub workers: Vec<Worker>,
}

/// First phase of the construction: the worker at position 0 is created,
/// and each worker creates its successor as it starts, down to the last.
/// The result is a chain of `n` workers that have not stopped, each with
/// `msgs` trips to count. A ring of no workers is refused.
pub fn init_ring(n: u32, msgs: u32) -> (r: Result<Ring, ConfigError>)
    ensures
        r is Err <==> n == 0,
        r is Err ==> r->Err_0 == ConfigError::EmptyRing,
        r is Ok ==> r->Ok_0.workers@.len() == n && is_chain(r->Ok_0.workers@) && is_fresh(
            r->Ok_0.workers@,
            msgs,
        ),
{
    if n == 0 {
        return Err(ConfigError::EmptyRing);
    }
    let mut workers: Vec<Worker> = Vec::new();
    let mut current = Worker::new(0, n, msgs);
    loop
        invariant_except_break
            current == (Worker { next: None, id: current.id, max: n, msgs, stopped: false }),
            current.id < n,
            workers@.len() == current.id,
            forall|i: int|
                0 <= i < workers@.len() ==> #[trigger] workers@[i] == (Worker {
                    next: Some((i + 1) as u32),
                    id: i as u32,
                    max: n,
                    msgs,
                    stopped: false,
                }),
        ensures
            workers@.len() == n,
            is_chain(workers@),
            is_fresh(workers@, msgs),
        decreases n - current.id,
    {
        let created = current.started();
        workers.push(current);
        match created {
            Some(successor) => {
                current = successor;
            },
            None => {
                break ;
            },
        }
    }
    Ok(Ring { workers })
}

impl Ring {
    /// Number of workers.
    pub fn size(&self) -> (n: usize)
        ensures
            n == self.workers@.len(),
    {
        self.workers.len()
    }

    /// Second phase of the construction: `CloseRing` enters at position 0
    /// and is passed along the chain to the worker without a successor,
    /// which takes the first worker as its successor. Only that link
    /// changes. Returns the number of workers that passed the message on.
    pub fn close(&mut self) -> (hops: u32)
        requires
            is_chain(old(self).workers@),
            is_fresh(old(self).workers@, old(self).workers@[0].msgs),
        ensures
            is_cycle(final(self).workers@),
            hops == old(self).workers@.len() - 1,
            final(self).workers@ == old(self).workers@.update(
                hops as int,
                Worker { next: Some(0u32), ..old(self).workers@[hops as int] },
            ),
    {
        let ghost before = self.workers@;
        let mut at: u32 = 0;
        let mut msg = Message::CloseRing { first: 0 };
        loop
            invariant_except_break
                self.workers@ == before,
                is_chain(before),
                is_fresh(before, before[0].msgs),
                at < before.len(),
                msg == (Message::CloseRing { first: 0 }),
            ensures
                at == before.len() - 1,
                self.workers@ == before.update(
                    at as int,
                    Worker { next: Some(0u32), ..before[at as int] },
                ),
            decreases before.len() - at,
        {
            let mut w = self.workers[at as usize];
            match w.handle(msg) {
                Ok(Action::Forward { to, msg: passed }) => {
                    at = to;
                    msg = passed;
                },
                _ => {
                    self.workers.set(at as usize, w);
                    break ;
                },
            }
        }
        at
    }

    /// Builds the closed ring of `n` workers, each with `msgs` trips to
    /// count: the chain first, then the closing pass.
    pub fn build(n: u32, msgs: u32) -> (r: Result<Ring, ConfigError>)
        ensures
            r is Err <==> n == 0,
            r is Err ==> r->Err_0 == ConfigError::EmptyRing,
            r is Ok ==> r->Ok_0.workers@.len() == n && is_cycle(r->Ok_0.workers@) && is_fresh(
                r->Ok_0.workers@,
                msgs,
            ),
    {
        match init_ring(n, msgs) {
            Err(e) => Err(e),
            Ok(mut ring) => {
                let _ = ring.close();
                Ok(ring)
            },
        }
    }
}

/// The position reached from `from` by following the successor links
/// `steps` times, where every link on the way exists.
pub open spec fn follow(workers: Seq<Worker>, from: int, steps: nat) -> Option<int>
    decreases steps,
{
    if steps == 0 {
        Some(from)
    } else if 0 <= from < workers.len() {
        match workers[from].next {
            Some(to) => follow(workers, to as int, (steps - 1) as nat),
            None => None,
        }
    } else {
        None
    }
}

/// In a closed ring, following the links from position `from` leads back to
/// position 0 after as many steps as there are positions from `from` on.
pub proof fn lemma_follow_home(workers: Seq<Worker>, from: int)
    requires
        is_cycle(workers),
        0 <= from < workers.len(),
    ensures
        follow(workers, from, (workers.len() - from) as nat) == Some(0int),
    decreases workers.len() - from,
{
    let to = succ(from, workers.len() as int);
    assert(workers[from].next == Some(to as u32));
    if from + 1 < workers.len() {
        lemma_follow_home(workers, from + 1);
    } else {
        assert(follow(workers, 0, 0) == Some(0int));
    }
}

/// In a closed ring, following the links from position `from` for fewer
/// steps than lead to the end of the ring reaches the position that many
/// places further on.
pub proof fn lemma_follow_along(workers: Seq<Worker>, from: int, steps: nat)
    requires
        is_cycle(workers),
        0 <= from,
        from + steps < workers.len(),
    ensures
        follow(workers, from, steps) == Some(from + steps),
    decreases steps,
{
    if steps > 0 {
        assert(workers[from].next == Some(succ(from, workers.len() as int) as u32));
        lemma_follow_along(workers, from + 1, (steps - 1) as nat);
    }
}

/// The ring is closed: from the first worker, following the successor
/// links as many times as the ring has workers leads back to the first
/// worker, and fewer steps lead to the worker at that position, so the
/// walk visits every worker once.
pub proof fn lemma_ring_is_closed(ring: Ring)
    requires
        is_cycle(ring.workers@),
    ensures
        follow(ring.workers@, 0, ring.workers@.len()) == Some(0int),
        forall|k: nat|
            k < ring.workers@.len() ==> #[trigger] follow(ring.workers@, 0, k) == Some(
                k as int,
            ),
{
    lemma_follow_home(ring.workers@, 0);
    assert forall|k: nat| k < ring.workers@.len() implies #[trigger] follow(
        ring.workers@,
        0,
        k,
    ) == Some(k as int) by {
        lemma_follow_along(ring.workers@, 0, k);
    }
}

/// One delivery: the worker at position `to` handles `msg`. Where it
/// passes a message on, the result holds the workers after the delivery,
/// the position that the message goes to, and the message.
pub open spec fn deliver(workers: Seq<Worker>, to: int, msg: Message) -> Option<
    (Seq<Worker>, int, Message),
> {
    if 0 <= to < workers.len() {
        match workers[to].react(msg) {
            Ok((after, Action::Forward { to: dest, msg: passed })) => Some(
                (workers.update(to, after), dest as int, passed),
            ),
            _ => None,
        }
    } else {
        None
    }
}

/// `hops` deliveries in a row, each of the message that the one before
/// passed on.
pub open spec fn travel(workers: Seq<Worker>, to: int, msg: Message, hops: nat) -> Option<
    (Seq<Worker>, int, Message),
>
    decreases hops,
{
    if hops == 0 {
        Some((workers, to, msg))
    } else {
        match deliver(workers, to, msg) {
            Some((after, dest, passed)) => travel(after, dest, passed, (hops - 1) as nat),
            None => None,
        }
    }
}

/// A payload that is handed to a worker behind the first travels to the
/// first worker unchanged, and changes no worker on its way.
pub proof fn lemma_payload_reaches_first(workers: Seq<Worker>, from: int, data: String)
    requires
        is_cycle(workers),
        1 <= from < workers.len(),
        forall|i: int| 0 <= i < workers.len() ==> !(#[trigger] workers[i]).stopped,
    ensures
        travel(workers, from, Message::Data { data }, (workers.len() - from) as nat) == Some(
            (workers, 0int, Message::Data { data }),
        ),
    decreases workers.len() - from,
{
    let msg = Message::Data { data };
    assert(workers[from].next == Some(succ(from, workers.len() as int) as u32));
    assert(workers.update(from, workers[from]) =~= workers);
    if from + 1 < workers.len() {
        lemma_payload_reaches_first(workers, from + 1, data);
    } else {
        assert(travel(workers, 0, msg, 0) == Some((workers, 0int, msg)));
    }
}

/// Round-trip identity: in a closed ring in which no worker has stopped
/// and the first worker has a trip left, a payload handed to the first
/// worker is back at the first worker after as many deliveries as the ring
/// has workers, with its content unchanged. The round trip takes exactly
/// one trip off the first worker's budget and changes nothing else.
pub proof fn lemma_round_trip(ring: Ring, data: String)
    requires
        is_cycle(ring.workers@),
        forall|i: int| 0 <= i < ring.workers@.len() ==> !(#[trigger] ring.workers@[i]).stopped,
        ring.workers@[0].msgs >= 1,
    ensures
        travel(ring.workers@, 0, Message::Data { data }, ring.workers@.len()) == Some(
            (
                ring.workers@.update(
                    0,
                    Worker { msgs: (ring.workers@[0].msgs - 1) as u32, ..ring.workers@[0] },
                ),
                0int,
                Message::Data { data },
            ),
        ),
{
    let workers = ring.workers@;
    let msg = Message::Data { data };
    let first = Worker { msgs: (workers[0].msgs - 1) as u32, ..workers[0] };
    let after = workers.update(0, first);
    assert(workers[0].next == Some(succ(0, workers.len() as int) as u32));
    assert(deliver(workers, 0, msg) == Some((after, succ(0, workers.len() as int), msg)));
    if workers.len() == 1 {
        assert(travel(after, 0, msg, 0) == Some((after, 0int, msg)));
    } else {
        assert forall|i: int| 0 <= i < after.len() implies (#[trigger] after[i]).next == Some(
            succ(i, after.len() as int) as u32,
        ) by {
            assert(workers[i].next == Some(succ(i, workers.len() as int) as u32));
        }
        assert(is_cycle(after)) by {
            assert forall|i: int| 0 <= i < after.len() implies (#[trigger] after[i]).id == i
                && after[i].max == after.len() by {
                assert(workers[i].id == i);
            }
        }
        lemma_payload_reaches_first(after, 1, data);
    }
}

} // verus!
