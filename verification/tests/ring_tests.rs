use ring_bench::bench::{ConfigError, Spec};
use ring_bench::ring::{init_ring, Ring};
use ring_bench::scheduler::{run, simulate, Envelope, Scheduler};
use ring_bench::worker::{Message, Worker};

fn data(s: &str) -> Message {
    Message::Data { data: String::from(s) }
}

#[test]
fn chain_of_three() {
    let ring = init_ring(3, 7).unwrap();
    assert_eq!(ring.size(), 3);
    assert_eq!(
        ring.workers,
        vec![
            Worker { next: Some(1), id: 0, max: 3, msgs: 7, stopped: false },
            Worker { next: Some(2), id: 1, max: 3, msgs: 7, stopped: false },
            Worker { next: None, id: 2, max: 3, msgs: 7, stopped: false },
        ]
    );
}

#[test]
fn ring_of_no_workers_is_refused() {
    assert_eq!(init_ring(0, 7).err(), Some(ConfigError::EmptyRing));
    assert_eq!(Ring::build(0, 7).err(), Some(ConfigError::EmptyRing));
}

#[test]
fn closing_links_the_last_worker_to_the_first() {
    let mut ring = init_ring(4, 1).unwrap();
    let hops = ring.close();
    assert_eq!(hops, 3);
    assert_eq!(ring.workers[3].next, Some(0));
    assert_eq!(ring.workers[0].next, Some(1));
    assert_eq!(ring.workers[2].next, Some(3));
}

#[test]
fn single_worker_is_its_own_successor() {
    let mut ring = init_ring(1, 1).unwrap();
    assert_eq!(ring.workers[0].next, None);
    assert_eq!(ring.close(), 0);
    assert_eq!(ring.workers[0].next, Some(0));
    let built = Ring::build(1, 5).unwrap();
    assert_eq!(built.workers, vec![Worker { next: Some(0), id: 0, max: 1, msgs: 5, stopped: false }]);
}

#[test]
fn following_next_returns_to_the_first_worker() {
    for n in [1u32, 2, 5, 64] {
        let ring = Ring::build(n, 0).unwrap();
        let mut at: u32 = 0;
        for step in 0..n {
            assert_eq!(at, step);
            at = ring.workers[at as usize].next.unwrap();
        }
        assert_eq!(at, 0);
    }
}

#[test]
fn payload_is_unchanged_after_a_round_trip() {
    let mut s = Scheduler::new(Ring::build(5, 3).unwrap());
    s.seed(1, &String::from("payload"));
    for _ in 0..5 {
        s.step();
    }
    assert_eq!(s.queue.len(), 1);
    assert_eq!(s.queue[0], Envelope { to: 0, msg: data("payload") });
    assert_eq!(s.trips, 1);
    assert_eq!(s.ring.workers[0].msgs, 2);
    assert!(!s.finished);
}

#[test]
fn seeding_posts_to_the_first_worker() {
    let mut s = Scheduler::new(Ring::build(3, 3).unwrap());
    s.seed(2, &String::from("ab"));
    assert_eq!(s.queue.len(), 2);
    assert_eq!(s.queue[0], Envelope { to: 0, msg: data("ab") });
    assert_eq!(s.queue[1], Envelope { to: 0, msg: data("ab") });
    s.seed(0, &String::from("cd"));
    assert_eq!(s.queue.len(), 2);
}

#[test]
fn one_worker_three_trips() {
    let mut s = Scheduler::new(Ring::build(1, 3).unwrap());
    s.seed(1, &String::from("x"));
    for delivered in 1..=3u32 {
        s.step();
        assert_eq!(s.trips, delivered);
        assert!(!s.finished);
        assert_eq!(s.queue[0], Envelope { to: 0, msg: data("x") });
    }
    s.step();
    assert!(s.finished);
    assert_eq!(s.trips, 3);
    assert_eq!(s.queue.len(), 1);
    assert_eq!(s.queue[0], Envelope { to: 0, msg: Message::Terminate });
    s.shutdown();
    assert!(s.queue.is_empty());
    assert!(s.ring.workers[0].stopped);
    let r = run(&Spec { procs: 1, messages: 3, paralell: 1, size: 1 }).unwrap();
    assert!(r.run > 0);
}

#[test]
fn no_trips_ends_at_the_first_delivery() {
    let mut s = Scheduler::new(Ring::build(5, 0).unwrap());
    s.seed(1, &String::from("x"));
    s.step();
    assert!(s.finished);
    assert_eq!(s.trips, 0);
    assert!(s.ring.workers[0].stopped);
    assert_eq!(s.queue[0], Envelope { to: 1, msg: Message::Terminate });
    let done = simulate(&Spec { procs: 5, messages: 0, paralell: 3, size: 2 }).unwrap();
    assert!(done.finished);
    assert_eq!(done.trips, 0);
}

#[test]
fn four_payloads_share_one_budget() {
    let done = simulate(&Spec { procs: 10, messages: 100, paralell: 4, size: 10 }).unwrap();
    assert!(done.finished);
    assert_eq!(done.trips, 100);
    assert_eq!(done.ring.workers[0].msgs, 0);
    assert!(done.queue.is_empty());
    assert!(done.ring.workers.iter().all(|w| w.stopped));
}

#[test]
fn run_stops_when_the_budget_is_spent() {
    let mut s = Scheduler::new(Ring::build(3, 2).unwrap());
    s.seed(2, &String::from("x"));
    s.run();
    assert!(s.finished);
    assert_eq!(s.trips, 2);
    assert_eq!(s.queue.len(), 2);
    assert_eq!(s.ring.workers[0], Worker { next: Some(1), id: 0, max: 3, msgs: 0, stopped: true });
    assert_eq!(s.ring.workers[1], Worker { next: Some(2), id: 1, max: 3, msgs: 2, stopped: false });
    let terminations = s.queue.iter().filter(|e| e.msg == Message::Terminate).count();
    assert_eq!(terminations, 1);
    assert!(s.queue.iter().all(|e| e.msg == Message::Terminate || e.msg == data("x")));
}

#[test]
fn single_payload_makes_exactly_the_asked_trips() {
    for trips in [0u32, 1, 2, 17] {
        let done = simulate(&Spec { procs: 4, messages: trips, paralell: 1, size: 3 }).unwrap();
        assert_eq!(done.trips, trips);
        assert_eq!(done.ring.workers[0].msgs, 0);
        assert!(done.finished);
    }
}

#[test]
fn nothing_seeded_means_nothing_counted() {
    let mut s = Scheduler::new(Ring::build(3, 9).unwrap());
    s.run();
    assert!(!s.finished);
    assert_eq!(s.trips, 0);
    assert!(s.queue.is_empty());
    s.shutdown();
    assert!(s.queue.is_empty());
    assert!(s.ring.workers.iter().all(|w| w.stopped));
    assert_eq!(s.ring.workers[0].msgs, 9);
    let done = simulate(&Spec { procs: 3, messages: 9, paralell: 0, size: 1 }).unwrap();
    assert!(!done.finished);
    assert_eq!(done.trips, 0);
    assert!(done.ring.workers.iter().all(|w| w.stopped && w.msgs == 9));
}

#[test]
fn teardown_stops_every_worker() {
    for (procs, paralell) in [(1u32, 1u32), (1, 3), (2, 1), (7, 5), (50, 16)] {
        let done = simulate(&Spec { procs, messages: 6, paralell, size: 1 }).unwrap();
        assert_eq!(done.ring.workers.len(), procs as usize);
        assert!(done.queue.is_empty());
        assert!(done.ring.workers.iter().all(|w| w.stopped));
        for (i, w) in done.ring.workers.iter().enumerate() {
            assert_eq!(w.id as usize, i);
            assert_eq!(w.next, Some(((i + 1) % procs as usize) as u32));
            assert_eq!(w.msgs, if i == 0 { 0 } else { 6 });
        }
    }
}

#[test]
fn simulate_refuses_an_empty_ring() {
    assert_eq!(
        simulate(&Spec { procs: 0, messages: 1, paralell: 1, size: 1 }).err(),
        Some(ConfigError::EmptyRing)
    );
}

#[test]
fn timed_run_reports_name_and_parameters() {
    let spec = Spec { procs: 10, messages: 100, paralell: 4, size: 10 };
    let r = run(&spec).unwrap();
    assert_eq!(r.name, "rust_scheduler");
    assert_eq!(r.spec, spec);
    assert_eq!(run(&Spec { procs: 0, messages: 1, paralell: 1, size: 1 }).err(), Some(ConfigError::EmptyRing));
}

#[test]
fn more_trips_take_longer_to_deliver() {
    let mut few = Scheduler::new(Ring::build(4, 2).unwrap());
    few.seed(1, &String::from("x"));
    let mut steps_few = 0;
    while !few.finished {
        few.step();
        steps_few += 1;
    }
    let mut many = Scheduler::new(Ring::build(4, 3).unwrap());
    many.seed(1, &String::from("x"));
    let mut steps_many = 0;
    while !many.finished {
        many.step();
        steps_many += 1;
    }
    assert_eq!(steps_few, 2 * 4 + 1);
    assert_eq!(steps_many, 3 * 4 + 1);
}
