use ring_bench::worker::{thread_loop, Action, Message, ProtocolViolation, Worker};

fn data(s: &str) -> Message {
    Message::Data { data: String::from(s) }
}

fn linked(id: u32, max: u32, msgs: u32) -> Worker {
    Worker { next: Some((id + 1) % max), id, max, msgs, stopped: false }
}

#[test]
fn new_worker_has_no_successor() {
    let w = Worker::new(2, 5, 7);
    assert_eq!(w, Worker { next: None, id: 2, max: 5, msgs: 7, stopped: false });
}

#[test]
fn started_creates_the_successor() {
    let mut w = Worker::new(0, 3, 9);
    let created = w.started();
    assert_eq!(created, Some(Worker { next: None, id: 1, max: 3, msgs: 9, stopped: false }));
    assert_eq!(w.next, Some(1));
}

#[test]
fn last_worker_creates_none() {
    let mut w = Worker::new(2, 3, 9);
    assert_eq!(w.started(), None);
    assert_eq!(w, Worker::new(2, 3, 9));
    let mut only = Worker::new(0, 1, 9);
    assert_eq!(only.started(), None);
    assert_eq!(only.next, None);
}

#[test]
fn forwarder_passes_data_unchanged() {
    let mut w = linked(3, 5, 2);
    let r = w.handle(data("payload"));
    assert_eq!(r, Ok(Action::Forward { to: 4, msg: data("payload") }));
    assert_eq!(w, linked(3, 5, 2));
}

#[test]
fn first_worker_counts_a_trip() {
    let mut w = linked(0, 5, 2);
    assert_eq!(w.handle(data("p")), Ok(Action::Forward { to: 1, msg: data("p") }));
    assert_eq!(w.msgs, 1);
    assert_eq!(w.handle(data("p")), Ok(Action::Forward { to: 1, msg: data("p") }));
    assert_eq!(w.msgs, 0);
    assert!(!w.stopped);
}

#[test]
fn first_worker_finishes_when_the_budget_is_spent() {
    let mut w = linked(0, 5, 0);
    assert_eq!(w.handle(data("p")), Ok(Action::Finish { to: 1 }));
    assert_eq!(w.msgs, 0);
    assert!(w.stopped);
}

#[test]
fn terminate_is_passed_on_once() {
    let mut w = linked(4, 5, 2);
    assert_eq!(w.handle(Message::Terminate), Ok(Action::Stop { to: 0 }));
    assert!(w.stopped);
    assert_eq!(w.handle(Message::Terminate), Ok(Action::Discard));
    assert_eq!(w.handle(data("late")), Ok(Action::Discard));
    assert_eq!(w.handle(Message::InitDone), Ok(Action::Discard));
}

#[test]
fn close_ring_is_passed_along_the_chain() {
    let mut w = Worker { next: Some(2), ..Worker::new(1, 3, 0) };
    assert_eq!(
        w.handle(Message::CloseRing { first: 0 }),
        Ok(Action::Forward { to: 2, msg: Message::CloseRing { first: 0 } })
    );
    assert_eq!(w.next, Some(2));
}

#[test]
fn close_ring_ends_at_the_last_worker() {
    let mut w = Worker::new(2, 3, 0);
    assert_eq!(w.handle(Message::CloseRing { first: 0 }), Ok(Action::Closed));
    assert_eq!(w.next, Some(0));
}

#[test]
fn data_before_closure_is_a_violation() {
    let mut w = Worker::new(2, 3, 4);
    assert_eq!(w.handle(data("early")), Err(ProtocolViolation::NoSuccessor { id: 2 }));
    assert_eq!(w, Worker::new(2, 3, 4));
    assert_eq!(w.handle(Message::Terminate), Err(ProtocolViolation::NoSuccessor { id: 2 }));
    assert_eq!(w, Worker::new(2, 3, 4));
}

#[test]
fn init_done_is_a_violation() {
    let mut w = linked(1, 3, 4);
    assert_eq!(w.handle(Message::InitDone), Err(ProtocolViolation::UnexpectedInitDone { id: 1 }));
    assert_eq!(w, linked(1, 3, 4));
}

#[test]
fn message_clone_is_equal() {
    let m = data("abc");
    assert_eq!(m.clone(), m);
    assert_eq!(Message::CloseRing { first: 3 }.clone(), Message::CloseRing { first: 3 });
    assert_eq!(Message::InitDone.clone(), Message::InitDone);
    assert_eq!(Message::Terminate.clone(), Message::Terminate);
}

#[test]
fn loop_stops_at_terminate() {
    let mut w = linked(1, 3, 0);
    let inbox = vec![data("a"), data("b"), Message::Terminate, data("never")];
    let actions = thread_loop(&mut w, &inbox).unwrap();
    assert_eq!(
        actions,
        vec![
            Action::Forward { to: 2, msg: data("a") },
            Action::Forward { to: 2, msg: data("b") },
            Action::Stop { to: 2 },
        ]
    );
    assert!(w.stopped);
}

#[test]
fn loop_takes_all_where_nothing_stops_it() {
    let mut w = linked(0, 2, 5);
    let inbox = vec![data("a"), data("b")];
    let actions = thread_loop(&mut w, &inbox).unwrap();
    assert_eq!(actions.len(), 2);
    assert_eq!(w.msgs, 3);
    assert!(!w.stopped);
    let none: Vec<Message> = Vec::new();
    assert_eq!(thread_loop(&mut w, &none), Ok(Vec::new()));
    assert_eq!(w.msgs, 3);
}

#[test]
fn loop_of_the_first_worker_finishes() {
    let mut w = linked(0, 2, 1);
    let inbox = vec![data("a"), data("b"), data("c")];
    let actions = thread_loop(&mut w, &inbox).unwrap();
    assert_eq!(actions, vec![Action::Forward { to: 1, msg: data("a") }, Action::Finish { to: 1 }]);
    assert!(w.stopped);
    assert_eq!(w.msgs, 0);
}

#[test]
fn loop_reports_the_violation_and_restores_the_worker() {
    let mut w = linked(0, 2, 5);
    let inbox = vec![data("a"), Message::InitDone, data("c")];
    assert_eq!(thread_loop(&mut w, &inbox), Err(ProtocolViolation::UnexpectedInitDone { id: 0 }));
    assert_eq!(w, linked(0, 2, 5));
}
