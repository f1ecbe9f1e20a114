use fastry::context::{ContextState, ContextStep, ExecutionContext, Message};

fn request(n: u32) -> Message<u32> {
    Message::Request { connection: n, bytes: format!("request {}", n) }
}

fn handled(step: ContextStep<u32>) -> Option<(u32, String)> {
    match step {
        ContextStep::Handle { connection, bytes } => Some((connection, bytes)),
        _ => None,
    }
}

#[test]
fn new_context_is_idle_and_waits() {
    let mut c: ExecutionContext<u32> = ExecutionContext::new();
    assert_eq!(c.state(), ContextState::Idle);
    assert_eq!(c.pending(), 0);
    assert!(matches!(c.next(), ContextStep::Wait));
    assert_eq!(c.state(), ContextState::Idle);
}

#[test]
fn request_is_handled_and_the_context_is_idle_again() {
    let mut c: ExecutionContext<u32> = ExecutionContext::new();
    assert!(c.deliver(request(7)));
    assert_eq!(c.pending(), 1);
    assert_eq!(handled(c.next()), Some((7, "request 7".to_string())));
    assert_eq!(c.state(), ContextState::Processing);
    assert!(matches!(c.next(), ContextStep::Busy));
    assert_eq!(c.state(), ContextState::Processing);
    c.finished();
    assert_eq!(c.state(), ContextState::Idle);
    assert!(matches!(c.next(), ContextStep::Wait));
}

#[test]
fn graceful_stop_handles_the_three_queued_requests_first() {
    let mut c: ExecutionContext<u32> = ExecutionContext::new();
    assert!(c.deliver(request(1)));
    assert!(c.deliver(request(2)));
    assert!(c.deliver(request(3)));
    assert!(c.deliver(Message::Stop));
    let mut order = Vec::new();
    loop {
        match c.next() {
            ContextStep::Handle { connection, .. } => {
                assert_eq!(c.state(), ContextState::Processing);
                order.push(connection);
                c.finished();
            }
            ContextStep::Exit => break,
            _ => panic!("the context neither handled nor stopped"),
        }
    }
    assert_eq!(order, vec![1, 2, 3]);
    assert_eq!(c.state(), ContextState::Stopped);
    assert_eq!(c.pending(), 0);
}

#[test]
fn stop_does_not_preempt_the_request_in_hand() {
    let mut c: ExecutionContext<u32> = ExecutionContext::new();
    c.deliver(request(1));
    assert!(handled(c.next()).is_some());
    assert!(c.deliver(Message::Stop));
    assert_eq!(c.state(), ContextState::Processing);
    assert!(matches!(c.next(), ContextStep::Busy));
    c.finished();
    assert_eq!(c.state(), ContextState::Idle);
    assert!(matches!(c.next(), ContextStep::Exit));
    assert_eq!(c.state(), ContextState::Stopped);
}

#[test]
fn stopped_context_takes_no_message() {
    let mut c: ExecutionContext<u32> = ExecutionContext::new();
    c.deliver(Message::Stop);
    assert!(matches!(c.next(), ContextStep::Exit));
    assert!(!c.deliver(request(9)));
    assert_eq!(c.pending(), 0);
    assert!(matches!(c.next(), ContextStep::Exit));
    c.finished();
    assert_eq!(c.state(), ContextState::Stopped);
}

#[test]
fn finished_without_a_request_in_hand_changes_nothing() {
    let mut c: ExecutionContext<u32> = ExecutionContext::new();
    c.deliver(request(1));
    c.finished();
    assert_eq!(c.state(), ContextState::Idle);
    assert_eq!(c.pending(), 1);
}
