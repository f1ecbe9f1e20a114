//! The loop of a worker context as a state machine.
//!
//! A context is idle, processing one connection, or stopped. Messages wait
//! in its inbox in the order in which they were delivered; the context takes
//! the next one only when it is idle, so a stop message never cuts a request
//! short and the requests queued before it are handled first.
//!
//! `C` is the type of a connection. The library carries connections from the
//! inbox to the caller and never looks inside them.

use std::collections::VecDeque;
use vstd::prelude::*;

verus! {

/// Where a context is in its loop.
#[derive(Clone, Copy, Debug, PartialEq, Eq, Structural)]
pub enum ContextState {
    /// Waiting for a message.
    Idle,
    /// Handling one connection.
    Processing,
    /// Stopped for good.
    Stopped,
}

/// What is delivered to a context.
pub enum Message<C> {
    /// A connection and the bytes of the request read from it.
    Request { connection: C, bytes: String },
    /// The request to stop.
    Stop,
}

/// What a context is to do next.
pub enum ContextStep<C> {
    /// Wait for a message and deliver it.
    Wait,
    /// Handle this request, write the response, and report back with
    /// [`ExecutionContext::finished`].
    Handle { connection: C, bytes: String },
    /// A request is being handled: finish it first.
    Busy,
    /// Leave the loop.
    Exit,
}

/// The state of a context as plain values.
pub struct ContextView<C> {
    pub state: ContextState,
    /// The messages that wait, oldest first.
    pub inbox: Seq<Message<C>>,
}

/// What a context has done by the time it next waits or stops.
pub struct Run<C> {
    /// The requests that it handled, in order.
    pub handled: Seq<Message<C>>,
    /// The state that it is left in.
    pub end: ContextView<C>,
}

impl<C> ContextView<C> {
    /// Whether a context in this state takes the message.
    pub open spec fn accepts(self) -> bool {
        self.state != ContextState::Stopped
    }

    /// The state after `message` has been delivered: it is last in the
    /// inbox, unless the context has stopped, which takes no message.
    pub open spec fn after_deliver(self, message: Message<C>) -> ContextView<C> {
        if self.accepts() {
            ContextView { state: self.state, inbox: self.inbox.push(message) }
        } else {
            self
        }
    }

    /// What the context is to do next.
    pub open spec fn step(self) -> ContextStep<C> {
        match self.state {
            ContextState::Stopped => ContextStep::Exit,
            ContextState::Processing => ContextStep::Busy,
            ContextState::Idle => if self.inbox.len() == 0 {
                ContextStep::Wait
            } else {
                match self.inbox[0] {
                    Message::Stop => ContextStep::Exit,
                    Message::Request { connection, bytes } => ContextStep::Handle { connection, bytes },
                }
            },
        }
    }

    /// The state after the context has been told what to do next: an idle
    /// context has taken the oldest message from its inbox and is processing
    /// or has stopped.
    pub open spec fn after_step(self) -> ContextView<C> {
        if self.state == ContextState::Idle && self.inbox.len() > 0 {
            ContextView {
                state: match self.inbox[0] {
                    Message::Stop => ContextState::Stopped,
                    Message::Request { .. } => ContextState::Processing,
                },
                inbox: self.inbox.skip(1),
            }
        } else {
            self
        }
    }

    /// The state after the response has been written: a processing context
    /// is idle again.
    pub open spec fn after_finished(self) -> ContextView<C> {
        if self.state == ContextState::Processing {
            ContextView { state: ContextState::Idle, inbox: self.inbox }
        } else {
            self
        }
    }

    /// Runs the loop on what is in the inbox: finishes the request in hand,
    /// then takes message after message until the inbox is empty or the
    /// context has stopped.
    pub open spec fn run(self) -> Run<C>
        decreases
            self.inbox.len(),
            (if self.state == ContextState::Processing {
                1nat
            } else {
                0nat
            }),
    {
        match self.state {
            ContextState::Stopped => Run { handled: Seq::empty(), end: self },
            ContextState::Processing => self.after_finished().run(),
            ContextState::Idle => if self.inbox.len() == 0 {
                Run { handled: Seq::empty(), end: self }
            } else {
                match self.inbox[0] {
                    Message::Stop => Run { handled: Seq::empty(), end: self.after_step() },
                    Message::Request { .. } => {
                        let rest = self.after_step().run();
                        Run { handled: seq![self.inbox[0]] + rest.handled, end: rest.end }
                    },
                }
            },
        }
    }
}

/// Whether every message of `messages` is a request.
pub open spec fn all_requests<C>(messages: Seq<Message<C>>) -> bool {
    forall|i: int| 0 <= i < messages.len() ==> (#[trigger] messages[i]) is Request
}

/// A context that is not stopped and has only requests queued, followed by
/// one stop message, handles every one of them, in order, and then stops.
pub proof fn lemma_run_to_stop<C>(s: ContextView<C>)
    requires
        s.accepts(),
        s.inbox.len() > 0,
        s.inbox.last() is Stop,
        all_requests(s.inbox.drop_last()),
    ensures
        s.run().handled == s.inbox.drop_last(),
        s.run().end.state == ContextState::Stopped,
        s.run().end.inbox.len() == 0,
    decreases
        s.inbox.len(),
        (if s.state == ContextState::Processing {
            1nat
        } else {
            0nat
        }),
{
    if s.state == ContextState::Processing {
        lemma_run_to_stop(s.after_finished());
    } else if s.inbox.len() == 1 {
        assert(s.inbox[0] == s.inbox.last());
        assert(s.inbox.drop_last() =~= Seq::<Message<C>>::empty());
    } else {
        let next = s.after_step();
        assert(s.inbox[0] == s.inbox.drop_last()[0]);
        assert(next.inbox.last() == s.inbox.last());
        assert(next.inbox.drop_last() =~= s.inbox.drop_last().skip(1));
        assert forall|i: int| 0 <= i < next.inbox.drop_last().len() implies (
        #[trigger] next.inbox.drop_last()[i]) is Request by {
            assert(next.inbox.drop_last()[i] == s.inbox.drop_last()[i + 1]);
        }
        lemma_run_to_stop(next);
        assert(seq![s.inbox[0]] + s.inbox.drop_last().skip(1) =~= s.inbox.drop_last());
    }
}

/// A context that is sent the stop message while requests are queued
/// handles all of them, in the order in which they were queued, before it
/// stops. A request that is being handled at that moment is finished first.
pub proof fn law_graceful_stop<C>(s: ContextView<C>)
    requires
        s.accepts(),
        all_requests(s.inbox),
    ensures
        s.after_deliver(Message::Stop).run().handled == s.inbox,
        s.after_deliver(Message::Stop).run().end.state == ContextState::Stopped,
{
    let sent = s.after_deliver(Message::Stop);
    assert(sent.inbox.drop_last() =~= s.inbox);
    lemma_run_to_stop(sent);
}

/// One worker context: its state and its inbox.
pub struct ExecutionContext<C> {
    state: ContextState,
    inbox: VecDeque<Message<C>>,
}

impl<C> View for ExecutionContext<C> {
    type V = ContextView<C>;

    closed spec fn view(&self) -> ContextView<C> {
        ContextView { state: self.state, inbox: self.inbox@ }
    }
}

impl<C> ExecutionContext<C> {
    /// An idle context with an empty inbox.
    pub fn new() -> (context: Self)
        ensures
            context@.state == ContextState::Idle,
            context@.inbox == Seq::<Message<C>>::empty(),
    {
        ExecutionContext { state: ContextState::Idle, inbox: VecDeque::new() }
    }

    /// The state of the context.
    pub fn state(&self) -> (state: ContextState)
        ensures
            state == self@.state,
    {
        self.state
    }

    /// Number of messages that wait.
    pub fn pending(&self) -> (n: usize)
        ensures
            n == self@.inbox.len(),
    {
        self.inbox.len()
    }

    /// Puts `message` last in the inbox. A stopped context takes no message:
    /// the result is `false` and the message is dropped.
    pub fn deliver(&mut self, message: Message<C>) -> (accepted: bool)
        ensures
            accepted == old(self)@.accepts(),
            final(self)@ == old(self)@.after_deliver(message),
    {
        match self.state {
            ContextState::Stopped => false,
            _ => {
                self.inbox.push_back(message);
                true
            },
        }
    }

    /// Says what the context is to do next. An idle context takes the oldest
    /// message from its inbox: with a request it starts processing, with the
    /// stop message it stops.
    pub fn next(&mut self) -> (step: ContextStep<C>)
        ensures
            step == old(self)@.step(),
            final(self)@ == old(self)@.after_step(),
    {
        match self.state {
            ContextState::Stopped => ContextStep::Exit,
            ContextState::Processing => ContextStep::Busy,
            ContextState::Idle => {
                let ghost before = self.inbox@;
                match self.inbox.pop_front() {
                    None => ContextStep::Wait,
                    Some(message) => {
                        assert(self.inbox@ =~= before.skip(1));
                        match message {
                            Message::Stop => {
                                self.state = ContextState::Stopped;
                                ContextStep::Exit
                            },
                            Message::Request { connection, bytes } => {
                                self.state = ContextState::Processing;
                                ContextStep::Handle { connection, bytes }
                            },
                        }
                    },
                }
            },
        }
    }

    /// Records that the response has been written and the connection
    /// released: a processing context is idle again.
    pub fn finished(&mut self)
        ensures
            final(self)@ == old(self)@.after_finished(),
    {
        match self.state {
            ContextState::Processing => {
                self.state = ContextState::Idle;
            },
            _ => {},
        }
    }
}

} // verus!
