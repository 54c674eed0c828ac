//! The decisions of the actor that owns the one connection and serves the
//! commands of many callers over it, strictly one at a time.
use vstd::prelude::*;

verus! {

/// Where the actor stands.
#[derive(Debug, Clone, Copy, PartialEq, Eq, Structural)]
pub enum Phase {
    /// Waiting for the next command.
    Idle,
    /// A request is on the wire and its reply has not been read yet.
    Busy,
    /// The connection failed: queued commands are failed without I/O.
    Stopped,
    /// The queue is closed and the actor has ended.
    Closed,
}

/// What happened since the last step.
#[derive(Debug, Clone, Copy, PartialEq, Eq, Structural)]
pub enum Event {
    /// A command was taken from the queue.
    Dequeued,
    /// Every sender is gone and the queue is empty.
    QueueClosed,
    /// The request was written and its reply read.
    Replied,
    /// Writing the request or reading its reply failed.
    Failed,
}

/// What the actor does next.
#[derive(Debug, Clone, Copy, PartialEq, Eq, Structural)]
pub enum Action {
    /// Write the command's request, then read its reply.
    Serve,
    /// Hand the reply to the caller of the command in flight.
    Deliver,
    /// Hand the error to the caller of the command in flight, and stop.
    DeliverError,
    /// Fail the dequeued command: the connection is gone.
    Reject,
    /// End the actor.
    Exit,
}

/// The transition of the actor on one event; `None` where the event cannot
/// come in that phase (no command is taken while a request is in flight).
pub open spec fn next(p: Phase, e: Event) -> Option<(Phase, Action)> {
    match (p, e) {
        (Phase::Idle, Event::Dequeued) => Some((Phase::Busy, Action::Serve)),
        (Phase::Busy, Event::Replied) => Some((Phase::Idle, Action::Deliver)),
        (Phase::Busy, Event::Failed) => Some((Phase::Stopped, Action::DeliverError)),
        (Phase::Stopped, Event::Dequeued) => Some((Phase::Stopped, Action::Reject)),
        (Phase::Idle, Event::QueueClosed) => Some((Phase::Closed, Action::Exit)),
        (Phase::Stopped, Event::QueueClosed) => Some((Phase::Closed, Action::Exit)),
        _ => None,
    }
}

/// The phase reached and the actions taken on a sequence of events, if each
/// event can come where it does.
pub open spec fn run(p: Phase, es: Seq<Event>) -> Option<(Phase, Seq<Action>)>
    decreases es.len(),
{
    if es.len() == 0 {
        Some((p, Seq::empty()))
    } else {
        match run(p, es.drop_last()) {
            Some((q, acts)) => match next(q, es.last()) {
                Some((q2, a)) => Some((q2, acts.push(a))),
                None => None,
            },
            None => None,
        }
    }
}

pub open spec fn is_completion(a: Action) -> bool {
    a == Action::Deliver || a == Action::DeliverError
}

/// Requests served minus replies handed back: the requests in flight.
pub open spec fn in_flight(acts: Seq<Action>) -> int
    decreases acts.len(),
{
    if acts.len() == 0 {
        0
    } else {
        in_flight(acts.drop_last()) + if acts.last() == Action::Serve {
            1int
        } else if is_completion(acts.last()) {
            -1int
        } else {
            0int
        }
    }
}

/// The actor serves requests strictly one at a time, and each reply answers
/// the request in flight: in every run from an idle actor, a request is served
/// only when none is in flight, a reply is handed back only when exactly one
/// is, and a request is in flight exactly while the actor is busy.
pub proof fn lemma_one_at_a_time(es: Seq<Event>)
    requires
        run(Phase::Idle, es) is Some,
    ensures
        ({
            let (p, acts) = run(Phase::Idle, es)->Some_0;
            &&& in_flight(acts) == (if p == Phase::Busy { 1int } else { 0int })
            &&& forall|i: int|
                0 <= i < acts.len() && acts[i] == Action::Serve ==> in_flight(acts.take(i)) == 0
            &&& forall|i: int|
                0 <= i < acts.len() && is_completion(acts[i]) ==> in_flight(acts.take(i)) == 1
        }),
    decreases es.len(),
{
    if es.len() > 0 {
        lemma_one_at_a_time(es.drop_last());
        let (q, prev) = run(Phase::Idle, es.drop_last())->Some_0;
        let (p, acts) = run(Phase::Idle, es)->Some_0;
        assert(acts == prev.push(next(q, es.last())->Some_0.1));
        assert(acts.drop_last() =~= prev);
        assert forall|i: int| 0 <= i < prev.len() implies acts.take(i) =~= prev.take(i) && acts[i]
            == prev[i] by {}
        assert(acts.take(prev.len() as int) =~= prev);
    }
}

/// The actor's state.
pub struct Dispatcher {
    phase: Phase,
}

impl Dispatcher {
    pub closed spec fn phase(&self) -> Phase {
        self.phase
    }

    /// An idle actor.
    pub fn new() -> (r: Dispatcher)
        ensures
            r.phase() == Phase::Idle,
    {
        Dispatcher { phase: Phase::Idle }
    }

    /// Whether the event can come in the present phase.
    pub fn accepts(&self, e: Event) -> (r: bool)
        ensures
            r == next(self.phase(), e) is Some,
    {
        match (self.phase, e) {
            (Phase::Idle, Event::Dequeued) | (Phase::Busy, Event::Replied) | (
                Phase::Busy,
                Event::Failed,
            ) | (Phase::Stopped, Event::Dequeued) | (Phase::Idle, Event::QueueClosed) | (
                Phase::Stopped,
                Event::QueueClosed,
            ) => true,
            _ => false,
        }
    }

    /// Takes one event and says what to do.
    pub fn step(&mut self, e: Event) -> (a: Action)
        requires
            next(old(self).phase(), e) is Some,
        ensures
            next(old(self).phase(), e) == Some((final(self).phase(), a)),
    {
        let (p, a) = match (self.phase, e) {
            (Phase::Idle, Event::Dequeued) => (Phase::Busy, Action::Serve),
            (Phase::Busy, Event::Replied) => (Phase::Idle, Action::Deliver),
            (Phase::Busy, Event::Failed) => (Phase::Stopped, Action::DeliverError),
            (Phase::Stopped, Event::Dequeued) => (Phase::Stopped, Action::Reject),
            _ => (Phase::Closed, Action::Exit),
        };
        self.phase = p;
        a
    }
}

} // verus!
