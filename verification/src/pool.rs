//! The shared upstream connections, one for each host, and the rule by which a request is sent
//! over them: a connection that fails is dropped and made anew once.

use vstd::hash_map::StringHashMap;
use vstd::prelude::*;

verus! {

/// The open upstream connections, by host; `S` is the sending end of one.
#[verifier::reject_recursive_types(S)]
pub struct UpstreamPool<S> {
    senders: StringHashMap<S>,
}

impl<S> View for UpstreamPool<S> {
    type V = Map<Seq<char>, S>;

    closed spec fn view(&self) -> Map<Seq<char>, S> {
        self.senders@
    }
}

impl<S> UpstreamPool<S> {
    /// No connection is open.
    pub fn new() -> (r: UpstreamPool<S>)
        ensures
            r@ == (Map::<Seq<char>, S>::empty()),
    {
        UpstreamPool { senders: StringHashMap::new() }
    }

    /// The connection to `host`, if one is open.
    pub fn sender(&self, host: &str) -> (r: Option<&S>)
        ensures
            match r {
                Some(s) => self@.contains_key(host@) && *s == self@[host@],
                None => !self@.contains_key(host@),
            },
    {
        self.senders.get(host)
    }

    /// Keeps a new connection to `host` for the requests to come.
    pub fn keep(&mut self, host: &str, sender: S)
        ensures
            final(self)@ == old(self)@.insert(host@, sender),
    {
        self.senders.insert(host.to_owned(), sender)
    }

    /// Drops the connection to `host`.
    pub fn dispose(&mut self, host: &str)
        ensures
            final(self)@ == old(self)@.remove(host@),
    {
        self.senders.remove(host)
    }
}

/// How far a request has come.
#[derive(Clone, Copy, Debug, PartialEq, Eq)]
pub enum SendState {
    /// It waits for a connection; `again` once it has failed before.
    Waiting { again: bool },
    /// It is being sent.
    Sending { again: bool },
    /// It is settled.
    Done,
}

/// What happened to a request.
#[derive(Clone, Copy, Debug, PartialEq, Eq)]
pub enum SendEvent {
    /// A connection is there.
    Connected,
    /// No connection can be made.
    NotConnected,
    /// The response has come.
    Answered,
    /// The connection failed.
    Failed,
}

/// What to do with a request next.
#[derive(Clone, Copy, Debug, PartialEq, Eq)]
pub enum SendAction {
    /// Send it over the connection.
    Send,
    /// Drop the connection and get another one.
    Reconnect,
    /// Hand the response to the client.
    Respond,
    /// Give up with the error that came last.
    GiveUp,
}

/// The event can happen in this state.
pub open spec fn fits(state: SendState, event: SendEvent) -> bool {
    match state {
        SendState::Waiting { .. } => event is Connected || event is NotConnected,
        SendState::Sending { .. } => event is Answered || event is Failed,
        SendState::Done => false,
    }
}

/// The rule: a request is sent once there is a connection, and sent a second time, over a new
/// connection, where the first one failed.
pub open spec fn next_step(state: SendState, event: SendEvent) -> (SendState, SendAction) {
    match (state, event) {
        (SendState::Waiting { again }, SendEvent::Connected) => (
            SendState::Sending { again },
            SendAction::Send,
        ),
        (SendState::Sending { again: false }, SendEvent::Failed) => (
            SendState::Waiting { again: true },
            SendAction::Reconnect,
        ),
        (SendState::Sending { .. }, SendEvent::Answered) => (SendState::Done, SendAction::Respond),
        _ => (SendState::Done, SendAction::GiveUp),
    }
}

impl SendState {
    /// A request that has not been sent yet.
    pub fn start() -> (r: SendState)
        ensures
            r == (SendState::Waiting { again: false }),
    {
        SendState::Waiting { again: false }
    }

    /// Takes in what happened and says what to do next.
    pub fn step(self, event: SendEvent) -> (r: (SendState, SendAction))
        requires
            fits(self, event),
        ensures
            r == next_step(self, event),
    {
        match (self, event) {
            (SendState::Waiting { again }, SendEvent::Connected) => (
                SendState::Sending { again },
                SendAction::Send,
            ),
            (SendState::Sending { again: false }, SendEvent::Failed) => (
                SendState::Waiting { again: true },
                SendAction::Reconnect,
            ),
            (SendState::Sending { .. }, SendEvent::Answered) => (
                SendState::Done,
                SendAction::Respond,
            ),
            _ => (SendState::Done, SendAction::GiveUp),
        }
    }
}

/// Every event of the history can happen where it does.
pub open spec fn is_history(state: SendState, events: Seq<SendEvent>) -> bool
    decreases events.len(),
{
    events.len() > 0 ==> fits(state, events[0]) && is_history(
        next_step(state, events[0]).0,
        events.drop_first(),
    )
}

/// How often an action is taken in a history.
pub open spec fn times(state: SendState, events: Seq<SendEvent>, action: SendAction) -> nat
    decreases events.len(),
{
    if events.len() == 0 {
        0
    } else {
        let (next, taken) = next_step(state, events[0]);
        times(next, events.drop_first(), action) + (if taken == action {
            1nat
        } else {
            0nat
        })
    }
}

/// How often a request can still be sent.
spec fn sends_left(state: SendState) -> nat {
    match state {
        SendState::Waiting { again: false } => 2,
        SendState::Waiting { again: true } => 1,
        SendState::Sending { again: false } => 1,
        _ => 0,
    }
}

/// How many steps a request can still take.
spec fn steps_left(state: SendState) -> nat {
    match state {
        SendState::Waiting { again: false } => 4,
        SendState::Sending { again: false } => 3,
        SendState::Waiting { again: true } => 2,
        SendState::Sending { again: true } => 1,
        SendState::Done => 0,
    }
}

proof fn lemma_bounds(state: SendState, events: Seq<SendEvent>)
    requires
        is_history(state, events),
    ensures
        times(state, events, SendAction::Send) <= sends_left(state),
        times(state, events, SendAction::Reconnect) <= (match state {
            SendState::Waiting { again: false } => 1nat,
            SendState::Sending { again: false } => 1nat,
            _ => 0nat,
        }),
        times(state, events, SendAction::Respond) + times(state, events, SendAction::GiveUp) <= (
        if state is Done {
            0nat
        } else {
            1nat
        }),
        events.len() <= steps_left(state),
    decreases events.len(),
{
    if events.len() > 0 {
        lemma_bounds(next_step(state, events[0]).0, events.drop_first());
    }
}

/// Whatever happens, a request is sent at most twice, reconnects at most once, and is settled
/// at most once, after four steps at the latest.
pub proof fn law_at_most_one_retry(events: Seq<SendEvent>)
    requires
        is_history(SendState::Waiting { again: false }, events),
    ensures
        times(SendState::Waiting { again: false }, events, SendAction::Send) <= 2,
        times(SendState::Waiting { again: false }, events, SendAction::Reconnect) <= 1,
        times(SendState::Waiting { again: false }, events, SendAction::Respond) + times(
            SendState::Waiting { again: false },
            events,
            SendAction::GiveUp,
        ) <= 1,
        events.len() <= 4,
{
    lemma_bounds(SendState::Waiting { again: false }, events);
}

} // verus!
