use vstd::prelude::*;

use crate::counter::{bumped, DeliveryCounter};
use crate::text::str_eq;
use vstd::string::StringExecFns;

verus! {

/// How many times the writer half tries to deliver one message before
/// giving up on that message and moving on.
pub const MAX_DELIVERY_ATTEMPTS: usize = 5;

/// What the writer half does after one delivery attempt.
#[derive(PartialEq, Eq, Structural, Clone, Copy, Debug)]
pub enum WriterDecision {
    /// The message reached the peer; it is counted as delivered.
    Delivered,
    /// The attempt failed but attempts remain: retry the same message.
    RetryMessage,
    /// The attempts for this message are exhausted: drop it and move on.
    /// The connection itself is kept alive.
    DropMessage,
}

/// The writer half's decision after its `attempts_made`-th attempt to
/// deliver the current message reported `succeeded`.  A failure is retried
/// while attempts remain; once they are exhausted the single message is
/// dropped, never the connection.
pub fn retry_decision(attempts_made: usize, succeeded: bool) -> (d: WriterDecision)
    requires
        1 <= attempts_made,
    ensures
        succeeded ==> d == WriterDecision::Delivered,
        !succeeded && attempts_made < MAX_DELIVERY_ATTEMPTS ==> d == WriterDecision::RetryMessage,
        !succeeded && attempts_made >= MAX_DELIVERY_ATTEMPTS ==> d == WriterDecision::DropMessage,
    {
    if succeeded {
        WriterDecision::Delivered
    } else if attempts_made < MAX_DELIVERY_ATTEMPTS {
        WriterDecision::RetryMessage
    } else {
        WriterDecision::DropMessage
    }
}

/// The writer half's whole handling of one message, given the outcome the
/// transport would report for each attempt: attempts are made in order
/// until one succeeds or the bound is reached.  The delivery counter moves
/// up exactly when some attempt within the bound succeeds; an undeliverable
/// message is dropped without touching the counter.
pub fn deliver_with_retry(counter: &mut DeliveryCounter, outcomes: &Vec<bool>) -> (delivered: bool)
    requires
        outcomes@.len() >= MAX_DELIVERY_ATTEMPTS,
    ensures
        delivered == exists|i: int| 0 <= i < MAX_DELIVERY_ATTEMPTS && outcomes@[i],
        delivered ==> final(counter)@ == bumped(old(counter)@),
        !delivered ==> final(counter)@ == old(counter)@,
{
    let mut attempt: usize = 0;
    let mut succeeded = false;
    while attempt < MAX_DELIVERY_ATTEMPTS && !succeeded
        invariant
            attempt <= MAX_DELIVERY_ATTEMPTS,
            outcomes@.len() >= MAX_DELIVERY_ATTEMPTS,
            forall|j: int| 0 <= j < attempt ==> !outcomes@[j],
            succeeded ==> attempt < MAX_DELIVERY_ATTEMPTS && outcomes@[attempt as int],
        decreases MAX_DELIVERY_ATTEMPTS - attempt, (if succeeded { 0int } else { 1int }),
    {
        if outcomes[attempt] {
            succeeded = true;
        } else {
            attempt = attempt + 1;
        }
    }
    if succeeded {
        counter.increment();
    }
    succeeded
}

/// The lifecycle of one connection's pump pair.
#[derive(PartialEq, Eq, Structural, Clone, Copy, Debug)]
pub enum ConnectionState {
    /// The room is being resolved and the two halves are not yet running.
    Joining,
    /// Both halves run independently; the steady state.
    Active,
    /// One half has observed connection termination and exited.
    Closing,
    /// Both halves have exited; the subscription can be released.
    Closed,
}

/// Tracks one connection through its life: joining resolves the room and
/// starts the reader and writer halves; the state closes in two steps as
/// each half observes termination and exits.
pub struct ConnectionLifecycle {
    state: ConnectionState,
}

impl ConnectionLifecycle {
    /// The current state.
    pub closed spec fn state_spec(&self) -> ConnectionState {
        self.state
    }

    /// A new connection starts joining.
    pub fn new() -> (c: ConnectionLifecycle)
        ensures
            c.state_spec() == ConnectionState::Joining,
    {
        ConnectionLifecycle { state: ConnectionState::Joining }
    }

    /// Both halves have been started: the connection is active.
    pub fn activate(&mut self)
        requires
            old(self).state_spec() == ConnectionState::Joining,
        ensures
            final(self).state_spec() == ConnectionState::Active,
    {
        self.state = ConnectionState::Active;
    }

    /// One half observed connection termination and exited.  The first
    /// exit begins closing; the second closes the connection for good.
    pub fn half_exited(&mut self)
        requires
            old(self).state_spec() == ConnectionState::Active || old(self).state_spec()
                == ConnectionState::Closing,
        ensures
            old(self).state_spec() == ConnectionState::Active ==> final(self).state_spec()
                == ConnectionState::Closing,
            old(self).state_spec() == ConnectionState::Closing ==> final(self).state_spec()
                == ConnectionState::Closed,
    {
        if matches!(self.state, ConnectionState::Active) {
            self.state = ConnectionState::Closing;
        } else {
            self.state = ConnectionState::Closed;
        }
    }

    /// Whether both halves have exited.
    pub fn is_closed(&self) -> (r: bool)
        ensures
            r == (self.state_spec() == ConnectionState::Closed),
    {
        matches!(self.state, ConnectionState::Closed)
    }
}

/// The ping-mode liveness pump, the simpler connection variant: it ignores
/// everything until a "serve" control message arrives, and from then on
/// answers each "ping" with exactly one "pong" until disconnect.
pub struct PingPump {
    serving: bool,
}

impl PingPump {
    /// Whether the pump has seen "serve" and answers pings.
    pub closed spec fn is_serving(&self) -> bool {
        self.serving
    }

    /// A new connection starts idle: pings get no response yet.
    pub fn new() -> (p: PingPump)
        ensures
            !p.is_serving(),
    {
        PingPump { serving: false }
    }

    /// Handle one inbound text frame and return the reply to send, if any.
    /// "serve" starts serving and is never answered; "ping" is answered
    /// with "pong" exactly when the pump is already serving; every other
    /// frame is ignored.
    pub fn handle(&mut self, text: &str) -> (reply: Option<String>)
        ensures
            final(self).is_serving() == (text@ == "serve"@ || old(self).is_serving()),
            match reply {
                Some(p) => p@ == "pong"@ && old(self).is_serving() && text@ == "ping"@,
                None => !(old(self).is_serving() && text@ == "ping"@),
            },
    {
        if str_eq(text, "serve") {
            self.serving = true;
            proof {
                reveal_strlit("serve");
                reveal_strlit("ping");
                assert(text@ != "ping"@) by {
                    assert("serve"@.len() == 5);
                    assert("ping"@.len() == 4);
                }
            }
            None
        } else if self.serving && str_eq(text, "ping") {
            Some(String::from_str("pong"))
        } else {
            None
        }
    }
}

} // verus!
