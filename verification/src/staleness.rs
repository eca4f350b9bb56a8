//! Listening to new heads for a while, with a limited number of reconnections.
use vstd::prelude::*;

verus! {

/// How long heads are listened to.
pub const LISTEN_MS: u64 = 30_000;

/// The time between two connections.
pub const RECONNECT_DELAY_MS: u64 = 3_000;

/// How often a connection may fail before listening is given up.
pub const MAX_RECONNECTS: u32 = 3;

/// What happened to the connection.
#[derive(Debug, Clone, Copy, PartialEq, Eq, Structural)]
pub enum ListenEvent {
    /// Listening is to begin, or a delay is over.
    Ready,
    ConnectFailed,
    SubscribeFailed,
    /// The stream of heads is open and may have brought one.
    Listening,
    /// The stream of heads has ended.
    Closed,
}

/// What is to be done next.
#[derive(Debug, Clone, Copy, PartialEq, Eq, Structural)]
pub enum ListenAction {
    /// Connect and subscribe to new heads.
    Connect,
    /// Wait for the next head.
    Listen,
    /// Do nothing for so many milliseconds.
    Pause(u64),
    /// Listening is over.
    Finish,
    /// The connection failed too often.
    GiveUp,
}

/// How often the connection has failed.
#[derive(Debug, Clone, Copy, PartialEq, Eq)]
pub struct Listener {
    pub failures: u32,
}

/// What follows on an event after `elapsed_ms`, when the connection has failed
/// `failures` times before.
pub open spec fn listen_next(failures: u32, event: ListenEvent, elapsed_ms: u64) -> ListenAction {
    match event {
        ListenEvent::Ready | ListenEvent::SubscribeFailed => if elapsed_ms < LISTEN_MS {
            ListenAction::Connect
        } else {
            ListenAction::Finish
        },
        ListenEvent::ConnectFailed => if failures >= MAX_RECONNECTS {
            ListenAction::GiveUp
        } else {
            ListenAction::Pause(RECONNECT_DELAY_MS)
        },
        ListenEvent::Listening => if elapsed_ms < LISTEN_MS {
            ListenAction::Listen
        } else {
            ListenAction::Finish
        },
        ListenEvent::Closed => if elapsed_ms < LISTEN_MS {
            ListenAction::Pause(RECONNECT_DELAY_MS)
        } else {
            ListenAction::Finish
        },
    }
}

/// How often the connection has failed after an event. It is not counted
/// further than is needed to give up.
pub open spec fn failures_next(failures: u32, event: ListenEvent) -> u32 {
    if event == ListenEvent::ConnectFailed && failures <= MAX_RECONNECTS {
        (failures + 1) as u32
    } else {
        failures
    }
}

impl Listener {
    /// No connection has failed yet.
    pub fn new() -> (res: Self)
        ensures
            res.failures == 0,
    {
        Listener { failures: 0 }
    }

    /// Decides what to do when something happened `elapsed_ms` after listening
    /// began.
    pub fn step(&mut self, event: ListenEvent, elapsed_ms: u64) -> (res: ListenAction)
        ensures
            res == listen_next(old(self).failures, event, elapsed_ms),
            final(self).failures == failures_next(old(self).failures, event),
    {
        match event {
            ListenEvent::Ready | ListenEvent::SubscribeFailed => {
                if elapsed_ms < LISTEN_MS {
                    ListenAction::Connect
                } else {
                    ListenAction::Finish
                }
            },
            ListenEvent::ConnectFailed => {
                let give_up = self.failures >= MAX_RECONNECTS;
                if self.failures <= MAX_RECONNECTS {
                    self.failures = self.failures + 1;
                }
                if give_up {
                    ListenAction::GiveUp
                } else {
                    ListenAction::Pause(RECONNECT_DELAY_MS)
                }
            },
            ListenEvent::Listening => {
                if elapsed_ms < LISTEN_MS {
                    ListenAction::Listen
                } else {
                    ListenAction::Finish
                }
            },
            ListenEvent::Closed => {
                if elapsed_ms < LISTEN_MS {
                    ListenAction::Pause(RECONNECT_DELAY_MS)
                } else {
                    ListenAction::Finish
                }
            },
        }
    }
}

/// How often the connection has failed after `events`.
pub open spec fn failures_after(events: Seq<ListenEvent>) -> u32
    decreases events.len(),
{
    if events.len() == 0 {
        0
    } else {
        failures_next(failures_after(events.drop_last()), events.last())
    }
}

/// Listening is given up when the connection fails for the fourth time, and
/// not before, whatever else happened.
pub proof fn law_gives_up_after_three_reconnects(events: Seq<ListenEvent>, elapsed_ms: u64)
    ensures
        listen_next(failures_after(events), ListenEvent::ConnectFailed, elapsed_ms)
            == ListenAction::GiveUp <==> events.filter(
            |e: ListenEvent| e == ListenEvent::ConnectFailed,
        ).len() >= MAX_RECONNECTS,
{
    lemma_failures(events);
}

proof fn lemma_failures(events: Seq<ListenEvent>)
    ensures
        ({
            let count = events.filter(|e: ListenEvent| e == ListenEvent::ConnectFailed).len();
            failures_after(events) == if count <= MAX_RECONNECTS {
                count as int
            } else {
                MAX_RECONNECTS + 1
            }
        }),
    decreases events.len(),
{
    reveal(Seq::filter);
    if events.len() > 0 {
        lemma_failures(events.drop_last());
    }
}

/// Heads are listened to for thirty seconds. Until then a lost stream or a failed
/// connection is followed by a pause of three seconds, and a failed subscription
/// by a new connection; afterwards nothing is begun.
pub proof fn law_listening_lasts_thirty_seconds(failures: u32, elapsed_ms: u64)
    ensures
        elapsed_ms < 30_000 ==> {
            &&& listen_next(failures, ListenEvent::Ready, elapsed_ms) == ListenAction::Connect
            &&& listen_next(failures, ListenEvent::SubscribeFailed, elapsed_ms)
                == ListenAction::Connect
            &&& listen_next(failures, ListenEvent::Listening, elapsed_ms) == ListenAction::Listen
            &&& listen_next(failures, ListenEvent::Closed, elapsed_ms) == ListenAction::Pause(3_000)
        },
        elapsed_ms >= 30_000 ==> {
            &&& listen_next(failures, ListenEvent::Ready, elapsed_ms) == ListenAction::Finish
            &&& listen_next(failures, ListenEvent::SubscribeFailed, elapsed_ms)
                == ListenAction::Finish
            &&& listen_next(failures, ListenEvent::Listening, elapsed_ms) == ListenAction::Finish
            &&& listen_next(failures, ListenEvent::Closed, elapsed_ms) == ListenAction::Finish
        },
        listen_next(failures, ListenEvent::ConnectFailed, elapsed_ms) == if failures < 3 {
            ListenAction::Pause(3_000)
        } else {
            ListenAction::GiveUp
        },
{
}

/// After every event but a failed connection the number of failures is the same,
/// and each failed connection adds one to it until listening is given up.
pub proof fn law_failed_connections_are_counted(events: Seq<ListenEvent>)
    ensures
        ({
            let count = events.filter(|e: ListenEvent| e == ListenEvent::ConnectFailed).len();
            failures_after(events) == if count <= 3 {
                count as int
            } else {
                4
            }
        }),
{
    lemma_failures(events);
}

} // verus!
