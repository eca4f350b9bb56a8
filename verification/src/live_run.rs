//! A measurement of how often the traces of the pending transactions are done
//! before the next head arrives. No access list comes out of it.
use vstd::prelude::*;

use crate::counters::{bumped, SimulationCounters};
use crate::head_run::is_current;
use crate::order::{rank, Rank};

verus! {

/// How many transactions of a block are traced at most.
pub const MAX_TRACED: usize = 20;

/// The time between the starts of two traces.
pub const STAGGER_MS: u64 = 200;

/// How many of `count` transactions are traced.
pub fn traced_count(count: usize) -> (res: usize)
    ensures
        res == if count <= MAX_TRACED {
            count
        } else {
            MAX_TRACED
        },
{
    if count <= MAX_TRACED {
        count
    } else {
        MAX_TRACED
    }
}

/// How long the trace with the given index waits before it starts.
pub fn start_delay_ms(index: usize) -> (res: u64)
    requires
        index < MAX_TRACED,
    ensures
        res == index * STAGGER_MS,
{
    index as u64 * STAGGER_MS
}

/// How far a measurement has come.
#[derive(Debug, Clone, Copy, PartialEq, Eq, Structural)]
pub enum LivePhase {
    Fetching,
    /// So many traces are under way.
    Tracing(usize),
    Comparing,
    Over,
}

/// What a measurement can be told.
#[derive(Debug, Clone, Copy)]
pub enum LiveEvent {
    /// A newer head arrived before the pending transactions did.
    Cancelled,
    FetchFailed,
    /// So many transactions are pending.
    Pending(usize),
    /// A trace has ended: whether it succeeded, and whether a newer head has
    /// arrived by now.
    TraceEnded { succeeded: bool, cancelled: bool },
    /// The hash of the current head, if there is one.
    CurrentHead(Option<[u8; 32]>),
}

/// What is to be done next.
#[derive(Debug, Clone, Copy, PartialEq, Eq, Structural)]
pub enum LiveAction {
    /// Trace the transactions with the indices below the number.
    Trace(usize),
    Wait,
    ReadHead,
    NothingPending,
    FetchFailed,
    /// The traces were done in time.
    Fresh,
    /// A newer head arrived before the traces were done.
    Stale,
    /// The event does not belong to the phase.
    Ignore,
}

impl LivePhase {
    /// What follows on an event, for a measurement on top of the head with the
    /// hash `hash`. A trace that failed counts as done, unless it failed after
    /// a newer head arrived.
    pub open spec fn next(self, hash: Seq<u8>, event: LiveEvent) -> (LivePhase, LiveAction) {
        match (self, event) {
            (LivePhase::Fetching, LiveEvent::Cancelled) => (LivePhase::Over, LiveAction::Stale),
            (LivePhase::Fetching, LiveEvent::FetchFailed) => (
                LivePhase::Over,
                LiveAction::FetchFailed,
            ),
            (LivePhase::Fetching, LiveEvent::Pending(count)) => if count == 0 {
                (LivePhase::Over, LiveAction::NothingPending)
            } else {
                let traced = if count <= MAX_TRACED {
                    count
                } else {
                    MAX_TRACED
                };
                (LivePhase::Tracing(traced), LiveAction::Trace(traced))
            },
            (
                LivePhase::Tracing(left),
                LiveEvent::TraceEnded { succeeded, cancelled },
            ) => if !succeeded && cancelled {
                (LivePhase::Over, LiveAction::Stale)
            } else if left <= 1 {
                (LivePhase::Comparing, LiveAction::ReadHead)
            } else {
                (LivePhase::Tracing((left - 1) as usize), LiveAction::Wait)
            },
            (LivePhase::Comparing, LiveEvent::CurrentHead(current)) => (
                LivePhase::Over,
                if is_current(current, hash) {
                    LiveAction::Fresh
                } else {
                    LiveAction::Stale
                },
            ),
            _ => (self, LiveAction::Ignore),
        }
    }
}

/// The counters after a step.
pub open spec fn live_counted(counters: SimulationCounters, action: LiveAction) -> SimulationCounters {
    match action {
        LiveAction::Fresh => SimulationCounters { fresh: bumped(counters.fresh), ..counters },
        LiveAction::Stale => SimulationCounters { stale: bumped(counters.stale), ..counters },
        _ => counters,
    }
}

/// A measurement on top of one head.
#[derive(Debug)]
pub struct LiveRun {
    pub hash: [u8; 32],
    pub phase: LivePhase,
}

impl LiveRun {
    /// Begins a measurement: the pending transactions are to be fetched.
    pub fn new(hash: [u8; 32]) -> (res: Self)
        ensures
            res.hash == hash,
            res.phase == LivePhase::Fetching,
    {
        LiveRun { hash, phase: LivePhase::Fetching }
    }

    /// Tells the measurement what happened, and returns what to do next. The
    /// counters are brought up to date when it ends fresh or stale.
    pub fn step(&mut self, event: LiveEvent, counters: &mut SimulationCounters) -> (res: LiveAction)
        ensures
            final(self).hash == old(self).hash,
            (final(self).phase, res) == old(self).phase.next(old(self).hash@, event),
            *final(counters) == live_counted(*old(counters), res),
            res == LiveAction::Fresh ==> {
                event matches LiveEvent::CurrentHead(Some(current)) && current@ == old(self).hash@
            },
    {
        let mut action = LiveAction::Ignore;
        match self.phase {
            LivePhase::Fetching => match event {
                LiveEvent::Cancelled => {
                    self.phase = LivePhase::Over;
                    action = LiveAction::Stale;
                },
                LiveEvent::FetchFailed => {
                    self.phase = LivePhase::Over;
                    action = LiveAction::FetchFailed;
                },
                LiveEvent::Pending(count) => {
                    if count == 0 {
                        self.phase = LivePhase::Over;
                        action = LiveAction::NothingPending;
                    } else {
                        let traced: usize = traced_count(count);
                        self.phase = LivePhase::Tracing(traced);
                        action = LiveAction::Trace(traced);
                    }
                },
                _ => {},
            },
            LivePhase::Tracing(left) => match event {
                LiveEvent::TraceEnded { succeeded, cancelled } => {
                    if !succeeded && cancelled {
                        self.phase = LivePhase::Over;
                        action = LiveAction::Stale;
                    } else if left <= 1 {
                        self.phase = LivePhase::Comparing;
                        action = LiveAction::ReadHead;
                    } else {
                        self.phase = LivePhase::Tracing(left - 1);
                        action = LiveAction::Wait;
                    }
                },
                _ => {},
            },
            LivePhase::Comparing => match event {
                LiveEvent::CurrentHead(current) => {
                    self.phase = LivePhase::Over;
                    action = match current {
                        Some(other) => {
                            if rank(other.as_slice(), self.hash.as_slice()) == Rank::Same {
                                LiveAction::Fresh
                            } else {
                                LiveAction::Stale
                            }
                        },
                        None => LiveAction::Stale,
                    };
                },
                _ => {},
            },
            LivePhase::Over => {},
        }
        match action {
            LiveAction::Fresh => {
                let _ = counters.record_fresh();
            },
            LiveAction::Stale => {
                let _ = counters.record_stale();
            },
            _ => {},
        }
        action
    }
}

/// How far a measurement has come that was told `events`, and what it answered.
pub open spec fn live_after(hash: Seq<u8>, events: Seq<LiveEvent>) -> (LivePhase, Seq<LiveAction>)
    decreases events.len(),
{
    if events.len() == 0 {
        (LivePhase::Fetching, Seq::empty())
    } else {
        let (phase, actions) = live_after(hash, events.drop_last());
        let (next, action) = phase.next(hash, events.last());
        (next, actions.push(action))
    }
}

/// Whether a measurement ends fresh or stale with an action.
pub open spec fn live_counts(action: LiveAction) -> bool {
    action == LiveAction::Fresh || action == LiveAction::Stale
}

proof fn lemma_live_kept(hash: Seq<u8>, events: Seq<LiveEvent>)
    ensures
        ({
            let (phase, actions) = live_after(hash, events);
            &&& actions.len() == events.len()
            &&& phase != LivePhase::Over ==> forall|i: int|
                0 <= i < actions.len() ==> !live_counts(#[trigger] actions[i])
        }),
    decreases events.len(),
{
    if events.len() > 0 {
        lemma_live_kept(hash, events.drop_last());
        let before = live_after(hash, events.drop_last()).1;
        let actions = live_after(hash, events).1;
        assert forall|i: int| 0 <= i < before.len() implies actions[i] == before[i] by {}
    }
}

/// A measurement is counted at most once, be it as fresh or as stale.
pub proof fn law_measured_at_most_once(hash: Seq<u8>, events: Seq<LiveEvent>, i: int, j: int)
    requires
        0 <= i < j < live_after(hash, events).1.len(),
    ensures
        !(live_counts(live_after(hash, events).1[i]) && live_counts(
            live_after(hash, events).1[j],
        )),
    decreases events.len(),
{
    lemma_live_kept(hash, events);
    let before = live_after(hash, events.drop_last()).1;
    let actions = live_after(hash, events).1;
    lemma_live_kept(hash, events.drop_last());
    assert(actions[i] == before[i]);
    if j < before.len() {
        law_measured_at_most_once(hash, events.drop_last(), i, j);
        assert(actions[j] == before[j]);
    }
}

/// A measurement ends fresh only when it is told that its head is the current
/// one.
pub proof fn law_fresh_means_current(hash: Seq<u8>, phase: LivePhase, event: LiveEvent)
    requires
        phase.next(hash, event).1 == LiveAction::Fresh,
    ensures
        event matches LiveEvent::CurrentHead(current) && is_current(current, hash),
{
}

/// A measurement whose traces are done ends fresh if it is told that the current
/// head has the very hash of its own, and stale if it is told anything else:
/// another hash, or that there is no head.
pub proof fn law_the_current_hash_tells_fresh_from_stale(hash: Seq<u8>, current: Option<[u8; 32]>)
    ensures
        LivePhase::Comparing.next(hash, LiveEvent::CurrentHead(current)) == (
            LivePhase::Over,
            match current {
                Some(other) => if other@ == hash {
                    LiveAction::Fresh
                } else {
                    LiveAction::Stale
                },
                None => LiveAction::Stale,
            },
        ),
{
}

/// A measurement ends fresh only in its last phase, when it is told that the
/// current head has the very hash of its own.
pub proof fn law_fresh_means_the_same_hash(hash: Seq<u8>, phase: LivePhase, event: LiveEvent)
    requires
        phase.next(hash, event).1 == LiveAction::Fresh,
    ensures
        phase == LivePhase::Comparing,
        event matches LiveEvent::CurrentHead(Some(current)) && current@ == hash,
{
}

/// All pending transactions are traced, but no more than twenty. Without any, or
/// when they cannot be fetched, the measurement is over and counts neither way; a
/// newer head ends it stale.
pub proof fn law_up_to_twenty_are_traced(hash: Seq<u8>, count: usize)
    ensures
        LivePhase::Fetching.next(hash, LiveEvent::Pending(count)) == if count == 0 {
            (LivePhase::Over, LiveAction::NothingPending)
        } else if count <= 20 {
            (LivePhase::Tracing(count), LiveAction::Trace(count))
        } else {
            (LivePhase::Tracing(20), LiveAction::Trace(20))
        },
        LivePhase::Fetching.next(hash, LiveEvent::FetchFailed) == (
            LivePhase::Over,
            LiveAction::FetchFailed,
        ),
        LivePhase::Fetching.next(hash, LiveEvent::Cancelled) == (
            LivePhase::Over,
            LiveAction::Stale,
        ),
{
}

/// Whether a trace has ended, and not because of a newer head.
pub open spec fn ends_in_time(event: LiveEvent) -> bool {
    match event {
        LiveEvent::TraceEnded { succeeded, cancelled } => succeeded || !cancelled,
        _ => false,
    }
}

/// A measurement waits until every trace that it asked for has ended, and then
/// reads the head.
pub proof fn law_every_trace_is_awaited(hash: Seq<u8>, events: Seq<LiveEvent>, n: usize)
    requires
        0 < n <= 20,
        0 < events.len() <= n + 1,
        events[0] == LiveEvent::Pending(n),
        forall|i: int| 1 <= i < events.len() ==> ends_in_time(#[trigger] events[i]),
    ensures
        live_after(hash, events).0 == if events.len() <= n {
            LivePhase::Tracing((n + 1 - events.len()) as usize)
        } else {
            LivePhase::Comparing
        },
        events.len() > 1 ==> live_after(hash, events).1.last() == if events.len() <= n {
            LiveAction::Wait
        } else {
            LiveAction::ReadHead
        },
    decreases events.len(),
{
    let before = events.drop_last();
    if events.len() > 1 {
        law_every_trace_is_awaited(hash, before, n);
        assert(ends_in_time(events[events.len() - 1]));
    } else {
        assert(before =~= Seq::empty());
        assert(live_after(hash, before) == (LivePhase::Fetching, Seq::<LiveAction>::empty()));
    }
}

/// A trace that fails after a newer head arrived ends the measurement stale.
pub proof fn law_cancelled_traces_are_stale(hash: Seq<u8>, left: usize)
    ensures
        LivePhase::Tracing(left).next(
            hash,
            LiveEvent::TraceEnded { succeeded: false, cancelled: true },
        ) == (LivePhase::Over, LiveAction::Stale),
{
}

/// A measurement that ends fresh adds one to the fresh ones, one that ends stale
/// adds one to the stale ones, and nothing else is counted.
pub proof fn law_every_measurement_is_counted_once(
    counters: SimulationCounters,
    action: LiveAction,
)
    ensures
        ({
            let fresh: int = if action == LiveAction::Fresh {
                1
            } else {
                0
            };
            let stale: int = if action == LiveAction::Stale {
                1
            } else {
                0
            };
            let new = live_counted(counters, action);
            &&& new.fresh == (counters.fresh + fresh) % 0x1_0000_0000_0000_0000
            &&& new.stale == (counters.stale + stale) % 0x1_0000_0000_0000_0000
        }),
{
}

/// The traces of a block start 200 milliseconds after each other.
pub proof fn law_traces_are_staggered()
    ensures
        MAX_TRACED == 20,
        STAGGER_MS == 200,
{
}

/// An event that a measurement does not wait for is ignored, and nothing changes.
pub proof fn law_live_events_out_of_place_change_nothing(
    hash: Seq<u8>,
    phase: LivePhase,
    event: LiveEvent,
)
    requires
        match phase {
            LivePhase::Fetching => event is TraceEnded || event is CurrentHead,
            LivePhase::Tracing(_) => !(event is TraceEnded),
            LivePhase::Comparing => !(event is CurrentHead),
            LivePhase::Over => true,
        },
    ensures
        phase.next(hash, event) == (phase, LiveAction::Ignore),
{
}

} // verus!
