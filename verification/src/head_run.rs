//! The simulation of the pending transactions on top of one head, as a machine
//! that is told what happened and answers what to do next.
//!
//! A run ends stale when it is cancelled or when the head has moved on. It
//! publishes an access list only after it has seen twice, before and after the
//! simulations are merged, that its head is still the current one.
use vstd::prelude::*;

use crate::access_list::BlockAccessListEncode;
use crate::counters::{bumped, SimulationCounters};
use crate::merge::{
    dirty_total, is_account_merge, is_list_of, merge_simulations, slot_total, visits, visits_to,
    word, HeadContext,
};
use crate::order::{has_key, rank, Rank};
use crate::rlp_item::encode;
use crate::trace::SimulatedTransaction;

verus! {

/// How far a run has come.
#[derive(Debug, Clone, Copy, PartialEq, Eq, Structural)]
pub enum Phase {
    /// The pending transactions have been asked for.
    Fetching,
    /// Transactions are being simulated.
    Simulating,
    /// All are simulated; the current head has been asked for.
    Comparing,
    /// The simulations are merged; the current head has been asked for again.
    Confirming,
    /// Nothing is left to do.
    Over,
}

/// What a run can be told.
#[derive(Debug)]
pub enum HeadEvent {
    /// A newer head has arrived.
    Cancelled,
    /// The pending transactions could not be fetched.
    FetchFailed,
    /// So many transactions are pending.
    Pending(usize),
    /// A transaction has been simulated.
    Simulated(SimulatedTransaction),
    /// A simulation noticed the cancellation.
    SimulationCancelled,
    /// A simulation failed.
    SimulationFailed,
    /// The hash of the current head, if there is one.
    CurrentHead(Option<[u8; 32]>),
}

/// Why a run ended without publishing anything.
#[derive(Debug, Clone, Copy, PartialEq, Eq, Structural)]
pub enum StopReason {
    NothingPending,
    FetchFailed,
    TooManyTransactions,
    SimulationFailed,
    /// A newer head arrived while the run was under way.
    Cancelled,
    /// The head had moved on when the run was done.
    Discarded,
}

/// An access list with its payload.
#[derive(Debug)]
pub struct Payload {
    pub list: BlockAccessListEncode,
    pub bytes: Vec<u8>,
    pub slots: usize,
    pub reads: usize,
    pub writes: usize,
}

/// What a run publishes.
#[derive(Debug)]
pub struct HeadReport {
    pub transactions: usize,
    /// The runs so far that ended fresh and stale, this one counted.
    pub fresh: u64,
    pub stale: u64,
    /// Missing if no transaction accesses storage.
    pub payload: Option<Payload>,
}

/// What is to be done next.
#[derive(Debug)]
pub enum HeadAction {
    /// Simulate the transactions with the indices below the number.
    Simulate(usize),
    /// Wait for the next simulation.
    Wait,
    /// Read the current head.
    ReadHead,
    /// End the run; simulations that are under way are to be aborted.
    Stop(StopReason),
    /// End the run with a report.
    Publish(HeadReport),
    /// The event does not belong to the phase.
    Ignore,
}

/// What is to be done next, without what is published.
pub enum Step {
    Simulate(nat),
    Wait,
    ReadHead,
    Stop(StopReason),
    Publish,
    Ignore,
}

impl HeadAction {
    pub open spec fn step(self) -> Step {
        match self {
            HeadAction::Simulate(count) => Step::Simulate(count as nat),
            HeadAction::Wait => Step::Wait,
            HeadAction::ReadHead => Step::ReadHead,
            HeadAction::Stop(reason) => Step::Stop(reason),
            HeadAction::Publish(_) => Step::Publish,
            HeadAction::Ignore => Step::Ignore,
        }
    }
}

/// What a run knows.
pub struct RunState {
    pub phase: Phase,
    /// The number of pending transactions.
    pub total: nat,
    /// The simulations so far, in the order in which they finished.
    pub simulations: Seq<SimulatedTransaction>,
}

/// The number of transactions that 32-bit indices can tell apart.
pub open spec fn index_limit() -> nat {
    0x1_0000_0000
}

/// Whether the current head is the one with the given hash.
pub open spec fn is_current(current: Option<[u8; 32]>, hash: Seq<u8>) -> bool {
    match current {
        Some(other) => other@ == hash,
        None => false,
    }
}

impl RunState {
    /// A run that has just begun.
    pub open spec fn initial() -> RunState {
        RunState { phase: Phase::Fetching, total: 0, simulations: Seq::empty() }
    }

    /// What follows on an event, for a run on top of the head with the hash
    /// `hash`.
    pub open spec fn next(self, hash: Seq<u8>, event: HeadEvent) -> (RunState, Step) {
        let over = RunState { phase: Phase::Over, ..self };
        match (self.phase, event) {
            (Phase::Fetching, HeadEvent::Cancelled) => (over, Step::Stop(StopReason::Cancelled)),
            (Phase::Fetching, HeadEvent::FetchFailed) => (
                over,
                Step::Stop(StopReason::FetchFailed),
            ),
            (Phase::Fetching, HeadEvent::Pending(count)) => if count == 0 {
                (over, Step::Stop(StopReason::NothingPending))
            } else if count > index_limit() {
                (over, Step::Stop(StopReason::TooManyTransactions))
            } else {
                (
                    RunState { phase: Phase::Simulating, total: count as nat, ..self },
                    Step::Simulate(count as nat),
                )
            },
            (Phase::Simulating, HeadEvent::Cancelled) => (over, Step::Stop(StopReason::Cancelled)),
            (Phase::Simulating, HeadEvent::SimulationCancelled) => (
                over,
                Step::Stop(StopReason::Cancelled),
            ),
            (Phase::Simulating, HeadEvent::SimulationFailed) => (
                over,
                Step::Stop(StopReason::SimulationFailed),
            ),
            (Phase::Simulating, HeadEvent::Simulated(simulation)) => {
                let simulations = self.simulations.push(simulation);
                if simulations.len() < self.total {
                    (RunState { simulations, ..self }, Step::Wait)
                } else {
                    (RunState { phase: Phase::Comparing, simulations, ..self }, Step::ReadHead)
                }
            },
            (Phase::Comparing, HeadEvent::CurrentHead(current)) => if is_current(current, hash) {
                (RunState { phase: Phase::Confirming, ..self }, Step::ReadHead)
            } else {
                (over, Step::Stop(StopReason::Discarded))
            },
            (Phase::Confirming, HeadEvent::CurrentHead(current)) => if is_current(current, hash) {
                (over, Step::Publish)
            } else {
                (over, Step::Stop(StopReason::Discarded))
            },
            _ => (self, Step::Ignore),
        }
    }
}

/// The counters after a step: a run that was cancelled or discarded is stale,
/// one that publishes is fresh, and no other step counts.
pub open spec fn counted(counters: SimulationCounters, step: Step) -> SimulationCounters {
    match step {
        Step::Stop(StopReason::Cancelled) | Step::Stop(StopReason::Discarded) => SimulationCounters {
            stale: bumped(counters.stale),
            ..counters
        },
        Step::Publish => SimulationCounters { fresh: bumped(counters.fresh), ..counters },
        _ => counters,
    }
}

/// Whether a payload is that of the access list of the given head and
/// simulations.
pub open spec fn is_payload_of(
    payload: Payload,
    head: HeadContext,
    simulations: Seq<SimulatedTransaction>,
) -> bool {
    &&& is_list_of(payload.list, head, simulations)
    &&& payload.bytes@ == encode(payload.list.bep592_item())
    &&& payload.slots == word(slot_total(payload.list.accounts@))
    &&& payload.reads == word(dirty_total(payload.list.accounts@, false))
    &&& payload.writes == word(dirty_total(payload.list.accounts@, true))
}

/// A run on top of one head.
pub struct HeadRun {
    head: HeadContext,
    phase: Phase,
    total: usize,
    simulations: Vec<SimulatedTransaction>,
    merged: Option<(BlockAccessListEncode, usize, usize, usize)>,
    finished: Ghost<Seq<SimulatedTransaction>>,
}

fn is_same_head(current: &Option<[u8; 32]>, hash: &[u8; 32]) -> (res: bool)
    ensures
        res == is_current(*current, hash@),
{
    match current {
        Some(other) => rank(other.as_slice(), hash.as_slice()) == Rank::Same,
        None => false,
    }
}

impl HeadRun {
    /// The head on top of which transactions are simulated.
    pub closed spec fn spec_head(self) -> HeadContext {
        self.head
    }

    /// What the run knows.
    pub closed spec fn state(self) -> RunState {
        RunState {
            phase: self.phase,
            total: self.total as nat,
            simulations: self.finished@,
        }
    }

    /// The parts of a run belong together.
    #[verifier::type_invariant]
    spec fn wf(self) -> bool {
        &&& (self.phase == Phase::Fetching || self.phase == Phase::Simulating || self.phase
            == Phase::Comparing) ==> self.simulations@ == self.finished@
        &&& self.phase == Phase::Fetching ==> self.finished@.len() == 0
        &&& self.phase == Phase::Simulating ==> self.finished@.len() < self.total
        &&& (self.phase == Phase::Comparing || self.phase == Phase::Confirming)
            ==> self.finished@.len() == self.total
        &&& self.phase == Phase::Confirming ==> {
            &&& self.merged is Some
            &&& is_list_of(self.merged->Some_0.0, self.head, self.finished@)
            &&& self.merged->Some_0.1 == word(slot_total(self.merged->Some_0.0.accounts@))
            &&& self.merged->Some_0.2 == word(
                dirty_total(self.merged->Some_0.0.accounts@, false),
            )
            &&& self.merged->Some_0.3 == word(dirty_total(self.merged->Some_0.0.accounts@, true))
        }
    }

    /// Begins a run: the pending transactions are to be fetched.
    pub fn new(head: HeadContext) -> (res: Self)
        ensures
            res.spec_head() == head,
            res.state() == RunState::initial(),
    {
        HeadRun {
            head,
            phase: Phase::Fetching,
            total: 0,
            simulations: Vec::new(),
            merged: None,
            finished: Ghost(Seq::empty()),
        }
    }

    /// The head on top of which transactions are simulated.
    pub fn head(&self) -> (res: HeadContext)
        ensures
            res == self.spec_head(),
    {
        self.head
    }

    /// Tells the run what happened, and returns it with what to do next. The
    /// counters are brought up to date when the run ends.
    pub fn step(self, event: HeadEvent, counters: &mut SimulationCounters) -> (res: (
        Self,
        HeadAction,
    ))
        ensures
            res.0.spec_head() == self.spec_head(),
            (res.0.state(), res.1.step()) == self.state().next(self.spec_head().hash@, event),
            *final(counters) == counted(*old(counters), res.1.step()),
            res.1 is Publish ==> {
                event matches HeadEvent::CurrentHead(Some(current)) && current@
                    == self.spec_head().hash@
            },
            res.1 matches HeadAction::Publish(report) ==> {
                &&& report.fresh == final(counters).fresh
                &&& report.stale == final(counters).stale
                &&& report.transactions == self.state().total
                &&& (report.fresh, report.stale) == final(counters).totals()
                &&& match report.payload {
                    Some(payload) => visits(self.state().simulations).len() > 0 && is_payload_of(
                        payload,
                        self.spec_head(),
                        self.state().simulations,
                    ),
                    None => visits(self.state().simulations).len() == 0,
                }
            },
    {
        proof {
            use_type_invariant(&self);
        }
        let run = self;
        match run.phase {
            Phase::Fetching => match event {
                HeadEvent::Cancelled => run.stop(StopReason::Cancelled, counters),
                HeadEvent::FetchFailed => run.stop(StopReason::FetchFailed, counters),
                HeadEvent::Pending(count) => {
                    if count == 0 {
                        run.stop(StopReason::NothingPending, counters)
                    } else if (count - 1) as u64 > 0xffff_ffff {
                        run.stop(StopReason::TooManyTransactions, counters)
                    } else {
                        let HeadRun { head, phase: _, total: _, simulations, merged, finished } = run;
                        let run = HeadRun {
                            head,
                            phase: Phase::Simulating,
                            total: count,
                            simulations,
                            merged,
                            finished,
                        };
                        (run, HeadAction::Simulate(count))
                    }
                },
                _ => (run, HeadAction::Ignore),
            },
            Phase::Simulating => match event {
                HeadEvent::Cancelled => run.stop(StopReason::Cancelled, counters),
                HeadEvent::SimulationCancelled => run.stop(StopReason::Cancelled, counters),
                HeadEvent::SimulationFailed => run.stop(StopReason::SimulationFailed, counters),
                HeadEvent::Simulated(simulation) => {
                    let HeadRun { head, phase: _, total, mut simulations, merged, finished } = run;
                    let finished = Ghost(finished@.push(simulation));
                    simulations.push(simulation);
                    let (phase, action) = if simulations.len() < total {
                        (Phase::Simulating, HeadAction::Wait)
                    } else {
                        (Phase::Comparing, HeadAction::ReadHead)
                    };
                    let run = HeadRun { head, phase, total, simulations, merged, finished };
                    (run, action)
                },
                _ => (run, HeadAction::Ignore),
            },
            Phase::Comparing => match event {
                HeadEvent::CurrentHead(current) => {
                    if is_same_head(&current, &run.head.hash) {
                        let HeadRun { head, phase: _, total, simulations, merged: _, finished } = run;
                        let merged = merge_simulations(head, simulations);
                        let run = HeadRun {
                            head,
                            phase: Phase::Confirming,
                            total,
                            simulations: Vec::new(),
                            merged: Some(merged),
                            finished,
                        };
                        (run, HeadAction::ReadHead)
                    } else {
                        run.stop(StopReason::Discarded, counters)
                    }
                },
                _ => (run, HeadAction::Ignore),
            },
            Phase::Confirming => match event {
                HeadEvent::CurrentHead(current) => {
                    if is_same_head(&current, &run.head.hash) {
                        run.publish(counters)
                    } else {
                        run.stop(StopReason::Discarded, counters)
                    }
                },
                _ => (run, HeadAction::Ignore),
            },
            Phase::Over => (run, HeadAction::Ignore),
        }
    }

    /// Ends the run without publishing anything.
    fn stop(self, reason: StopReason, counters: &mut SimulationCounters) -> (res: (
        Self,
        HeadAction,
    ))
        ensures
            res.0.spec_head() == self.spec_head(),
            res.0.state() == (RunState { phase: Phase::Over, ..self.state() }),
            res.1 == HeadAction::Stop(reason),
            *final(counters) == counted(*old(counters), Step::Stop(reason)),
    {
        match reason {
            StopReason::Cancelled | StopReason::Discarded => {
                let _ = counters.record_stale();
            },
            _ => {},
        }
        let HeadRun { head, phase: _, total, simulations, merged, finished } = self;
        let run = HeadRun { head, phase: Phase::Over, total, simulations, merged, finished };
        (run, HeadAction::Stop(reason))
    }

    /// Ends the run with a report on its merged simulations.
    fn publish(self, counters: &mut SimulationCounters) -> (res: (Self, HeadAction))
        requires
            self.state().phase == Phase::Confirming,
        ensures
            res.0.spec_head() == self.spec_head(),
            res.0.state() == (RunState { phase: Phase::Over, ..self.state() }),
            *final(counters) == counted(*old(counters), Step::Publish),
            res.1 matches HeadAction::Publish(report) && {
                &&& report.fresh == final(counters).fresh
                &&& report.stale == final(counters).stale
                &&& report.transactions == self.state().total
                &&& (report.fresh, report.stale) == final(counters).totals()
                &&& match report.payload {
                    Some(payload) => visits(self.state().simulations).len() > 0 && is_payload_of(
                        payload,
                        self.spec_head(),
                        self.state().simulations,
                    ),
                    None => visits(self.state().simulations).len() == 0,
                }
            },
    {
        proof {
            use_type_invariant(&self);
        }
        let HeadRun { head, phase: _, total, simulations, merged, finished } = self;
        let ghost all = visits(finished@);
        let (fresh, stale) = counters.record_fresh();
        let payload = match merged {
            Some((list, slots, reads, writes)) => {
                if list.accounts.len() == 0 {
                    proof {
                        if all.len() > 0 {
                            assert(has_key(list.accounts@, all[0].account.address));
                        }
                    }
                    None
                } else {
                    proof {
                        assert(is_account_merge(
                            list.accounts@[0].tx_index,
                            list.accounts@[0].storage_items@,
                            visits_to(all, list.accounts@[0].address@),
                        ));
                        if all.len() == 0 {
                            reveal(Seq::filter);
                        }
                    }
                    let bytes = list.rlp_encode();
                    Some(Payload { list, bytes, slots, reads, writes })
                }
            },
            None => None,
        };
        let run = HeadRun { head, phase: Phase::Over, total, simulations, merged: None, finished };
        (run, HeadAction::Publish(HeadReport { transactions: total, fresh, stale, payload }))
    }
}

} // verus!
