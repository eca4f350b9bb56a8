//! What holds of every run on top of a head.
use vstd::prelude::*;

use crate::counters::{bumped, SimulationCounters};
use crate::head_run::{
    counted, is_current, HeadAction, HeadEvent, Phase, RunState, Step, StopReason,
};
use crate::trace::SimulatedTransaction;

verus! {

/// What a run that was told `events` knows, and the steps that it took.
pub open spec fn after(hash: Seq<u8>, events: Seq<HeadEvent>) -> (RunState, Seq<Step>)
    decreases events.len(),
{
    if events.len() == 0 {
        (RunState::initial(), Seq::empty())
    } else {
        let (state, steps) = after(hash, events.drop_last());
        let (next, step) = state.next(hash, events.last());
        (next, steps.push(step))
    }
}

/// Whether the run was told at `at` that its head is the current one.
pub open spec fn confirmed_at(hash: Seq<u8>, events: Seq<HeadEvent>, at: int) -> bool {
    0 <= at < events.len() && match events[at] {
        HeadEvent::CurrentHead(current) => is_current(current, hash),
        _ => false,
    }
}

/// Whether a step counts the run as fresh or stale.
pub open spec fn counts(step: Step) -> bool {
    match step {
        Step::Publish => true,
        Step::Stop(reason) => reason == StopReason::Cancelled || reason == StopReason::Discarded,
        _ => false,
    }
}

spec fn kept(hash: Seq<u8>, events: Seq<HeadEvent>) -> bool {
    let (state, steps) = after(hash, events);
    &&& steps.len() == events.len()
    &&& match state.phase {
        Phase::Fetching => state.simulations.len() == 0,
        Phase::Simulating => state.simulations.len() < state.total,
        Phase::Comparing => state.simulations.len() == state.total && state.total > 0,
        Phase::Confirming => state.simulations.len() == state.total && state.total > 0 && exists|
            at: int,
        | confirmed_at(hash, events, at),
        Phase::Over => true,
    }
    &&& state.phase != Phase::Over ==> forall|i: int|
        0 <= i < steps.len() ==> !counts(#[trigger] steps[i]) && !(steps[i] is Stop)
}

proof fn lemma_kept(hash: Seq<u8>, events: Seq<HeadEvent>)
    ensures
        kept(hash, events),
    decreases events.len(),
{
    if events.len() > 0 {
        let before = events.drop_last();
        lemma_kept(hash, before);
        let (old, old_steps) = after(hash, before);
        let (state, steps) = after(hash, events);
        if state.phase == Phase::Confirming {
            if old.phase == Phase::Confirming {
                let at = choose|at: int| confirmed_at(hash, before, at);
                assert(confirmed_at(hash, events, at));
            } else {
                assert(confirmed_at(hash, events, events.len() - 1));
            }
        }
        assert forall|i: int| 0 <= i < steps.len() && state.phase != Phase::Over implies !counts(
            #[trigger] steps[i],
        ) && !(steps[i] is Stop) by {
            if i < old_steps.len() {
                assert(steps[i] == old_steps[i]);
            }
        }
    }
}

/// A run publishes only when it was told twice that its head is the current
/// one, the second time just before it publishes, and only when every pending
/// transaction has been simulated.
pub proof fn law_only_current_and_complete_runs_publish(hash: Seq<u8>, events: Seq<HeadEvent>)
    requires
        events.len() > 0,
        after(hash, events).1.last() is Publish,
    ensures
        confirmed_at(hash, events, events.len() - 1),
        exists|at: int| at < events.len() - 1 && #[trigger] confirmed_at(hash, events, at),
        after(hash, events).0.simulations.len() == after(hash, events).0.total,
        after(hash, events).0.total > 0,
{
    let before = events.drop_last();
    lemma_kept(hash, before);
    let (old, old_steps) = after(hash, before);
    assert(old.phase == Phase::Confirming);
    let at = choose|at: int| confirmed_at(hash, before, at);
    assert(confirmed_at(hash, events, at));
}

/// A run that is over stays so, and answers every further event by ignoring it.
pub proof fn law_over_is_final(hash: Seq<u8>, state: RunState, event: HeadEvent)
    requires
        state.phase == Phase::Over,
    ensures
        state.next(hash, event) == (state, Step::Ignore),
{
}

/// A run is counted at most once, be it as fresh or as stale.
pub proof fn law_counted_at_most_once(hash: Seq<u8>, events: Seq<HeadEvent>, i: int, j: int)
    requires
        0 <= i < j < after(hash, events).1.len(),
    ensures
        !(counts(after(hash, events).1[i]) && counts(after(hash, events).1[j])),
    decreases events.len(),
{
    lemma_kept(hash, events);
    let before = events.drop_last();
    let (old, old_steps) = after(hash, before);
    let steps = after(hash, events).1;
    lemma_kept(hash, before);
    assert(steps[i] == old_steps[i]);
    if j < old_steps.len() {
        law_counted_at_most_once(hash, before, i, j);
        assert(steps[j] == old_steps[j]);
    } else if counts(old_steps[i]) {
        assert(old.phase == Phase::Over);
    }
}

/// A run that is cancelled before all transactions are simulated never
/// publishes: the cancellation ends it.
pub proof fn law_cancelled_runs_publish_nothing(hash: Seq<u8>, state: RunState)
    requires
        state.phase == Phase::Fetching || state.phase == Phase::Simulating,
    ensures
        state.next(hash, HeadEvent::Cancelled).0.phase == Phase::Over,
        state.next(hash, HeadEvent::Cancelled).1 == Step::Stop(StopReason::Cancelled),
{
}

/// A run whose head is no longer the current one when it is done publishes
/// nothing and is stale.
pub proof fn law_overtaken_runs_are_discarded(
    hash: Seq<u8>,
    state: RunState,
    current: Option<[u8; 32]>,
)
    requires
        state.phase == Phase::Comparing || state.phase == Phase::Confirming,
        !is_current(current, hash),
    ensures
        state.next(hash, HeadEvent::CurrentHead(current)).0.phase == Phase::Over,
        state.next(hash, HeadEvent::CurrentHead(current)).1 == Step::Stop(StopReason::Discarded),
{
}

/// Whether an event says that the head with the hash `hash` is the current one.
pub open spec fn says_current(event: HeadEvent, hash: Seq<u8>) -> bool {
    match event {
        HeadEvent::CurrentHead(Some(current)) => current@ == hash,
        _ => false,
    }
}

/// A run that publishes was told twice, the second time just before, that the
/// current head has the very hash of its own. What it publishes is made of the
/// simulations that it was told, and of as many as transactions were pending.
pub proof fn law_published_on_the_same_hash(hash: Seq<u8>, events: Seq<HeadEvent>)
    requires
        events.len() > 0,
        after(hash, events).1.last() is Publish,
    ensures
        says_current(events[events.len() - 1], hash),
        exists|at: int|
            0 <= at < events.len() - 1 && says_current(#[trigger] events[at], hash),
        exists|at: int|
            at < events.len() - 1 && #[trigger] pending_at(
                events,
                at,
                after(hash, events).0.simulations.len(),
            ),
        after(hash, events).0.simulations.len() > 0,
        forall|s: int|
            0 <= s < after(hash, events).0.simulations.len() ==> was_told(
                events,
                #[trigger] after(hash, events).0.simulations[s],
            ),
{
    let before = events.drop_last();
    lemma_kept(hash, before);
    let old = after(hash, before).0;
    let at = choose|at: int| confirmed_at(hash, before, at);
    assert(events[at] == before[at]);
    assert(says_current(events[at], hash));
    lemma_told(hash, before);
    let a = choose|a: int| #[trigger] pending_at(before, a, old.total);
    assert(after(hash, events).0.simulations.len() == old.total);
    assert(pending_at(events, a, after(hash, events).0.simulations.len()));
    assert forall|s: int| 0 <= s < after(hash, events).0.simulations.len() implies was_told(
        events,
        #[trigger] after(hash, events).0.simulations[s],
    ) by {
        assert(after(hash, events).0.simulations[s] == old.simulations[s]);
        lemma_was_told(before, events.last(), old.simulations[s]);
        assert(before.push(events.last()) =~= events);
    }
}

/// Whether the event at `at` says that `count` transactions are pending.
pub open spec fn pending_at(events: Seq<HeadEvent>, at: int, count: nat) -> bool {
    0 <= at < events.len() && match events[at] {
        HeadEvent::Pending(n) => n == count,
        _ => false,
    }
}

/// Whether a simulation is one of those that the events report.
pub open spec fn was_told(events: Seq<HeadEvent>, simulation: SimulatedTransaction) -> bool {
    exists|e: int| 0 <= e < events.len() && #[trigger] events[e] == HeadEvent::Simulated(simulation)
}

proof fn lemma_was_told(events: Seq<HeadEvent>, next: HeadEvent, simulation: SimulatedTransaction)
    requires
        was_told(events, simulation),
    ensures
        was_told(events.push(next), simulation),
{
    let e = choose|e: int|
        0 <= e < events.len() && #[trigger] events[e] == HeadEvent::Simulated(simulation);
    assert(events.push(next)[e] == HeadEvent::Simulated(simulation));
}

/// The simulations of a run are those that it was told, and the number of pending
/// transactions is the one that it was told.
proof fn lemma_told(hash: Seq<u8>, events: Seq<HeadEvent>)
    ensures
        forall|s: int|
            0 <= s < after(hash, events).0.simulations.len() ==> was_told(
                events,
                #[trigger] after(hash, events).0.simulations[s],
            ),
        after(hash, events).0.phase == Phase::Fetching || after(hash, events).0.phase == Phase::Over
            || exists|a: int| #[trigger] pending_at(events, a, after(hash, events).0.total),
    decreases events.len(),
{
    if events.len() > 0 {
        let before = events.drop_last();
        let last = events.last();
        lemma_told(hash, before);
        let old = after(hash, before).0;
        let new = after(hash, events).0;
        assert(before.push(last) =~= events);
        assert forall|s: int| 0 <= s < new.simulations.len() implies was_told(
            events,
            #[trigger] new.simulations[s],
        ) by {
            if s < old.simulations.len() {
                assert(new.simulations[s] == old.simulations[s]);
                lemma_was_told(before, last, old.simulations[s]);
            } else {
                assert(events[events.len() - 1] == HeadEvent::Simulated(new.simulations[s]));
            }
        }
        assert(old.phase == Phase::Over ==> new.phase == Phase::Over);
        assert(old.phase != Phase::Fetching ==> new.total == old.total);
        if old.phase != Phase::Fetching && old.phase != Phase::Over {
            let a = choose|a: int| #[trigger] pending_at(before, a, old.total);
            assert(pending_at(events, a, old.total));
        } else if new.phase == Phase::Simulating {
            assert(last is Pending);
            assert(pending_at(events, events.len() - 1, new.total));
        }
    }
}

/// A run whose simulations are done goes on if it is told that the current head
/// has the very hash of its own, and is discarded if it is told anything else:
/// another hash, or that there is no head.
pub proof fn law_the_current_hash_decides(
    hash: Seq<u8>,
    state: RunState,
    current: Option<[u8; 32]>,
)
    requires
        state.phase == Phase::Comparing || state.phase == Phase::Confirming,
    ensures
        ({
            let (next, step) = state.next(hash, HeadEvent::CurrentHead(current));
            &&& next.simulations == state.simulations
            &&& next.total == state.total
            &&& match current {
                Some(other) => if other@ != hash {
                    next.phase == Phase::Over && step == Step::Stop(StopReason::Discarded)
                } else if state.phase == Phase::Comparing {
                    next.phase == Phase::Confirming && step == Step::ReadHead
                } else {
                    next.phase == Phase::Over && step == Step::Publish
                },
                None => next.phase == Phase::Over && step == Step::Stop(StopReason::Discarded),
            }
        }),
{
}

/// A run that is told of `n` pending transactions, of `n` simulations, and twice
/// that its head is the current one asks for the simulations, waits for all of
/// them, reads the head twice and publishes all of them.
pub proof fn law_complete_runs_publish(hash: Seq<u8>, events: Seq<HeadEvent>, n: usize)
    requires
        0 < n <= 0x1_0000_0000,
        events.len() == n + 3,
        events[0] == HeadEvent::Pending(n),
        forall|i: int| 1 <= i <= n ==> (#[trigger] events[i]) is Simulated,
        says_current(events[n + 1], hash),
        says_current(events[n + 2], hash),
    ensures
        ({
            let (state, steps) = after(hash, events);
            &&& steps.len() == n + 3
            &&& steps[0] == Step::Simulate(n as nat)
            &&& forall|i: int| 1 <= i < n ==> #[trigger] steps[i] == Step::Wait
            &&& steps[n as int] == Step::ReadHead
            &&& steps[n + 1] == Step::ReadHead
            &&& steps[n + 2] == Step::Publish
            &&& state.total == n
            &&& state.simulations.len() == n
            &&& forall|i: int|
                0 <= i < n ==> events[i + 1] == HeadEvent::Simulated(
                    #[trigger] state.simulations[i],
                )
        }),
{
    lemma_simulating(hash, events, n, n as int);
    let a = events.take(n + 1);
    let b = events.take(n + 2);
    assert(b.drop_last() =~= a);
    assert(events.drop_last() =~= b);
    assert(b.last() == events[n + 1]);
    let (first, first_steps) = after(hash, a);
    let (second, second_steps) = after(hash, b);
    assert(second.phase == Phase::Confirming);
    assert(second_steps == first_steps.push(Step::ReadHead));
    assert(after(hash, events).1 == second_steps.push(Step::Publish));
}

proof fn lemma_simulating(hash: Seq<u8>, events: Seq<HeadEvent>, n: usize, k: int)
    requires
        0 < n <= 0x1_0000_0000,
        events.len() > n,
        events[0] == HeadEvent::Pending(n),
        forall|i: int| 1 <= i <= n ==> (#[trigger] events[i]) is Simulated,
        0 <= k <= n,
    ensures
        ({
            let (state, steps) = after(hash, events.take(k + 1));
            &&& state.phase == if k < n {
                Phase::Simulating
            } else {
                Phase::Comparing
            }
            &&& state.total == n
            &&& state.simulations.len() == k
            &&& forall|i: int|
                0 <= i < k ==> events[i + 1] == HeadEvent::Simulated(
                    #[trigger] state.simulations[i],
                )
            &&& steps.len() == k + 1
            &&& steps[0] == Step::Simulate(n as nat)
            &&& forall|i: int| 1 <= i <= k && i < n ==> #[trigger] steps[i] == Step::Wait
            &&& k == n ==> steps[k] == Step::ReadHead
        }),
    decreases k,
{
    let told = events.take(k + 1);
    if k > 0 {
        lemma_simulating(hash, events, n, k - 1);
        assert(told.drop_last() =~= events.take(k));
        assert(told.last() == events[k]);
        let (old, old_steps) = after(hash, events.take(k));
        let (new, steps) = after(hash, told);
        let simulation = events[k]->Simulated_0;
        assert(new.simulations == old.simulations.push(simulation));
        assert(events[k] == HeadEvent::Simulated(simulation));
        let step = if k < n {
            Step::Wait
        } else {
            Step::ReadHead
        };
        assert(steps == old_steps.push(step));
        assert forall|i: int| 0 <= i < k implies events[i + 1] == HeadEvent::Simulated(
            #[trigger] new.simulations[i],
        ) by {
            if i < k - 1 {
                assert(new.simulations[i] == old.simulations[i]);
            }
        }
    } else {
        assert(told.drop_last() =~= Seq::empty());
        assert(told.last() == events[0]);
        assert(after(hash, told.drop_last()) == (RunState::initial(), Seq::<Step>::empty()));
    }
}

/// A run that has nothing to simulate, that cannot, or whose simulation fails
/// ends without publishing anything, and says why.
pub proof fn law_runs_without_result_say_why(hash: Seq<u8>, state: RunState, count: usize)
    requires
        state.phase == Phase::Fetching || state.phase == Phase::Simulating,
    ensures
        state.phase == Phase::Fetching ==> {
            let (next, step) = state.next(hash, HeadEvent::FetchFailed);
            next.phase == Phase::Over && step == Step::Stop(StopReason::FetchFailed)
        },
        state.phase == Phase::Fetching && count == 0 ==> {
            let (next, step) = state.next(hash, HeadEvent::Pending(count));
            next.phase == Phase::Over && step == Step::Stop(StopReason::NothingPending)
        },
        state.phase == Phase::Fetching && count > 0x1_0000_0000 ==> {
            let (next, step) = state.next(hash, HeadEvent::Pending(count));
            next.phase == Phase::Over && step == Step::Stop(StopReason::TooManyTransactions)
        },
        state.phase == Phase::Simulating ==> {
            let (next, step) = state.next(hash, HeadEvent::SimulationFailed);
            next.phase == Phase::Over && step == Step::Stop(StopReason::SimulationFailed)
        },
        state.phase == Phase::Simulating ==> {
            let (next, step) = state.next(hash, HeadEvent::SimulationCancelled);
            next.phase == Phase::Over && step == Step::Stop(StopReason::Cancelled)
        },
{
}

/// What an action is told by its step: which of them it is, how many transactions
/// are to be simulated, and why a run ends.
pub proof fn law_step_tells_the_action(action: HeadAction)
    ensures
        match action {
            HeadAction::Simulate(count) => action.step() == Step::Simulate(count as nat),
            HeadAction::Wait => action.step() == Step::Wait,
            HeadAction::ReadHead => action.step() == Step::ReadHead,
            HeadAction::Stop(reason) => action.step() == Step::Stop(reason),
            HeadAction::Publish(_) => action.step() == Step::Publish,
            HeadAction::Ignore => action.step() == Step::Ignore,
        },
{
}

/// A run that publishes adds one to the fresh ones, a run that is cancelled or
/// discarded adds one to the stale ones, and nothing else is counted. A counter
/// starts over after the highest number of 64 bits.
pub proof fn law_every_end_is_counted_once(counters: SimulationCounters, step: Step)
    ensures
        ({
            let fresh: int = if step is Publish {
                1
            } else {
                0
            };
            let stale: int = if step == Step::Stop(StopReason::Cancelled) || step == Step::Stop(
                StopReason::Discarded,
            ) {
                1
            } else {
                0
            };
            let new = counted(counters, step);
            &&& new.fresh == (counters.fresh + fresh) % 0x1_0000_0000_0000_0000
            &&& new.stale == (counters.stale + stale) % 0x1_0000_0000_0000_0000
        }),
{
}

/// A counter counts by one, and starts over after the highest number of 64 bits.
pub proof fn law_counters_count_by_one(count: u64)
    ensures
        bumped(count) == (count + 1) % 0x1_0000_0000_0000_0000,
{
}

/// Whether an event is one that a run waits for in a phase.
pub open spec fn belongs_to(event: HeadEvent, phase: Phase) -> bool {
    match phase {
        Phase::Fetching => event is Cancelled || event is FetchFailed || event is Pending,
        Phase::Simulating => event is Cancelled || event is SimulationCancelled
            || event is SimulationFailed || event is Simulated,
        Phase::Comparing | Phase::Confirming => event is CurrentHead,
        Phase::Over => false,
    }
}

/// An event that a run does not wait for is ignored, and nothing changes.
pub proof fn law_events_out_of_place_change_nothing(
    hash: Seq<u8>,
    state: RunState,
    event: HeadEvent,
)
    requires
        !belongs_to(event, state.phase),
    ensures
        state.next(hash, event) == (state, Step::Ignore),
{
}

/// A simulation is added to those before it, and the run waits for the next one
/// until there are as many as transactions were pending.
pub proof fn law_every_simulation_is_kept(
    hash: Seq<u8>,
    state: RunState,
    simulation: SimulatedTransaction,
)
    requires
        state.phase == Phase::Simulating,
    ensures
        ({
            let (next, step) = state.next(hash, HeadEvent::Simulated(simulation));
            &&& next.simulations == state.simulations.push(simulation)
            &&& next.total == state.total
            &&& if state.simulations.len() + 1 < state.total {
                next.phase == Phase::Simulating && step == Step::Wait
            } else {
                next.phase == Phase::Comparing && step == Step::ReadHead
            }
        }),
{
}

/// A run begins by waiting for the pending transactions, with no simulation.
pub proof fn law_runs_begin_with_nothing()
    ensures
        RunState::initial().phase == Phase::Fetching,
        RunState::initial().simulations.len() == 0,
{
}

} // verus!
