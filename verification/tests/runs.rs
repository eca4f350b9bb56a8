use bal_daemon::head_run::{HeadAction, HeadEvent, HeadReport, HeadRun, StopReason};
use bal_daemon::heads::{HeadNews, HeadTracker};
use bal_daemon::live_run::{start_delay_ms, traced_count, LiveAction, LiveEvent, LiveRun};
use bal_daemon::staleness::{ListenAction, ListenEvent, Listener};
use bal_daemon::{HeadContext, SimulatedTransaction, SimulationCounters, StorageAccessItem};

const HEAD: HeadContext = HeadContext { number: 7, hash: [7; 32] };

fn simulation(tx_index: u32, dirty: bool) -> SimulatedTransaction {
    let slot = StorageAccessItem::new(tx_index, dirty, [tx_index as u8; 32], [0; 32]);
    SimulatedTransaction { tx_index, accounts: vec![([1; 20], vec![slot])] }
}

/// The last action of a run that is told `events`.
fn last_action(events: Vec<HeadEvent>, counters: &mut SimulationCounters) -> HeadAction {
    let mut run = HeadRun::new(HEAD);
    let mut last = HeadAction::Ignore;
    for event in events {
        let (next, action) = run.step(event, counters);
        run = next;
        last = action;
    }
    last
}

fn report(action: HeadAction) -> HeadReport {
    match action {
        HeadAction::Publish(report) => report,
        other => panic!("unexpected action {other:?}"),
    }
}

#[test]
fn a_run_that_stays_current_publishes() {
    let mut counters = SimulationCounters { fresh: 3, stale: 2 };
    let mut run = HeadRun::new(HEAD);
    assert_eq!((run.head().number, run.head().hash), (7, [7; 32]));
    let (next, action) = run.step(HeadEvent::Pending(2), &mut counters);
    assert!(matches!(action, HeadAction::Simulate(2)));
    run = next;
    let (next, action) = run.step(HeadEvent::Simulated(simulation(1, false)), &mut counters);
    assert!(matches!(action, HeadAction::Wait));
    run = next;
    let (next, action) = run.step(HeadEvent::Simulated(simulation(0, true)), &mut counters);
    assert!(matches!(action, HeadAction::ReadHead));
    run = next;
    let (next, action) = run.step(HeadEvent::CurrentHead(Some([7; 32])), &mut counters);
    assert!(matches!(action, HeadAction::ReadHead));
    run = next;
    assert_eq!(counters.snapshot(), (3, 2));
    let (next, action) = run.step(HeadEvent::CurrentHead(Some([7; 32])), &mut counters);
    run = next;
    let report = report(action);
    assert_eq!((report.transactions, report.fresh, report.stale), (2, 4, 2));
    let payload = report.payload.unwrap();
    assert_eq!((payload.slots, payload.reads, payload.writes), (2, 1, 1));
    assert_eq!((payload.list.number, payload.list.hash), (7, [7; 32]));
    assert_eq!(payload.bytes, payload.list.rlp_encode());
    assert_eq!(counters.snapshot(), (4, 2));
    // The run is over.
    let (_, action) = run.step(HeadEvent::Cancelled, &mut counters);
    assert!(matches!(action, HeadAction::Ignore));
    assert_eq!(counters.snapshot(), (4, 2));
}

#[test]
fn a_run_without_accesses_is_fresh_without_payload() {
    let mut counters = SimulationCounters::default();
    let empty = SimulatedTransaction { tx_index: 0, accounts: vec![] };
    let action = last_action(
        vec![
            HeadEvent::Pending(1),
            HeadEvent::Simulated(empty),
            HeadEvent::CurrentHead(Some([7; 32])),
            HeadEvent::CurrentHead(Some([7; 32])),
        ],
        &mut counters,
    );
    let report = report(action);
    assert!(report.payload.is_none());
    assert_eq!((report.transactions, report.fresh, report.stale), (1, 1, 0));
}

#[test]
fn runs_without_transactions_are_not_counted() {
    for (event, reason) in [
        (HeadEvent::Pending(0), StopReason::NothingPending),
        (HeadEvent::FetchFailed, StopReason::FetchFailed),
        (HeadEvent::Pending(0x1_0000_0001), StopReason::TooManyTransactions),
    ] {
        let mut counters = SimulationCounters::default();
        let action = last_action(vec![event], &mut counters);
        assert!(matches!(action, HeadAction::Stop(found) if found == reason));
        assert_eq!(counters.snapshot(), (0, 0));
    }
    let mut counters = SimulationCounters::default();
    let action = last_action(vec![HeadEvent::Pending(0x1_0000_0000)], &mut counters);
    assert!(matches!(action, HeadAction::Simulate(0x1_0000_0000)));
}

#[test]
fn cancelled_runs_are_stale() {
    for events in [
        vec![HeadEvent::Cancelled],
        vec![HeadEvent::Pending(2), HeadEvent::Cancelled],
        vec![HeadEvent::Pending(2), HeadEvent::SimulationCancelled],
        vec![HeadEvent::Pending(2), HeadEvent::Simulated(simulation(0, true)), HeadEvent::Cancelled],
    ] {
        let mut counters = SimulationCounters::default();
        let action = last_action(events, &mut counters);
        assert!(matches!(action, HeadAction::Stop(StopReason::Cancelled)));
        assert_eq!(counters.snapshot(), (0, 1));
    }
}

#[test]
fn failed_simulations_end_a_run_uncounted() {
    let mut counters = SimulationCounters::default();
    let action =
        last_action(vec![HeadEvent::Pending(2), HeadEvent::SimulationFailed], &mut counters);
    assert!(matches!(action, HeadAction::Stop(StopReason::SimulationFailed)));
    assert_eq!(counters.snapshot(), (0, 0));
}

#[test]
fn overtaken_runs_are_discarded() {
    for current in [None, Some([8; 32])] {
        for confirmed in [false, true] {
            let mut counters = SimulationCounters::default();
            let mut events = vec![HeadEvent::Pending(1), HeadEvent::Simulated(simulation(0, true))];
            if confirmed {
                events.push(HeadEvent::CurrentHead(Some([7; 32])));
            }
            events.push(HeadEvent::CurrentHead(current));
            let action = last_action(events, &mut counters);
            assert!(matches!(action, HeadAction::Stop(StopReason::Discarded)));
            assert_eq!(counters.snapshot(), (0, 1));
        }
    }
}

#[test]
fn events_out_of_place_are_ignored() {
    let mut counters = SimulationCounters::default();
    let action = last_action(vec![HeadEvent::Simulated(simulation(0, true))], &mut counters);
    assert!(matches!(action, HeadAction::Ignore));
    let action = last_action(vec![HeadEvent::CurrentHead(None)], &mut counters);
    assert!(matches!(action, HeadAction::Ignore));
    let action = last_action(vec![HeadEvent::Pending(1), HeadEvent::Pending(3)], &mut counters);
    assert!(matches!(action, HeadAction::Ignore));
    assert_eq!(counters.snapshot(), (0, 0));
}

#[test]
fn each_head_cancels_the_run_before_it() {
    let mut tracker = HeadTracker::new();
    assert!(matches!(tracker.observe(None, Some([1; 32])), HeadNews::MissingNumber));
    assert!(matches!(tracker.observe(Some(1), None), HeadNews::MissingHash));
    assert_eq!((tracker.current, tracker.active), (None, false));
    match tracker.observe(Some(1), Some([1; 32])) {
        HeadNews::NewHead { head, cancel_previous } => {
            assert_eq!((head.number, head.hash, cancel_previous), (1, [1; 32], false));
        }
        other => panic!("unexpected news {other:?}"),
    }
    assert!(matches!(
        tracker.observe(Some(2), Some([2; 32])),
        HeadNews::NewHead { cancel_previous: true, .. }
    ));
    assert_eq!(tracker.current, Some([2; 32]));
    assert!(tracker.close());
    assert!(!tracker.close());
}

#[test]
fn at_most_twenty_transactions_are_traced() {
    assert_eq!(traced_count(0), 0);
    assert_eq!(traced_count(20), 20);
    assert_eq!(traced_count(21), 20);
    assert_eq!(start_delay_ms(0), 0);
    assert_eq!(start_delay_ms(19), 3800);
}

/// The answers of a measurement that is told `events`, and the counters.
fn measured(events: &[LiveEvent]) -> (Vec<LiveAction>, (u64, u64)) {
    let mut counters = SimulationCounters::default();
    let mut run = LiveRun::new([7; 32]);
    let actions = events.iter().map(|&event| run.step(event, &mut counters)).collect();
    (actions, counters.snapshot())
}

const DONE: LiveEvent = LiveEvent::TraceEnded { succeeded: true, cancelled: false };
const FAILED: LiveEvent = LiveEvent::TraceEnded { succeeded: false, cancelled: false };
const DONE_LATE: LiveEvent = LiveEvent::TraceEnded { succeeded: true, cancelled: true };
const FAILED_LATE: LiveEvent = LiveEvent::TraceEnded { succeeded: false, cancelled: true };

#[test]
fn traces_that_are_done_in_time_are_fresh() {
    let current = LiveEvent::CurrentHead(Some([7; 32]));
    assert_eq!(
        measured(&[LiveEvent::Pending(2), DONE, FAILED, current, current]),
        (
            vec![
                LiveAction::Trace(2),
                LiveAction::Wait,
                LiveAction::ReadHead,
                LiveAction::Fresh,
                LiveAction::Ignore
            ],
            (1, 0)
        )
    );
}

#[test]
fn traces_that_are_overtaken_are_stale() {
    assert_eq!(measured(&[LiveEvent::Cancelled]), (vec![LiveAction::Stale], (0, 1)));
    let (actions, counts) = measured(&[LiveEvent::Pending(30), DONE_LATE, FAILED_LATE]);
    assert_eq!(actions, vec![LiveAction::Trace(20), LiveAction::Wait, LiveAction::Stale]);
    assert_eq!(counts, (0, 1));
    for current in [None, Some([8; 32])] {
        let (actions, counts) =
            measured(&[LiveEvent::Pending(1), DONE, LiveEvent::CurrentHead(current)]);
        assert_eq!(actions[2], LiveAction::Stale);
        assert_eq!(counts, (0, 1));
    }
}

#[test]
fn measurements_without_transactions_are_not_counted() {
    assert_eq!(measured(&[LiveEvent::Pending(0)]), (vec![LiveAction::NothingPending], (0, 0)));
    assert_eq!(measured(&[LiveEvent::FetchFailed]), (vec![LiveAction::FetchFailed], (0, 0)));
}

#[test]
fn listening_ends_after_thirty_seconds() {
    let mut listener = Listener::new();
    assert_eq!(listener.step(ListenEvent::Ready, 0), ListenAction::Connect);
    assert_eq!(listener.step(ListenEvent::Listening, 29_999), ListenAction::Listen);
    assert_eq!(listener.step(ListenEvent::Closed, 29_999), ListenAction::Pause(3000));
    for event in [
        ListenEvent::Ready,
        ListenEvent::SubscribeFailed,
        ListenEvent::Listening,
        ListenEvent::Closed,
    ] {
        assert_eq!(listener.step(event, 30_000), ListenAction::Finish);
    }
    assert_eq!(listener.failures, 0);
}

#[test]
fn the_fourth_failed_connection_ends_listening() {
    let mut listener = Listener::new();
    for _ in 0..3 {
        assert_eq!(listener.step(ListenEvent::ConnectFailed, 10), ListenAction::Pause(3000));
        assert_eq!(listener.step(ListenEvent::SubscribeFailed, 20), ListenAction::Connect);
    }
    assert_eq!(listener.step(ListenEvent::ConnectFailed, 30), ListenAction::GiveUp);
    assert_eq!(listener.step(ListenEvent::ConnectFailed, 40), ListenAction::GiveUp);
}
