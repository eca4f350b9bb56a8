use bal_daemon::SimulationCounters;

#[test]
fn counters_start_at_zero() {
    assert_eq!(SimulationCounters::default().snapshot(), (0, 0));
}

#[test]
fn counters_count_separately() {
    let mut counters = SimulationCounters::default();
    assert_eq!(counters.record_fresh(), (1, 0));
    assert_eq!(counters.record_stale(), (1, 1));
    assert_eq!(counters.record_stale(), (1, 2));
    assert_eq!(counters.snapshot(), (1, 2));
}

#[test]
fn counters_wrap_around() {
    let mut counters = SimulationCounters { fresh: u64::MAX, stale: u64::MAX };
    assert_eq!(counters.record_fresh(), (0, u64::MAX));
    assert_eq!(counters.record_stale(), (0, 0));
}
