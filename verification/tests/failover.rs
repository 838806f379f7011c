use http_forker::failover::run_dial;
use http_forker::DestinationSelector;

#[test]
fn ordered_failover_reaches_the_first_reachable_destination() {
    // Two unreachable destinations before a reachable one: the pass tunnels to
    // the third and never attempts anything after it.
    let outcomes = vec![false, false, true, true, false];
    let r = run_dial(&outcomes);
    assert_eq!(r.connected, Some(2));
    assert_eq!(r.attempted, vec![0, 1, 2]);
}

#[test]
fn first_destination_wins_immediately() {
    let outcomes = vec![true, true, false];
    let r = run_dial(&outcomes);
    assert_eq!(r.connected, Some(0));
    assert_eq!(r.attempted, vec![0]);
}

#[test]
fn all_unreachable_connects_nowhere() {
    let outcomes = vec![false, false, false, false];
    let r = run_dial(&outcomes);
    assert_eq!(r.connected, None);
    assert_eq!(r.attempted, vec![0, 1, 2, 3]);
}

#[test]
fn no_failure_memory_across_connections() {
    // A prior connection saw the first destination fail.
    let prior = vec![false, true];
    let r1 = run_dial(&prior);
    assert_eq!(r1.connected, Some(1));

    // The first destination has come back: a new connection still attempts it
    // first, and succeeds at once.
    let now = vec![true, true];
    let r2 = run_dial(&now);
    assert_eq!(r2.connected, Some(0));
    assert_eq!(r2.attempted, vec![0]);
}

#[test]
fn selector_steps_in_order() {
    let mut s = DestinationSelector::new(3);
    assert_eq!(s.next_attempt(), Some(0));
    s.record_failure();
    assert_eq!(s.next_attempt(), Some(1));
    s.record_failure();
    assert_eq!(s.next_attempt(), Some(2));
    s.record_failure();
    assert_eq!(s.next_attempt(), None);
}
