use http_forker::relay::run_relay;
use http_forker::relay::RelayEvent;
use http_forker::relay::RelayState;
use http_forker::session::run_session;

fn read_in(data: Vec<u8>) -> RelayEvent {
    RelayEvent::ReadOk {
        from_inbound: true,
        data,
    }
}

fn read_out(data: Vec<u8>) -> RelayEvent {
    RelayEvent::ReadOk {
        from_inbound: false,
        data,
    }
}

#[test]
fn byte_exact_relay_all_values() {
    // Every byte value, 0x00 included, in one inbound chunk: it reaches the
    // outbound side unchanged and in order.
    let all: Vec<u8> = (0u8..=255u8).collect();
    let events = vec![
        read_in(all.clone()),
        RelayEvent::WriteOk,
        read_in(Vec::new()),
        RelayEvent::Released,
    ];
    let r = run_relay(events);
    assert_eq!(r.to_outbound, all);
    assert_eq!(r.to_inbound, Vec::<u8>::new());
    assert!(matches!(r.state, RelayState::Closed));
}

#[test]
fn byte_exact_relay_empty_transfer() {
    // A client that sends nothing and closes: zero bytes either way.
    let events = vec![read_in(Vec::new()), RelayEvent::Released];
    let r = run_relay(events);
    assert_eq!(r.to_outbound, Vec::<u8>::new());
    assert_eq!(r.to_inbound, Vec::<u8>::new());
    assert!(matches!(r.state, RelayState::Closed));
}

#[test]
fn byte_exact_relay_interleaved_directions() {
    // Chunks alternate directions; each direction stays an independent
    // ordered stream, nothing merges across them.
    let events = vec![
        read_in(vec![1, 2]),
        RelayEvent::WriteOk,
        read_out(vec![9]),
        RelayEvent::WriteOk,
        read_in(vec![3]),
        RelayEvent::WriteOk,
        read_out(vec![8, 7]),
        RelayEvent::WriteOk,
        read_out(Vec::new()),
        RelayEvent::Released,
    ];
    let r = run_relay(events);
    assert_eq!(r.to_outbound, vec![1, 2, 3]);
    assert_eq!(r.to_inbound, vec![9, 8, 7]);
    assert!(matches!(r.state, RelayState::Closed));
}

#[test]
fn read_error_closes_the_tunnel() {
    let events = vec![
        read_in(vec![5]),
        RelayEvent::WriteOk,
        RelayEvent::ReadErr { from_inbound: false },
        RelayEvent::Released,
    ];
    let r = run_relay(events);
    assert_eq!(r.to_outbound, vec![5]);
    assert_eq!(r.to_inbound, Vec::<u8>::new());
    assert!(matches!(r.state, RelayState::Closed));
}

#[test]
fn write_error_closes_without_counting_the_chunk() {
    // The chunk whose write failed is not counted as delivered.
    let events = vec![
        read_in(vec![1, 2, 3]),
        RelayEvent::WriteErr,
        RelayEvent::Released,
    ];
    let r = run_relay(events);
    assert_eq!(r.to_outbound, Vec::<u8>::new());
    assert_eq!(r.to_inbound, Vec::<u8>::new());
    assert!(matches!(r.state, RelayState::Closed));
}

#[test]
fn failover_then_echo_scenario() {
    // Destinations: the first refuses the connection, the second accepts,
    // greets with "OK" and echoes what it receives. The client sends
    // [1, 2, 3] and reads back exactly b"OK" followed by [1, 2, 3].
    let outcomes = vec![false, true];
    let events = vec![
        read_out(vec![b'O', b'K']),
        RelayEvent::WriteOk,
        read_in(vec![1, 2, 3]),
        RelayEvent::WriteOk,
        read_out(vec![1, 2, 3]),
        RelayEvent::WriteOk,
        read_in(Vec::new()),
        RelayEvent::Released,
    ];
    let r = run_session(&outcomes, events);
    assert_eq!(r.connected, Some(1));
    assert_eq!(r.attempted, vec![0, 1]);
    // The first destination is never connected to, so no bytes can reach it.
    assert_eq!(r.to_inbound, vec![b'O', b'K', 1, 2, 3]);
    assert_eq!(r.to_outbound, vec![1, 2, 3]);
}

#[test]
fn half_close_still_delivers_the_pending_reply() {
    // The client sends its data and will close; the destination's outstanding
    // reply, read before the client's end-of-stream wins the read race, still
    // reaches the client before the tunnel closes.
    let events = vec![
        read_in(vec![42]),
        RelayEvent::WriteOk,
        read_out(vec![10, 11, 12]),
        RelayEvent::WriteOk,
        read_in(Vec::new()),
        RelayEvent::Released,
    ];
    let r = run_relay(events);
    assert_eq!(r.to_inbound, vec![10, 11, 12]);
    assert_eq!(r.to_outbound, vec![42]);
    assert!(matches!(r.state, RelayState::Closed));
}

#[test]
fn all_unreachable_transfers_nothing() {
    // Whatever the streams could have produced, no tunnel exists when every
    // destination is unreachable: the inbound connection closes with zero
    // bytes transferred in either direction.
    let outcomes = vec![false, false, false];
    let events = vec![read_in(vec![1, 2, 3]), RelayEvent::WriteOk];
    let r = run_session(&outcomes, events);
    assert_eq!(r.connected, None);
    assert_eq!(r.attempted, vec![0, 1, 2]);
    assert_eq!(r.to_inbound, Vec::<u8>::new());
    assert_eq!(r.to_outbound, Vec::<u8>::new());
}

#[test]
fn isolation_between_two_connections() {
    // Two concurrent connections to distinct destinations: each tunnel's
    // deliveries come from its own reads alone.
    let events_a = vec![read_in(vec![1, 1, 1]), RelayEvent::WriteOk];
    let events_b = vec![read_in(vec![2, 2]), RelayEvent::WriteOk];
    let ra = run_relay(events_a);
    let rb = run_relay(events_b);
    assert_eq!(ra.to_outbound, vec![1, 1, 1]);
    assert_eq!(rb.to_outbound, vec![2, 2]);
    assert_eq!(ra.to_inbound, Vec::<u8>::new());
    assert_eq!(rb.to_inbound, Vec::<u8>::new());
}
