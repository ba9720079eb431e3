use std::time::{Duration, Instant};

use evloop::accept::{run_accept, AcceptOutcome};
use evloop::dispatch::{dispatch_batch, Dispatch};
use evloop::event::{Event, Readiness};
use evloop::read::{finish_close, run_read, ReadEnd, ReadOutcome};
use evloop::registry::{ConnState, Interest, Registry, SocketKind, TriggerMode};

fn read_interest() -> Interest {
    Interest { readable: true, writable: false }
}

// Polling with a timeout and no registered activity returns an empty batch
// after approximately that long: not immediately, not indefinitely. This one
// runs against the real OS poller.
#[test]
fn idle_poll_returns_empty_batch_after_timeout() {
    let addr = "127.0.0.1:0".parse().unwrap();
    let mut listener = mio::net::TcpListener::bind(addr).unwrap();
    let mut poll = mio::Poll::new().unwrap();
    let mut events = mio::Events::with_capacity(8);

    let mut reg = Registry::new();
    let token = reg
        .register(1, read_interest(), TriggerMode::Edge, SocketKind::Listener)
        .unwrap();
    poll.registry()
        .register(&mut listener, mio::Token(token as usize), mio::Interest::READABLE)
        .unwrap();

    let start = Instant::now();
    poll.poll(&mut events, Some(Duration::from_millis(50))).unwrap();
    let elapsed = start.elapsed();

    assert!(events.is_empty());
    assert!(elapsed >= Duration::from_millis(40));
    assert!(elapsed < Duration::from_secs(5));
}

// One client's life seen by the library: the listener is registered, a
// client connects and sends b"hi\n", the read handler observes exactly those
// bytes, and after the client closes, the very next poll batch moves the
// connection to Closing. The poll batches are played in as a poller would
// return them.
#[test]
fn single_client_round_trip() {
    let mut reg = Registry::new();
    let listener_token = reg
        .register(1, read_interest(), TriggerMode::Edge, SocketKind::Listener)
        .unwrap();

    // The client connects: the listener's token fires, and the accept drain
    // finds one connection, then would block.
    let batch = vec![Event { token: listener_token, readiness: Readiness::Readable }];
    let mut conn_token: Option<u64> = None;
    for d in dispatch_batch(&reg, &batch) {
        match d {
            Dispatch::Accept { .. } => {
                let outcomes = vec![
                    AcceptOutcome::Accepted { handle: 100 },
                    AcceptOutcome::WouldBlock,
                ];
                let report = run_accept(&mut reg, &outcomes);
                assert!(!report.fatal);
                assert_eq!(report.tokens.len(), 1);
                conn_token = Some(report.tokens[0]);
            }
            other => panic!("unexpected dispatch {:?}", other),
        }
    }
    let conn_token = conn_token.expect("no connection accepted");
    assert_eq!(reg.lookup(conn_token).unwrap().state, ConnState::Connected);

    // The client sends b"hi\n": the connection's token fires, and the read
    // drain observes exactly those bytes before it would block.
    let batch = vec![Event { token: conn_token, readiness: Readiness::Readable }];
    let mut observed: Vec<u8> = Vec::new();
    for d in dispatch_batch(&reg, &batch) {
        match d {
            Dispatch::Read { token } => {
                let outcomes = vec![
                    ReadOutcome::Data { bytes: b"hi\n".to_vec() },
                    ReadOutcome::WouldBlock,
                ];
                let report = run_read(&mut reg, token, &outcomes);
                assert_eq!(report.end, ReadEnd::Open);
                observed.extend_from_slice(&report.bytes);
            }
            other => panic!("unexpected dispatch {:?}", other),
        }
    }
    assert_eq!(observed, b"hi\n".to_vec());
    assert_eq!(reg.lookup(conn_token).unwrap().state, ConnState::Connected);

    // The client closes: the one subsequent poll batch ends the read drain
    // with EOF, and the transition to Closing is observed.
    let batch = vec![Event { token: conn_token, readiness: Readiness::Readable }];
    let mut closed = false;
    for d in dispatch_batch(&reg, &batch) {
        match d {
            Dispatch::Read { token } => {
                let outcomes = vec![ReadOutcome::Eof];
                let report = run_read(&mut reg, token, &outcomes);
                assert_eq!(report.bytes.len(), 0);
                assert_eq!(report.end, ReadEnd::PeerClosed);
                closed = true;
            }
            other => panic!("unexpected dispatch {:?}", other),
        }
    }
    assert!(closed);
    assert_eq!(reg.lookup(conn_token).unwrap().state, ConnState::Closing);

    // Closing: deregister, close the handle, terminated. No further event
    // for the token dispatches anywhere.
    finish_close(&mut reg, conn_token).unwrap();
    assert!(reg.lookup(conn_token).is_none());
    let batch = vec![Event { token: conn_token, readiness: Readiness::Readable }];
    let ds = dispatch_batch(&reg, &batch);
    assert_eq!(ds, vec![Dispatch::Skip { token: conn_token }]);
}
