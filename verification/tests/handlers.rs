use evloop::accept::{accept_step, run_accept, AcceptOutcome};
use evloop::event::DrainStep;
use evloop::read::{finish_close, read_step, run_read, ReadEnd, ReadOutcome};
use evloop::registry::{ConnState, Interest, Registry, SocketKind, TriggerMode};

fn read_interest() -> Interest {
    Interest { readable: true, writable: false }
}

fn registry_with_connection() -> (Registry, u64) {
    let mut reg = Registry::new();
    reg.register(1, read_interest(), TriggerMode::Edge, SocketKind::Listener)
        .unwrap();
    let conn = reg
        .register(2, read_interest(), TriggerMode::Edge, SocketKind::Connection)
        .unwrap();
    (reg, conn)
}

#[test]
fn accept_drain_registers_every_arrival() {
    let mut reg = Registry::new();
    reg.register(1, read_interest(), TriggerMode::Edge, SocketKind::Listener)
        .unwrap();
    let outcomes = vec![
        AcceptOutcome::Accepted { handle: 10 },
        AcceptOutcome::Accepted { handle: 11 },
        AcceptOutcome::Accepted { handle: 12 },
        AcceptOutcome::WouldBlock,
    ];
    let report = run_accept(&mut reg, &outcomes);
    assert!(!report.fatal);
    assert_eq!(report.tokens.len(), 3);
    for (k, token) in report.tokens.iter().enumerate() {
        let entry = reg.lookup(*token).unwrap();
        assert_eq!(entry.kind, SocketKind::Connection);
        assert_eq!(entry.state, ConnState::Connected);
        assert_eq!(entry.handle, 10 + k as u64);
        assert_eq!(entry.mode, TriggerMode::Edge);
        assert!(entry.interest.readable);
    }
}

#[test]
fn accept_drain_continues_past_transient_errors() {
    let mut reg = Registry::new();
    let outcomes = vec![
        AcceptOutcome::Accepted { handle: 10 },
        AcceptOutcome::Transient,
        AcceptOutcome::Accepted { handle: 11 },
        AcceptOutcome::WouldBlock,
    ];
    let report = run_accept(&mut reg, &outcomes);
    assert!(!report.fatal);
    assert_eq!(report.tokens.len(), 2);
}

#[test]
fn accept_drain_drops_already_registered_handle() {
    let mut reg = Registry::new();
    reg.register(10, read_interest(), TriggerMode::Edge, SocketKind::Connection)
        .unwrap();
    let outcomes = vec![
        AcceptOutcome::Accepted { handle: 10 },
        AcceptOutcome::Accepted { handle: 11 },
        AcceptOutcome::WouldBlock,
    ];
    let report = run_accept(&mut reg, &outcomes);
    assert!(!report.fatal);
    assert_eq!(report.tokens.len(), 1);
    assert_eq!(reg.lookup(report.tokens[0]).unwrap().handle, 11);
}

#[test]
fn accept_drain_reports_fatal_error() {
    let mut reg = Registry::new();
    let outcomes = vec![AcceptOutcome::Accepted { handle: 10 }, AcceptOutcome::Fatal];
    let report = run_accept(&mut reg, &outcomes);
    assert!(report.fatal);
    assert_eq!(report.tokens.len(), 1);
    assert_eq!(reg.lookup(report.tokens[0]).unwrap().state, ConnState::Connected);
}

#[test]
fn accept_step_decisions() {
    assert_eq!(accept_step(&AcceptOutcome::Accepted { handle: 3 }), DrainStep::Continue);
    assert_eq!(accept_step(&AcceptOutcome::Transient), DrainStep::Continue);
    assert_eq!(accept_step(&AcceptOutcome::WouldBlock), DrainStep::Stop);
    assert_eq!(accept_step(&AcceptOutcome::Fatal), DrainStep::StopFatal);
}

#[test]
fn read_drain_collects_all_bytes_in_one_dispatch() {
    let (mut reg, conn) = registry_with_connection();
    let outcomes = vec![
        ReadOutcome::Data { bytes: b"he".to_vec() },
        ReadOutcome::Data { bytes: b"llo".to_vec() },
        ReadOutcome::WouldBlock,
    ];
    let report = run_read(&mut reg, conn, &outcomes);
    assert_eq!(report.bytes, b"hello".to_vec());
    assert_eq!(report.end, ReadEnd::Open);
    assert_eq!(reg.lookup(conn).unwrap().state, ConnState::Connected);
}

#[test]
fn read_drain_eof_marks_connection_closing() {
    let (mut reg, conn) = registry_with_connection();
    let outcomes = vec![ReadOutcome::Data { bytes: b"hi".to_vec() }, ReadOutcome::Eof];
    let report = run_read(&mut reg, conn, &outcomes);
    assert_eq!(report.bytes, b"hi".to_vec());
    assert_eq!(report.end, ReadEnd::PeerClosed);
    assert_eq!(reg.lookup(conn).unwrap().state, ConnState::Closing);
    let entry = finish_close(&mut reg, conn).unwrap();
    assert_eq!(entry.handle, 2);
    assert!(reg.lookup(conn).is_none());
}

#[test]
fn read_drain_error_marks_connection_closing() {
    let (mut reg, conn) = registry_with_connection();
    let outcomes = vec![ReadOutcome::Failed];
    let report = run_read(&mut reg, conn, &outcomes);
    assert_eq!(report.bytes.len(), 0);
    assert_eq!(report.end, ReadEnd::ReadFailed);
    assert_eq!(reg.lookup(conn).unwrap().state, ConnState::Closing);
}

#[test]
fn read_drain_stops_at_first_would_block() {
    let (mut reg, conn) = registry_with_connection();
    let outcomes = vec![
        ReadOutcome::Data { bytes: b"a".to_vec() },
        ReadOutcome::WouldBlock,
        ReadOutcome::Data { bytes: b"b".to_vec() },
    ];
    let report = run_read(&mut reg, conn, &outcomes);
    assert_eq!(report.bytes, b"a".to_vec());
    assert_eq!(report.end, ReadEnd::Open);
}

#[test]
fn read_step_decisions() {
    assert_eq!(read_step(&ReadOutcome::Data { bytes: vec![1] }), DrainStep::Continue);
    assert_eq!(read_step(&ReadOutcome::WouldBlock), DrainStep::Stop);
    assert_eq!(read_step(&ReadOutcome::Eof), DrainStep::Stop);
    assert_eq!(read_step(&ReadOutcome::Failed), DrainStep::Stop);
}
