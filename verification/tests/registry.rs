use evloop::errors::{RegistrationError, UnknownToken};
use evloop::registry::{ConnState, Interest, Registry, SocketKind, TriggerMode};

fn read_interest() -> Interest {
    Interest { readable: true, writable: false }
}

#[test]
fn register_allocates_distinct_tokens() {
    let mut reg = Registry::new();
    let t0 = reg
        .register(10, read_interest(), TriggerMode::Edge, SocketKind::Listener)
        .unwrap();
    let t1 = reg
        .register(11, read_interest(), TriggerMode::Edge, SocketKind::Connection)
        .unwrap();
    assert_eq!(t0, 0);
    assert_eq!(t1, 1);
    assert_ne!(t0, t1);
    let listener = reg.lookup(t0).unwrap();
    assert_eq!(listener.handle, 10);
    assert_eq!(listener.kind, SocketKind::Listener);
    assert_eq!(listener.state, ConnState::Listening);
    let conn = reg.lookup(t1).unwrap();
    assert_eq!(conn.handle, 11);
    assert_eq!(conn.kind, SocketKind::Connection);
    assert_eq!(conn.state, ConnState::Connected);
}

#[test]
fn register_duplicate_handle_fails() {
    let mut reg = Registry::new();
    reg.register(5, read_interest(), TriggerMode::Edge, SocketKind::Listener)
        .unwrap();
    let second = reg.register(5, read_interest(), TriggerMode::Edge, SocketKind::Connection);
    assert_eq!(second, Err(RegistrationError));
}

#[test]
fn deregister_returns_the_registration() {
    let mut reg = Registry::new();
    let t = reg
        .register(7, read_interest(), TriggerMode::Edge, SocketKind::Connection)
        .unwrap();
    let entry = reg.deregister(t).unwrap();
    assert_eq!(entry.token, t);
    assert_eq!(entry.handle, 7);
    assert!(reg.lookup(t).is_none());
}

#[test]
fn deregister_twice_yields_unknown_token() {
    let mut reg = Registry::new();
    let t = reg
        .register(7, read_interest(), TriggerMode::Edge, SocketKind::Connection)
        .unwrap();
    assert!(reg.deregister(t).is_ok());
    assert_eq!(reg.deregister(t), Err(UnknownToken));
}

#[test]
fn deregister_on_empty_registry_is_unknown_token() {
    let mut reg = Registry::new();
    assert_eq!(reg.deregister(0), Err(UnknownToken));
}

#[test]
fn tokens_are_not_reused_while_registrations_change() {
    let mut reg = Registry::new();
    let t0 = reg
        .register(20, read_interest(), TriggerMode::Edge, SocketKind::Connection)
        .unwrap();
    reg.deregister(t0).unwrap();
    let t1 = reg
        .register(21, read_interest(), TriggerMode::Edge, SocketKind::Connection)
        .unwrap();
    assert_ne!(t0, t1);
}

#[test]
fn reregister_changes_interest_and_keeps_identity() {
    let mut reg = Registry::new();
    let t = reg
        .register(9, read_interest(), TriggerMode::Edge, SocketKind::Connection)
        .unwrap();
    reg.reregister(t, Interest { readable: true, writable: true }).unwrap();
    let entry = reg.lookup(t).unwrap();
    assert_eq!(entry.token, t);
    assert_eq!(entry.handle, 9);
    assert_eq!(entry.interest, Interest { readable: true, writable: true });
    assert_eq!(entry.state, ConnState::Connected);
}

#[test]
fn reregister_unknown_token_fails() {
    let mut reg = Registry::new();
    let r = reg.reregister(3, read_interest());
    assert_eq!(r, Err(UnknownToken));
}

#[test]
fn mark_closing_moves_connection_state() {
    let mut reg = Registry::new();
    let t = reg
        .register(9, read_interest(), TriggerMode::Edge, SocketKind::Connection)
        .unwrap();
    reg.mark_closing(t).unwrap();
    assert_eq!(reg.lookup(t).unwrap().state, ConnState::Closing);
}

#[test]
fn lookup_unknown_token_is_none() {
    let reg = Registry::new();
    assert!(reg.lookup(42).is_none());
}
