use evloop::dispatch::{dispatch_batch, dispatch_event, Dispatch};
use evloop::event::{Event, Readiness};
use evloop::registry::{Interest, Registry, SocketKind, TriggerMode};

fn read_interest() -> Interest {
    Interest { readable: true, writable: false }
}

fn sample_registry() -> (Registry, u64, u64) {
    let mut reg = Registry::new();
    let listener = reg
        .register(10, read_interest(), TriggerMode::Edge, SocketKind::Listener)
        .unwrap();
    let conn = reg
        .register(11, read_interest(), TriggerMode::Edge, SocketKind::Connection)
        .unwrap();
    (reg, listener, conn)
}

#[test]
fn listener_event_goes_to_accept_handler() {
    let (reg, listener, _) = sample_registry();
    let d = dispatch_event(&reg, &Event { token: listener, readiness: Readiness::Readable });
    assert_eq!(d, Dispatch::Accept { token: listener });
}

#[test]
fn connection_event_goes_to_read_handler() {
    let (reg, _, conn) = sample_registry();
    let d = dispatch_event(&reg, &Event { token: conn, readiness: Readiness::Readable });
    assert_eq!(d, Dispatch::Read { token: conn });
}

#[test]
fn unknown_token_is_skipped_not_fatal() {
    let (reg, _, _) = sample_registry();
    let d = dispatch_event(&reg, &Event { token: 99, readiness: Readiness::Readable });
    assert_eq!(d, Dispatch::Skip { token: 99 });
}

#[test]
fn batch_dispatch_preserves_poller_order() {
    let (reg, listener, conn) = sample_registry();
    let events = vec![
        Event { token: conn, readiness: Readiness::Readable },
        Event { token: listener, readiness: Readiness::Readable },
        Event { token: 99, readiness: Readiness::Writable },
        Event { token: conn, readiness: Readiness::Readable },
    ];
    let ds = dispatch_batch(&reg, &events);
    assert_eq!(
        ds,
        vec![
            Dispatch::Read { token: conn },
            Dispatch::Accept { token: listener },
            Dispatch::Skip { token: 99 },
            Dispatch::Read { token: conn },
        ]
    );
}

#[test]
fn deregistered_token_no_longer_dispatches() {
    let (mut reg, _, conn) = sample_registry();
    reg.deregister(conn).unwrap();
    let d = dispatch_event(&reg, &Event { token: conn, readiness: Readiness::Readable });
    assert_eq!(d, Dispatch::Skip { token: conn });
}
