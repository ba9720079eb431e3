//! The event dispatcher: maps each fired event to the handler of the socket
//! its token is registered for, in the order the poller returned the events.

use vstd::prelude::*;

use crate::event::Event;
use crate::registry::{RegModel, Registry, SocketKind};

verus! {

/// Where one event is dispatched: to the accept handler (the token belongs
/// to the listening socket), to the read handler (it belongs to a
/// connection), or nowhere (no live registration carries it; such an event
/// is logged and skipped, not fatal).
#[derive(Clone, Copy, PartialEq, Eq, Structural, Debug)]
pub enum Dispatch {
    Accept { token: u64 },
    Read { token: u64 },
    Skip { token: u64 },
}

/// The dispatch decision for one event against a registry table.
pub open spec fn dispatch_decision(m: RegModel, ev: Event) -> Dispatch {
    if !m.table.dom().contains(ev.token) {
        Dispatch::Skip { token: ev.token }
    } else if m.table[ev.token].kind is Listener {
        Dispatch::Accept { token: ev.token }
    } else {
        Dispatch::Read { token: ev.token }
    }
}

/// Dispatches one event: looks its token up in the registry and picks the
/// handler by the socket kind found there.
pub fn dispatch_event(reg: &Registry, ev: &Event) -> (d: Dispatch)
    requires
        reg.wf(),
    ensures
        d == dispatch_decision(reg@, *ev),
{
    match reg.lookup(ev.token) {
        None => Dispatch::Skip { token: ev.token },
        Some(r) => match r.kind {
            SocketKind::Listener => Dispatch::Accept { token: ev.token },
            SocketKind::Connection => Dispatch::Read { token: ev.token },
        },
    }
}

/// Dispatches a whole poll batch. The decisions come back in the order the
/// events were returned by the poller: no reordering, no priority.
pub fn dispatch_batch(reg: &Registry, events: &Vec<Event>) -> (ds: Vec<Dispatch>)
    requires
        reg.wf(),
    ensures
        ds@.len() == events@.len(),
        forall|i: int|
            0 <= i < events@.len() ==> ds@[i] == dispatch_decision(reg@, #[trigger] events@[i]),
{
    let mut ds: Vec<Dispatch> = Vec::new();
    let n = events.len();
    let mut i: usize = 0;
    while i < n
        invariant
            reg.wf(),
            i <= n,
            n == events@.len(),
            ds@.len() == i,
            forall|j: int|
                0 <= j < i ==> ds@[j] == dispatch_decision(reg@, #[trigger] events@[j]),
        decreases n - i,
    {
        let d = dispatch_event(reg, &events[i]);
        ds.push(d);
        i += 1;
    }
    ds
}

/// Whether the poller may emit `ev`: its subscription table holds exactly
/// the registry's live tokens (sockets are deregistered before their handles
/// are closed), so every event it emits carries a currently registered
/// token.
pub open spec fn poller_may_emit(m: RegModel, ev: Event) -> bool {
    m.table.dom().contains(ev.token)
}

/// Law: no dangling-token events. Every event of a batch the poller may
/// emit references a currently live registration, so none of them is
/// skipped: each is dispatched to the accept or read handler of the
/// registration its token is bound to.
pub proof fn lemma_no_dangling_dispatch(m: RegModel, events: Seq<Event>)
    requires
        forall|i: int| 0 <= i < events.len() ==> poller_may_emit(m, #[trigger] events[i]),
    ensures
        forall|i: int|
            0 <= i < events.len() ==> !(dispatch_decision(m, #[trigger] events[i]) is Skip),
        forall|i: int|
            0 <= i < events.len() ==> m.table.dom().contains((#[trigger] events[i]).token),
{
}

} // verus!
