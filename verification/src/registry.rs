//! The socket registry: it owns the token allocator and the table of live
//! registrations, and it mirrors the subscription table that the OS-level
//! poller is driven with. Tokens are handed out from a monotonic counter, so
//! a token is never reused while any registration is live.

use vstd::prelude::*;

use crate::errors::{RegistrationError, UnknownToken};

verus! {

/// The interest set of a registration: which readiness kinds the poller
/// should report for the socket.
#[derive(Clone, Copy, PartialEq, Eq, Structural, Debug)]
pub struct Interest {
    pub readable: bool,
    pub writable: bool,
}

/// How the poller signals readiness for a registration: once per state
/// transition to ready (edge), or as long as the socket stays ready (level).
#[derive(Clone, Copy, PartialEq, Eq, Structural, Debug)]
pub enum TriggerMode {
    Edge,
    Level,
}

/// Whether a registered socket is the listening socket or an accepted
/// connection.
#[derive(Clone, Copy, PartialEq, Eq, Structural, Debug)]
pub enum SocketKind {
    Listener,
    Connection,
}

/// Lifecycle state of a registered socket. The listening socket stays in
/// `Listening`; a connection starts `Connected` and moves to `Closing` when
/// the peer sends EOF or a read fails. Deregistration removes the entry
/// altogether, which is the terminated state.
#[derive(Clone, Copy, PartialEq, Eq, Structural, Debug)]
pub enum ConnState {
    Listening,
    Connected,
    Closing,
}

/// One live registration: a token bound to a socket handle together with the
/// interest set, the trigger mode, and the socket's lifecycle state.
#[derive(Clone, Copy, PartialEq, Eq, Structural, Debug)]
pub struct Registration {
    pub token: u64,
    pub handle: u64,
    pub interest: Interest,
    pub mode: TriggerMode,
    pub kind: SocketKind,
    pub state: ConnState,
}

/// Mathematical model of a registry: the table of live registrations keyed
/// by token, and the counter the next token is drawn from.
#[verifier::ext_equal]
pub struct RegModel {
    pub table: Map<u64, Registration>,
    pub next: nat,
}

/// The state a socket of the given kind is registered in.
pub open spec fn initial_state(kind: SocketKind) -> ConnState {
    match kind {
        SocketKind::Listener => ConnState::Listening,
        SocketKind::Connection => ConnState::Connected,
    }
}

/// Which lifecycle states are admissible for a socket of the given kind.
pub open spec fn state_fits(kind: SocketKind, state: ConnState) -> bool {
    match kind {
        SocketKind::Listener => state is Listening,
        SocketKind::Connection => state is Connected || state is Closing,
    }
}

/// Whether some live registration already covers the given socket handle.
pub open spec fn model_has_handle(m: RegModel, handle: u64) -> bool {
    exists|t: u64| #[trigger] m.table.dom().contains(t) && m.table[t].handle == handle
}

/// Well-formedness of a registry model: every entry is keyed by its own
/// token, tokens are below the allocation counter (so fresh tokens never
/// collide), states fit their socket kind, and no two registrations share a
/// socket handle.
pub open spec fn model_wf(m: RegModel) -> bool {
    &&& forall|t: u64| #[trigger] m.table.dom().contains(t) ==> {
        &&& m.table[t].token == t
        &&& (m.table[t].token as nat) < m.next
        &&& state_fits(m.table[t].kind, m.table[t].state)
    }
    &&& forall|t1: u64, t2: u64|
        #![trigger m.table[t1].handle, m.table[t2].handle]
        m.table.dom().contains(t1) && m.table.dom().contains(t2) && t1 != t2
            ==> m.table[t1].handle != m.table[t2].handle
}

/// First registration in `s` carrying the given token, if any.
pub open spec fn seq_lookup(s: Seq<Registration>, t: u64) -> Option<Registration>
    decreases s.len(),
{
    if s.len() == 0 {
        None
    } else if s[0].token == t {
        Some(s[0])
    } else {
        seq_lookup(s.drop_first(), t)
    }
}

/// No two registrations in `s` carry the same token.
pub open spec fn tokens_distinct(s: Seq<Registration>) -> bool {
    forall|i: int, j: int|
        #![trigger s[i].token, s[j].token]
        0 <= i < j < s.len() ==> s[i].token != s[j].token
}

/// No two registrations in `s` carry the same socket handle.
pub open spec fn handles_distinct(s: Seq<Registration>) -> bool {
    forall|i: int, j: int|
        #![trigger s[i].handle, s[j].handle]
        0 <= i < j < s.len() ==> s[i].handle != s[j].handle
}

proof fn lemma_lookup_push(s: Seq<Registration>, r: Registration, t: u64)
    ensures
        seq_lookup(s.push(r), t) == (if seq_lookup(s, t) is Some {
            seq_lookup(s, t)
        } else if r.token == t {
            Some(r)
        } else {
            None::<Registration>
        }),
    decreases s.len(),
{
    if s.len() == 0 {
        assert(s.push(r)[0] == r);
        assert(s.push(r).drop_first() =~= Seq::<Registration>::empty());
    } else {
        assert(s.push(r)[0] == s[0]);
        assert(s.push(r).drop_first() =~= s.drop_first().push(r));
        lemma_lookup_push(s.drop_first(), r, t);
    }
}

proof fn lemma_lookup_none(s: Seq<Registration>, t: u64)
    requires
        forall|i: int| 0 <= i < s.len() ==> (#[trigger] s[i]).token != t,
    ensures
        seq_lookup(s, t) is None,
    decreases s.len(),
{
    if s.len() > 0 {
        assert(forall|i: int|
            0 <= i < s.drop_first().len() ==> (#[trigger] s.drop_first()[i]).token != t);
        lemma_lookup_none(s.drop_first(), t);
    }
}

proof fn lemma_lookup_index(s: Seq<Registration>, i: int)
    requires
        0 <= i < s.len(),
        tokens_distinct(s),
    ensures
        seq_lookup(s, s[i].token) == Some(s[i]),
    decreases i,
{
    if i > 0 {
        assert(s[0].token != s[i].token);
        assert(tokens_distinct(s.drop_first())) by {
            assert(forall|a: int, b: int|
                0 <= a < b < s.drop_first().len()
                    ==> (#[trigger] s.drop_first()[a].token) != (#[trigger] s.drop_first()[b].token));
        }
        lemma_lookup_index(s.drop_first(), i - 1);
        assert(s.drop_first()[i - 1] == s[i]);
    }
}

proof fn lemma_lookup_some(s: Seq<Registration>, t: u64)
    requires
        seq_lookup(s, t) is Some,
    ensures
        exists|i: int|
            0 <= i < s.len() && s[i] == seq_lookup(s, t)->Some_0 && (#[trigger] s[i]).token == t,
    decreases s.len(),
{
    if s.len() == 0 {
    } else if s[0].token == t {
        assert(0 <= 0 < s.len() && s[0] == seq_lookup(s, t)->Some_0 && s[0].token == t);
    } else {
        lemma_lookup_some(s.drop_first(), t);
        let j = choose|j: int|
            0 <= j < s.drop_first().len() && s.drop_first()[j] == seq_lookup(s.drop_first(), t)->Some_0
                && (#[trigger] s.drop_first()[j]).token == t;
        assert(s[j + 1] == s.drop_first()[j]);
        assert(0 <= j + 1 < s.len() && s[j + 1] == seq_lookup(s, t)->Some_0 && s[j + 1].token == t);
    }
}

proof fn lemma_lookup_remove(s: Seq<Registration>, i: int, u: u64)
    requires
        0 <= i < s.len(),
        tokens_distinct(s),
    ensures
        seq_lookup(s.remove(i), u) == (if u == s[i].token {
            None::<Registration>
        } else {
            seq_lookup(s, u)
        }),
    decreases s.len(),
{
    if u == s[i].token {
        assert(forall|j: int|
            0 <= j < s.remove(i).len() ==> (#[trigger] s.remove(i)[j]).token != u);
        lemma_lookup_none(s.remove(i), u);
    } else if i == 0 {
        assert(s.remove(0) =~= s.drop_first());
    } else {
        assert(s.remove(i)[0] == s[0]);
        if s[0].token == u {
        } else {
            assert(tokens_distinct(s.drop_first())) by {
                assert(forall|a: int, b: int|
                    0 <= a < b < s.drop_first().len()
                        ==> (#[trigger] s.drop_first()[a].token)
                            != (#[trigger] s.drop_first()[b].token));
            }
            assert(s.remove(i).drop_first() =~= s.drop_first().remove(i - 1));
            assert(s.drop_first()[i - 1] == s[i]);
            lemma_lookup_remove(s.drop_first(), i - 1, u);
        }
    }
}

proof fn lemma_lookup_update(s: Seq<Registration>, i: int, r: Registration, u: u64)
    requires
        0 <= i < s.len(),
        tokens_distinct(s),
        r.token == s[i].token,
    ensures
        seq_lookup(s.update(i, r), u) == (if u == r.token {
            Some(r)
        } else {
            seq_lookup(s, u)
        }),
    decreases s.len(),
{
    if i == 0 {
        assert(s.update(0, r)[0] == r);
        if u != r.token {
            assert(s.update(0, r).drop_first() =~= s.drop_first());
        }
    } else {
        assert(s.update(i, r)[0] == s[0]);
        assert(s[0].token != s[i].token);
        if s[0].token == u {
        } else {
            assert(tokens_distinct(s.drop_first())) by {
                assert(forall|a: int, b: int|
                    0 <= a < b < s.drop_first().len()
                        ==> (#[trigger] s.drop_first()[a].token)
                            != (#[trigger] s.drop_first()[b].token));
            }
            assert(s.update(i, r).drop_first() =~= s.drop_first().update(i - 1, r));
            assert(s.drop_first()[i - 1] == s[i]);
            lemma_lookup_update(s.drop_first(), i - 1, r, u);
        }
    }
}

/// The socket registry: live registrations plus the token counter. The
/// entries of the underlying poller's subscription table are exactly the
/// tokens of this table, because every register and deregister call updates
/// both together (a socket is deregistered before its handle is closed).
pub struct Registry {
    entries: Vec<Registration>,
    next_token: u64,
}

impl View for Registry {
    type V = RegModel;

    closed spec fn view(&self) -> RegModel {
        RegModel {
            table: Map::new(
                |t: u64| seq_lookup(self.entries@, t) is Some,
                |t: u64| seq_lookup(self.entries@, t)->Some_0,
            ),
            next: self.next_token as nat,
        }
    }
}

impl Registry {
    /// Internal invariant tying the vector of entries to the model.
    pub closed spec fn wf(&self) -> bool {
        &&& tokens_distinct(self.entries@)
        &&& handles_distinct(self.entries@)
        &&& forall|i: int|
            0 <= i < self.entries@.len() ==> (#[trigger] self.entries@[i]).token < self.next_token
        &&& forall|i: int|
            0 <= i < self.entries@.len()
                ==> state_fits(self.entries@[i].kind, (#[trigger] self.entries@[i]).state)
    }

    /// An empty registry with no live registrations; the first token handed
    /// out will be 0.
    pub fn new() -> (r: Registry)
        ensures
            r.wf(),
            model_wf(r@),
            r@.table == Map::<u64, Registration>::empty(),
            r@.next == 0,
    {
        let r = Registry { entries: Vec::new(), next_token: 0 };
        proof {
            assert(r@.table =~= Map::<u64, Registration>::empty());
            lemma_model_wf(&r);
        }
        r
    }

    fn find_index(&self, token: u64) -> (r: Option<usize>)
        ensures
            match r {
                Some(i) => i < self.entries@.len() && self.entries@[i as int].token == token,
                None => forall|j: int|
                    0 <= j < self.entries@.len() ==> (#[trigger] self.entries@[j]).token != token,
            },
    {
        let n = self.entries.len();
        let mut i: usize = 0;
        while i < n
            invariant
                i <= n,
                n == self.entries@.len(),
                forall|j: int| 0 <= j < i ==> (#[trigger] self.entries@[j]).token != token,
            decreases n - i,
        {
            if self.entries[i].token == token {
                return Some(i);
            }
            i += 1;
        }
        None
    }

    /// Registers a socket handle with the given interest set, trigger mode
    /// and kind, and returns the fresh token now bound to it. Fails exactly
    /// when the handle is already registered, and then changes nothing; the
    /// caller logs and drops that socket.
    pub fn register(
        &mut self,
        handle: u64,
        interest: Interest,
        mode: TriggerMode,
        kind: SocketKind,
    ) -> (r: Result<u64, RegistrationError>)
        requires
            old(self).wf(),
            old(self)@.next < u64::MAX as nat,
        ensures
            final(self).wf(),
            model_wf(final(self)@),
            match r {
                Ok(token) => {
                    &&& !model_has_handle(old(self)@, handle)
                    &&& token as nat == old(self)@.next
                    &&& !old(self)@.table.dom().contains(token)
                    &&& final(self)@.table == old(self)@.table.insert(
                        token,
                        (Registration {
                            token,
                            handle,
                            interest,
                            mode,
                            kind,
                            state: initial_state(kind),
                        }),
                    )
                    &&& final(self)@.next == old(self)@.next + 1
                },
                Err(_) => model_has_handle(old(self)@, handle) && final(self)@ == old(self)@,
            },
    {
        let n = self.entries.len();
        let mut i: usize = 0;
        while i < n
            invariant
                *self == *old(self),
                old(self).wf(),
                i <= n,
                n == self.entries@.len(),
                forall|j: int| 0 <= j < i ==> (#[trigger] self.entries@[j]).handle != handle,
            decreases n - i,
        {
            if self.entries[i].handle == handle {
                proof {
                    lemma_lookup_index(self.entries@, i as int);
                    assert(self@.table.dom().contains(self.entries@[i as int].token));
                    assert(model_has_handle(self@, handle));
                    lemma_model_wf(self);
                }
                return Err(RegistrationError);
            }
            i += 1;
        }
        proof {
            assert(!model_has_handle(self@, handle)) by {
                if model_has_handle(self@, handle) {
                    let t = choose|t: u64|
                        #[trigger] self@.table.dom().contains(t) && self@.table[t].handle == handle;
                    lemma_lookup_some(self.entries@, t);
                }
            }
        }
        let ghost s0 = self.entries@;
        let ghost m0 = self@;
        let token = self.next_token;
        let st = match kind {
            SocketKind::Listener => ConnState::Listening,
            SocketKind::Connection => ConnState::Connected,
        };
        let reg = Registration { token, handle, interest, mode, kind, state: st };
        proof {
            lemma_lookup_none(s0, token);
        }
        self.entries.push(reg);
        self.next_token = self.next_token + 1;
        proof {
            assert forall|a: int, b: int|
                0 <= a < b < self.entries@.len() implies (#[trigger] self.entries@[a].token)
                != (#[trigger] self.entries@[b].token) by {
                if b == s0.len() {
                    assert(self.entries@[a] == s0[a]);
                } else {
                    assert(self.entries@[a] == s0[a] && self.entries@[b] == s0[b]);
                }
            }
            assert forall|a: int, b: int|
                0 <= a < b < self.entries@.len() implies (#[trigger] self.entries@[a].handle)
                != (#[trigger] self.entries@[b].handle) by {
                if b == s0.len() {
                    assert(self.entries@[a] == s0[a]);
                } else {
                    assert(self.entries@[a] == s0[a] && self.entries@[b] == s0[b]);
                }
            }
            assert forall|j: int|
                0 <= j < self.entries@.len() implies (#[trigger] self.entries@[j]).token
                < self.next_token by {
                if j < s0.len() {
                    assert(self.entries@[j] == s0[j]);
                }
            }
            assert forall|j: int|
                0 <= j < self.entries@.len() implies state_fits(
                self.entries@[j].kind,
                (#[trigger] self.entries@[j]).state,
            ) by {
                if j < s0.len() {
                    assert(self.entries@[j] == s0[j]);
                }
            }
            let t1 = self@.table;
            let t2 = m0.table.insert(token, reg);
            assert forall|u: u64| #[trigger] t1.dom().contains(u) implies t2.dom().contains(u)
                && t1[u] == t2[u] by {
                lemma_lookup_push(s0, reg, u);
            }
            assert forall|u: u64| #[trigger] t2.dom().contains(u) implies t1.dom().contains(u) by {
                lemma_lookup_push(s0, reg, u);
            }
            assert(t1 =~= t2);
            lemma_model_wf(self);
        }
        Ok(token)
    }

    /// Removes the registration bound to `token` and returns it, so the
    /// caller can drop the poller subscription and close the handle. Fails
    /// exactly when no live registration carries the token, and then changes
    /// nothing.
    pub fn deregister(&mut self, token: u64) -> (r: Result<Registration, UnknownToken>)
        requires
            old(self).wf(),
        ensures
            final(self).wf(),
            model_wf(final(self)@),
            final(self)@.next == old(self)@.next,
            match r {
                Ok(reg) => {
                    &&& old(self)@.table.dom().contains(token)
                    &&& reg == old(self)@.table[token]
                    &&& final(self)@.table == old(self)@.table.remove(token)
                },
                Err(_) => !old(self)@.table.dom().contains(token) && final(self)@ == old(self)@,
            },
    {
        let ghost s0 = self.entries@;
        let ghost m0 = self@;
        match self.find_index(token) {
            Some(i) => {
                proof {
                    lemma_lookup_index(s0, i as int);
                }
                let reg = self.entries.remove(i);
                proof {
                    assert forall|a: int, b: int|
                        0 <= a < b < self.entries@.len() implies (#[trigger] self.entries@[a].token)
                        != (#[trigger] self.entries@[b].token) by {
                        lemma_remove_index(s0, i as int, a);
                        lemma_remove_index(s0, i as int, b);
                    }
                    assert forall|a: int, b: int|
                        0 <= a < b < self.entries@.len() implies (#[trigger] self.entries@[a].handle)
                        != (#[trigger] self.entries@[b].handle) by {
                        lemma_remove_index(s0, i as int, a);
                        lemma_remove_index(s0, i as int, b);
                    }
                    assert forall|j: int|
                        0 <= j < self.entries@.len() implies (#[trigger] self.entries@[j]).token
                        < self.next_token by {
                        lemma_remove_index(s0, i as int, j);
                    }
                    assert forall|j: int|
                        0 <= j < self.entries@.len() implies state_fits(
                        self.entries@[j].kind,
                        (#[trigger] self.entries@[j]).state,
                    ) by {
                        lemma_remove_index(s0, i as int, j);
                    }
                    let t1 = self@.table;
                    let t2 = m0.table.remove(token);
                    assert forall|u: u64| #[trigger] t1.dom().contains(u) implies t2.dom().contains(
                        u,
                    ) && t1[u] == t2[u] by {
                        lemma_lookup_remove(s0, i as int, u);
                    }
                    assert forall|u: u64| #[trigger] t2.dom().contains(u) implies t1.dom().contains(
                        u,
                    ) by {
                        lemma_lookup_remove(s0, i as int, u);
                    }
                    assert(t1 =~= t2);
                    lemma_model_wf(self);
                }
                Ok(reg)
            },
            None => {
                proof {
                    lemma_lookup_none(s0, token);
                    lemma_model_wf(self);
                }
                Err(UnknownToken)
            },
        }
    }

    /// Replaces the interest set of the registration bound to `token`,
    /// keeping its token identity, handle, mode, kind and state. Fails
    /// exactly when no live registration carries the token, and then changes
    /// nothing.
    pub fn reregister(&mut self, token: u64, new_interest: Interest) -> (r: Result<
        (),
        UnknownToken,
    >)
        requires
            old(self).wf(),
        ensures
            final(self).wf(),
            model_wf(final(self)@),
            final(self)@.next == old(self)@.next,
            match r {
                Ok(_) => {
                    &&& old(self)@.table.dom().contains(token)
                    &&& final(self)@.table == old(self)@.table.insert(
                        token,
                        (Registration {
                            interest: new_interest,
                            ..old(self)@.table[token]
                        }),
                    )
                },
                Err(_) => !old(self)@.table.dom().contains(token) && final(self)@ == old(self)@,
            },
    {
        let ghost s0 = self.entries@;
        let ghost m0 = self@;
        match self.find_index(token) {
            Some(i) => {
                proof {
                    lemma_lookup_index(s0, i as int);
                }
                let mut reg = self.entries[i];
                reg.interest = new_interest;
                self.entries[i] = reg;
                proof {
                    self.lemma_after_update(s0, m0, i as int, reg, token);
                }
                Ok(())
            },
            None => {
                proof {
                    lemma_lookup_none(s0, token);
                    lemma_model_wf(self);
                }
                Err(UnknownToken)
            },
        }
    }

    /// Moves the connection bound to `token` into the `Closing` state, as the
    /// read handler does when the peer sends EOF or a read fails. Fails
    /// exactly when no live registration carries the token, and then changes
    /// nothing. The listening socket never closes this way, so a live
    /// `token` must belong to a connection.
    pub fn mark_closing(&mut self, token: u64) -> (r: Result<(), UnknownToken>)
        requires
            old(self).wf(),
            old(self)@.table.dom().contains(token) ==> old(self)@.table[token].kind is Connection,
        ensures
            final(self).wf(),
            model_wf(final(self)@),
            final(self)@.next == old(self)@.next,
            match r {
                Ok(_) => {
                    &&& old(self)@.table.dom().contains(token)
                    &&& final(self)@.table == old(self)@.table.insert(
                        token,
                        (Registration { state: ConnState::Closing, ..old(self)@.table[token] }),
                    )
                },
                Err(_) => !old(self)@.table.dom().contains(token) && final(self)@ == old(self)@,
            },
    {
        let ghost s0 = self.entries@;
        let ghost m0 = self@;
        match self.find_index(token) {
            Some(i) => {
                proof {
                    lemma_lookup_index(s0, i as int);
                }
                let mut reg = self.entries[i];
                reg.state = ConnState::Closing;
                self.entries[i] = reg;
                proof {
                    self.lemma_after_update(s0, m0, i as int, reg, token);
                }
                Ok(())
            },
            None => {
                proof {
                    lemma_lookup_none(s0, token);
                    lemma_model_wf(self);
                }
                Err(UnknownToken)
            },
        }
    }

    /// Returns the live registration bound to `token`, if any; the registry
    /// is not changed.
    pub fn lookup(&self, token: u64) -> (r: Option<Registration>)
        requires
            self.wf(),
        ensures
            r is Some <==> self@.table.dom().contains(token),
            r is Some ==> r->Some_0 == self@.table[token],
    {
        match self.find_index(token) {
            Some(i) => {
                proof {
                    lemma_lookup_index(self.entries@, i as int);
                }
                Some(self.entries[i])
            },
            None => {
                proof {
                    lemma_lookup_none(self.entries@, token);
                }
                None
            },
        }
    }

    /// The token the next successful registration will be bound to. No live
    /// registration carries a token this large, so callers can tell how much
    /// of the token space is left.
    pub fn next_token(&self) -> (r: u64)
        ensures
            r as nat == self@.next,
    {
        self.next_token
    }

    /// Shared proof tail for the two entry-updating operations: the entry at
    /// `i` was replaced by `reg`, which keeps token, handle and kind and a
    /// state fitting the kind.
    proof fn lemma_after_update(
        &self,
        s0: Seq<Registration>,
        m0: RegModel,
        i: int,
        reg: Registration,
        token: u64,
    )
        requires
            0 <= i < s0.len(),
            tokens_distinct(s0),
            handles_distinct(s0),
            forall|j: int| 0 <= j < s0.len() ==> (#[trigger] s0[j]).token < self.next_token,
            forall|j: int|
                0 <= j < s0.len() && j != i ==> state_fits(s0[j].kind, (#[trigger] s0[j]).state),
            state_fits(reg.kind, reg.state),
            reg.token == s0[i].token,
            reg.handle == s0[i].handle,
            s0[i].token == token,
            self.entries@ == s0.update(i, reg),
            m0.table == Map::new(
                |t: u64| seq_lookup(s0, t) is Some,
                |t: u64| seq_lookup(s0, t)->Some_0,
            ),
        ensures
            self.wf(),
            model_wf(self@),
            self@.table == m0.table.insert(token, reg),
    {
        assert forall|a: int, b: int|
            0 <= a < b < self.entries@.len() implies (#[trigger] self.entries@[a].token)
            != (#[trigger] self.entries@[b].token) by {
            assert(self.entries@[a] == if a == i { reg } else { s0[a] });
            assert(self.entries@[b] == if b == i { reg } else { s0[b] });
        }
        assert forall|a: int, b: int|
            0 <= a < b < self.entries@.len() implies (#[trigger] self.entries@[a].handle)
            != (#[trigger] self.entries@[b].handle) by {
            assert(self.entries@[a] == if a == i { reg } else { s0[a] });
            assert(self.entries@[b] == if b == i { reg } else { s0[b] });
        }
        assert forall|j: int|
            0 <= j < self.entries@.len() implies (#[trigger] self.entries@[j]).token
            < self.next_token by {
            assert(self.entries@[j] == if j == i { reg } else { s0[j] });
        }
        assert forall|j: int|
            0 <= j < self.entries@.len() implies state_fits(
            self.entries@[j].kind,
            (#[trigger] self.entries@[j]).state,
        ) by {
            assert(self.entries@[j] == if j == i { reg } else { s0[j] });
        }
        lemma_lookup_index(s0, i);
        let t1 = self@.table;
        let t2 = m0.table.insert(token, reg);
        assert forall|u: u64| #[trigger] t1.dom().contains(u) implies t2.dom().contains(u) && t1[u]
            == t2[u] by {
            lemma_lookup_update(s0, i, reg, u);
        }
        assert forall|u: u64| #[trigger] t2.dom().contains(u) implies t1.dom().contains(u) by {
            lemma_lookup_update(s0, i, reg, u);
        }
        assert(t1 =~= t2);
        lemma_model_wf(self);
    }
}

proof fn lemma_remove_index(s: Seq<Registration>, i: int, j: int)
    requires
        0 <= i < s.len(),
        0 <= j < s.len() - 1,
    ensures
        s.remove(i)[j] == (if j < i {
            s[j]
        } else {
            s[j + 1]
        }),
{
}

/// A well-formed registry has a well-formed model; exported so that callers
/// holding `wf` can recover the model-level facts.
pub proof fn lemma_model_wf(r: &Registry)
    requires
        r.wf(),
    ensures
        model_wf(r@),
{
    assert forall|t: u64| #[trigger] r@.table.dom().contains(t) implies {
        &&& r@.table[t].token == t
        &&& (r@.table[t].token as nat) < r@.next
        &&& state_fits(r@.table[t].kind, r@.table[t].state)
    } by {
        lemma_lookup_some(r.entries@, t);
    }
    assert forall|t1: u64, t2: u64|
        r@.table.dom().contains(t1) && r@.table.dom().contains(t2) && t1 != t2 implies (
    #[trigger] r@.table[t1].handle) != (#[trigger] r@.table[t2].handle) by {
        lemma_lookup_some(r.entries@, t1);
        lemma_lookup_some(r.entries@, t2);
        let i1 = choose|i: int|
            0 <= i < r.entries@.len() && r.entries@[i] == seq_lookup(r.entries@, t1)->Some_0
                && (#[trigger] r.entries@[i]).token == t1;
        let i2 = choose|i: int|
            0 <= i < r.entries@.len() && r.entries@[i] == seq_lookup(r.entries@, t2)->Some_0
                && (#[trigger] r.entries@[i]).token == t2;
        assert(i1 != i2);
        assert(r.entries@[i1].handle != r.entries@[i2].handle);
    }
}

/// Law: deregistration is idempotent in its failure mode. A successful
/// `deregister` of `token` leaves a table in which the token has no live
/// registration, so by `deregister`'s contract a second call with the same
/// token returns `UnknownToken` and leaves the table exactly as the first
/// call left it — never a crash.
pub proof fn lemma_deregister_idempotent(m: RegModel, token: u64)
    requires
        m.table.dom().contains(token),
    ensures
        !m.table.remove(token).dom().contains(token),
        m.table.remove(token).remove(token) == m.table.remove(token),
{
    assert(m.table.remove(token).remove(token) =~= m.table.remove(token));
}

} // verus!
