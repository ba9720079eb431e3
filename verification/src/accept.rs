//! The accept handler. Under edge triggering the listener's readiness fires
//! once per transition, so one dispatch must accept in a loop until the call
//! would block. The caller performs the non-blocking accept calls and feeds
//! the outcomes here, in order; this module decides the loop and performs
//! every registration.

use vstd::prelude::*;

use crate::event::DrainStep;
use crate::registry::{
    lemma_model_wf, model_has_handle, model_wf, ConnState, Interest, RegModel, Registration,
    Registry, SocketKind, TriggerMode,
};

verus! {

/// Outcome of one non-blocking accept call, as the caller observed it: a new
/// connection's handle, a would-block (the drain is complete), a transient
/// error (logged, the loop continues), or a non-transient listener error
/// (fatal, escalated to the caller).
#[derive(Clone, Copy, PartialEq, Eq, Structural, Debug)]
pub enum AcceptOutcome {
    Accepted { handle: u64 },
    WouldBlock,
    Transient,
    Fatal,
}

/// Model of one accept drain: the registry it leaves behind, the tokens of
/// the connections it registered, in order, and whether it ended on a fatal
/// listener error.
#[verifier::ext_equal]
pub struct AcceptModel {
    pub reg: RegModel,
    pub tokens: Seq<u64>,
    pub fatal: bool,
}

/// The registration an accepted connection gets: read readiness,
/// edge-triggered, starting out connected.
pub open spec fn conn_registration(t: u64, handle: u64) -> Registration {
    Registration {
        token: t,
        handle,
        interest: Interest { readable: true, writable: false },
        mode: TriggerMode::Edge,
        kind: SocketKind::Connection,
        state: ConnState::Connected,
    }
}

/// What one accept drain does to a registry, outcome by outcome: each
/// accepted handle is registered for read readiness (a handle already
/// registered is logged and dropped, non-fatally), a transient error is
/// skipped, a would-block ends the drain, and a fatal error ends it with the
/// fatal flag set.
pub open spec fn apply_accepts(m: RegModel, outcomes: Seq<AcceptOutcome>) -> AcceptModel
    decreases outcomes.len(),
{
    if outcomes.len() == 0 {
        AcceptModel { reg: m, tokens: Seq::empty(), fatal: false }
    } else {
        match outcomes[0] {
            AcceptOutcome::Accepted { handle } => {
                if model_has_handle(m, handle) {
                    apply_accepts(m, outcomes.drop_first())
                } else {
                    let t = m.next as u64;
                    let m2 = RegModel {
                        table: m.table.insert(t, conn_registration(t, handle)),
                        next: m.next + 1,
                    };
                    let rest = apply_accepts(m2, outcomes.drop_first());
                    AcceptModel {
                        reg: rest.reg,
                        tokens: seq![t] + rest.tokens,
                        fatal: rest.fatal,
                    }
                }
            },
            AcceptOutcome::WouldBlock => AcceptModel {
                reg: m,
                tokens: Seq::empty(),
                fatal: false,
            },
            AcceptOutcome::Transient => apply_accepts(m, outcomes.drop_first()),
            AcceptOutcome::Fatal => AcceptModel { reg: m, tokens: Seq::empty(), fatal: true },
        }
    }
}

/// What one accept drain produced: the tokens of the connections now
/// registered, in acceptance order, and whether a fatal listener error must
/// be escalated.
pub struct AcceptReport {
    pub tokens: Vec<u64>,
    pub fatal: bool,
}

/// The drain decision after one accept outcome: an accepted connection and a
/// transient error keep the loop going, a would-block ends it, a fatal error
/// ends it and escalates.
pub open spec fn accept_step_decision(o: AcceptOutcome) -> DrainStep {
    match o {
        AcceptOutcome::Accepted { .. } => DrainStep::Continue,
        AcceptOutcome::Transient => DrainStep::Continue,
        AcceptOutcome::WouldBlock => DrainStep::Stop,
        AcceptOutcome::Fatal => DrainStep::StopFatal,
    }
}

/// Tells the caller's accept loop whether to keep draining after this
/// outcome.
pub fn accept_step(outcome: &AcceptOutcome) -> (d: DrainStep)
    ensures
        d == accept_step_decision(*outcome),
{
    match outcome {
        AcceptOutcome::Accepted { .. } => DrainStep::Continue,
        AcceptOutcome::Transient => DrainStep::Continue,
        AcceptOutcome::WouldBlock => DrainStep::Stop,
        AcceptOutcome::Fatal => DrainStep::StopFatal,
    }
}

/// Runs one accept drain over the recorded outcomes: registers every
/// accepted handle for edge-triggered read readiness and reports the new
/// tokens in order, exactly as `apply_accepts` describes.
pub fn run_accept(reg: &mut Registry, outcomes: &Vec<AcceptOutcome>) -> (r: AcceptReport)
    requires
        old(reg).wf(),
        old(reg)@.next + outcomes@.len() <= u64::MAX as nat,
    ensures
        final(reg).wf(),
        model_wf(final(reg)@),
        final(reg)@ == apply_accepts(old(reg)@, outcomes@).reg,
        r.tokens@ == apply_accepts(old(reg)@, outcomes@).tokens,
        r.fatal == apply_accepts(old(reg)@, outcomes@).fatal,
{
    proof {
        assert(outcomes@.skip(0) =~= outcomes@);
    }
    run_accept_from(reg, outcomes, 0)
}

fn run_accept_from(reg: &mut Registry, outcomes: &Vec<AcceptOutcome>, i: usize) -> (r:
    AcceptReport)
    requires
        old(reg).wf(),
        i <= outcomes@.len(),
        old(reg)@.next + (outcomes@.len() - i) <= u64::MAX as nat,
    ensures
        final(reg).wf(),
        model_wf(final(reg)@),
        final(reg)@ == apply_accepts(old(reg)@, outcomes@.skip(i as int)).reg,
        r.tokens@ == apply_accepts(old(reg)@, outcomes@.skip(i as int)).tokens,
        r.fatal == apply_accepts(old(reg)@, outcomes@.skip(i as int)).fatal,
    decreases outcomes@.len() - i,
{
    let ghost m0 = reg@;
    let ghost tail = outcomes@.skip(i as int);
    if i == outcomes.len() {
        proof {
            assert(tail =~= Seq::<AcceptOutcome>::empty());
            lemma_model_wf(reg);
        }
        AcceptReport { tokens: Vec::new(), fatal: false }
    } else {
        proof {
            assert(tail[0] == outcomes@[i as int]);
            assert(tail.drop_first() =~= outcomes@.skip(i as int + 1));
        }
        let outcome = outcomes[i];
        match outcome {
            AcceptOutcome::Accepted { handle } => {
                match reg.register(
                    handle,
                    Interest { readable: true, writable: false },
                    TriggerMode::Edge,
                    SocketKind::Connection,
                ) {
                    Ok(t) => {
                        proof {
                            assert(reg@ =~= RegModel {
                                table: m0.table.insert(t, conn_registration(t, handle)),
                                next: m0.next + 1,
                            });
                        }
                        let mut rest = run_accept_from(reg, outcomes, i + 1);
                        rest.tokens.insert(0, t);
                        proof {
                            assert(rest.tokens@ =~= seq![t] + apply_accepts(
                                RegModel {
                                    table: m0.table.insert(t, conn_registration(t, handle)),
                                    next: m0.next + 1,
                                },
                                tail.drop_first(),
                            ).tokens);
                        }
                        rest
                    },
                    Err(_) => run_accept_from(reg, outcomes, i + 1),
                }
            },
            AcceptOutcome::WouldBlock => {
                proof {
                    lemma_model_wf(reg);
                }
                AcceptReport { tokens: Vec::new(), fatal: false }
            },
            AcceptOutcome::Transient => run_accept_from(reg, outcomes, i + 1),
            AcceptOutcome::Fatal => {
                proof {
                    lemma_model_wf(reg);
                }
                AcceptReport { tokens: Vec::new(), fatal: true }
            },
        }
    }
}

/// Every accept drain leaves the live registrations it found untouched, and
/// each token it reports is a freshly registered, connected connection.
pub proof fn lemma_apply_accepts_preserves(m: RegModel, outcomes: Seq<AcceptOutcome>)
    requires
        model_wf(m),
        m.next + outcomes.len() <= u64::MAX as nat,
    ensures
        ({
            let r = apply_accepts(m, outcomes);
            &&& model_wf(r.reg)
            &&& m.next <= r.reg.next
            &&& forall|t: u64| #[trigger]
                m.table.dom().contains(t) ==> r.reg.table.dom().contains(t) && r.reg.table[t]
                    == m.table[t]
            &&& forall|k: int|
                0 <= k < r.tokens.len() ==> m.next <= ((#[trigger] r.tokens[k]) as nat)
                    < r.reg.next
            &&& forall|k: int|
                0 <= k < r.tokens.len() ==> {
                    &&& r.reg.table.dom().contains(#[trigger] r.tokens[k])
                    &&& r.reg.table[r.tokens[k]].kind is Connection
                    &&& r.reg.table[r.tokens[k]].state is Connected
                    &&& r.reg.table[r.tokens[k]].token == r.tokens[k]
                }
            &&& forall|k1: int, k2: int|
                #![trigger r.tokens[k1], r.tokens[k2]]
                0 <= k1 < k2 < r.tokens.len() ==> r.tokens[k1] != r.tokens[k2]
        }),
    decreases outcomes.len(),
{
    let r = apply_accepts(m, outcomes);
    if outcomes.len() == 0 {
    } else {
        match outcomes[0] {
            AcceptOutcome::Accepted { handle } => {
                if model_has_handle(m, handle) {
                    lemma_apply_accepts_preserves(m, outcomes.drop_first());
                } else {
                    let t = m.next as u64;
                    assert((t as nat) == m.next);
                    let m2 = RegModel {
                        table: m.table.insert(t, conn_registration(t, handle)),
                        next: m.next + 1,
                    };
                    assert(model_wf(m2));
                    lemma_apply_accepts_preserves(m2, outcomes.drop_first());
                    let rest = apply_accepts(m2, outcomes.drop_first());
                    assert(r.reg == rest.reg);
                    assert(r.tokens == seq![t] + rest.tokens);
                    assert(r.tokens[0] == t);
                    assert(forall|k: int|
                        1 <= k < r.tokens.len() ==> #[trigger] r.tokens[k] == rest.tokens[k - 1]);
                    assert(m2.table.dom().contains(t));
                    assert(r.reg.table.dom().contains(t) && r.reg.table[t] == m2.table[t]);
                    assert forall|t0: u64| #[trigger]
                        m.table.dom().contains(t0) implies r.reg.table.dom().contains(t0)
                        && r.reg.table[t0] == m.table[t0] by {
                        assert(m.table[t0].token == t0);
                        assert(t0 != t);
                        assert(m2.table.dom().contains(t0));
                        assert(m2.table[t0] == m.table[t0]);
                    }
                    assert forall|k: int|
                        0 <= k < r.tokens.len() implies m.next <= ((#[trigger] r.tokens[k]) as nat)
                        < r.reg.next by {
                        if k > 0 {
                            assert(r.tokens[k] == rest.tokens[k - 1]);
                        }
                    }
                    assert forall|k: int|
                        0 <= k < r.tokens.len() implies {
                        &&& r.reg.table.dom().contains(#[trigger] r.tokens[k])
                        &&& r.reg.table[r.tokens[k]].kind is Connection
                        &&& r.reg.table[r.tokens[k]].state is Connected
                        &&& r.reg.table[r.tokens[k]].token == r.tokens[k]
                    } by {
                        if k > 0 {
                            assert(r.tokens[k] == rest.tokens[k - 1]);
                        }
                    }
                    assert forall|k1: int, k2: int|
                        0 <= k1 < k2 < r.tokens.len() implies (#[trigger] r.tokens[k1])
                        != (#[trigger] r.tokens[k2]) by {
                        assert(r.tokens[k2] == rest.tokens[k2 - 1]);
                        assert(m2.next <= (rest.tokens[k2 - 1] as nat));
                        if k1 > 0 {
                            assert(r.tokens[k1] == rest.tokens[k1 - 1]);
                        }
                    }
                }
            },
            AcceptOutcome::WouldBlock => {},
            AcceptOutcome::Transient => {
                lemma_apply_accepts_preserves(m, outcomes.drop_first());
            },
            AcceptOutcome::Fatal => {},
        }
    }
}

/// Law: accept-loop completeness. If M connections with distinct, not yet
/// registered handles arrive in one notification window — the outcomes are M
/// accepted handles followed by a would-block — then one accept drain
/// registers exactly M connections: it reports M pairwise distinct tokens,
/// each live in the resulting registry with state `Connected`, and no fatal
/// error.
pub proof fn lemma_accept_complete(m: RegModel, outcomes: Seq<AcceptOutcome>)
    requires
        model_wf(m),
        m.next + outcomes.len() <= u64::MAX as nat,
        outcomes.len() > 0,
        outcomes.last() is WouldBlock,
        forall|i: int| 0 <= i < outcomes.len() - 1 ==> (#[trigger] outcomes[i]) is Accepted,
        forall|i: int|
            0 <= i < outcomes.len() - 1 ==> !model_has_handle(m, (#[trigger] outcomes[i])->handle),
        forall|i: int, j: int|
            #![trigger outcomes[i]->handle, outcomes[j]->handle]
            0 <= i < j < outcomes.len() - 1 ==> outcomes[i]->handle != outcomes[j]->handle,
    ensures
        ({
            let r = apply_accepts(m, outcomes);
            &&& !r.fatal
            &&& r.tokens.len() == outcomes.len() - 1
            &&& forall|k: int|
                0 <= k < r.tokens.len() ==> {
                    &&& r.reg.table.dom().contains(#[trigger] r.tokens[k])
                    &&& r.reg.table[r.tokens[k]].kind is Connection
                    &&& r.reg.table[r.tokens[k]].state is Connected
                }
            &&& forall|k1: int, k2: int|
                #![trigger r.tokens[k1], r.tokens[k2]]
                0 <= k1 < k2 < r.tokens.len() ==> r.tokens[k1] != r.tokens[k2]
        }),
    decreases outcomes.len(),
{
    lemma_apply_accepts_preserves(m, outcomes);
    let r = apply_accepts(m, outcomes);
    if outcomes.len() == 1 {
    } else {
        let handle = outcomes[0]->handle;
        assert(outcomes[0] is Accepted);
        assert(!model_has_handle(m, handle));
        let t = m.next as u64;
        let m2 = RegModel {
            table: m.table.insert(t, conn_registration(t, handle)),
            next: m.next + 1,
        };
        assert(model_wf(m2));
        let tail = outcomes.drop_first();
        assert(tail.last() == outcomes.last());
        assert(forall|i: int| 0 <= i < tail.len() - 1 ==> (#[trigger] tail[i]) is Accepted);
        assert forall|i: int|
            0 <= i < tail.len() - 1 implies !model_has_handle(m2, (#[trigger] tail[i])->handle) by {
            assert(tail[i] == outcomes[i + 1]);
            assert(outcomes[i + 1]->handle != handle);
            if model_has_handle(m2, tail[i]->handle) {
                let u = choose|u: u64| #[trigger]
                    m2.table.dom().contains(u) && m2.table[u].handle == tail[i]->handle;
                if u == t {
                } else {
                    assert(m.table.dom().contains(u) && m.table[u].handle == tail[i]->handle);
                    assert(model_has_handle(m, tail[i]->handle));
                }
            }
        }
        assert(forall|i: int, j: int|
            #![trigger tail[i]->handle, tail[j]->handle]
            0 <= i < j < tail.len() - 1 ==> tail[i]->handle != tail[j]->handle);
        lemma_accept_complete(m2, tail);
        let rest = apply_accepts(m2, tail);
        assert(r.reg == rest.reg);
        assert(r.tokens == seq![t] + rest.tokens);
        lemma_apply_accepts_preserves(m2, tail);
        assert(m2.table.dom().contains(t));
        assert(r.reg.table.dom().contains(t) && r.reg.table[t] == m2.table[t]);
        assert(forall|k: int|
            1 <= k < r.tokens.len() ==> #[trigger] r.tokens[k] == rest.tokens[k - 1]);
        assert forall|k1: int, k2: int|
            0 <= k1 < k2 < r.tokens.len() implies (#[trigger] r.tokens[k1])
            != (#[trigger] r.tokens[k2]) by {
            assert(r.tokens[k2] == rest.tokens[k2 - 1]);
            assert(m2.next <= (rest.tokens[k2 - 1] as nat));
            if k1 > 0 {
                assert(r.tokens[k1] == rest.tokens[k1 - 1]);
            } else {
                assert((t as nat) == m.next);
            }
        }
    }
}

} // verus!
