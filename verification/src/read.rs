//! The read handler. Under edge triggering one read-readiness notification
//! must be drained completely: the caller repeats the non-blocking read
//! until it would block or the peer is gone, and feeds the outcomes here, in
//! order. This module decides the loop, assembles the drained bytes, and
//! applies the connection's state transition.

use vstd::prelude::*;

use crate::errors::UnknownToken;
use crate::event::DrainStep;
use crate::registry::{lemma_model_wf, model_wf, ConnState, Registration, Registry};

verus! {

/// Outcome of one non-blocking read call, as the caller observed it: a chunk
/// of bytes, a would-block (the drain is complete, the connection stays
/// connected), an EOF (the peer closed), or a read error. Reading is
/// byte-oriented; framing is a collaborator's concern, so no chunk is ever
/// rejected as malformed.
#[derive(Debug)]
pub enum ReadOutcome {
    Data { bytes: Vec<u8> },
    WouldBlock,
    Eof,
    Failed,
}

/// How a read drain ended: the connection is still open (the drain stopped
/// at a would-block), or it is closing because the peer sent EOF, or closing
/// because a read failed.
#[derive(Clone, Copy, PartialEq, Eq, Structural, Debug)]
pub enum ReadEnd {
    Open,
    PeerClosed,
    ReadFailed,
}

/// Model of one read drain: the bytes it consumed, in order, and how it
/// ended.
#[verifier::ext_equal]
pub struct DrainModel {
    pub drained: Seq<u8>,
    pub end: ReadEnd,
}

/// What one read drain consumes and how it ends, outcome by outcome: chunks
/// accumulate until the first would-block, EOF or error; outcomes after that
/// point are never reached.
pub open spec fn apply_reads(outcomes: Seq<ReadOutcome>) -> DrainModel
    decreases outcomes.len(),
{
    if outcomes.len() == 0 {
        DrainModel { drained: Seq::empty(), end: ReadEnd::Open }
    } else {
        match outcomes[0] {
            ReadOutcome::Data { bytes } => {
                let rest = apply_reads(outcomes.drop_first());
                DrainModel { drained: bytes@ + rest.drained, end: rest.end }
            },
            ReadOutcome::WouldBlock => DrainModel { drained: Seq::empty(), end: ReadEnd::Open },
            ReadOutcome::Eof => DrainModel { drained: Seq::empty(), end: ReadEnd::PeerClosed },
            ReadOutcome::Failed => DrainModel { drained: Seq::empty(), end: ReadEnd::ReadFailed },
        }
    }
}

/// What one read drain produced: the bytes consumed in this dispatch, handed
/// to the framing collaborator raw, and how the drain ended.
pub struct ReadReport {
    pub bytes: Vec<u8>,
    pub end: ReadEnd,
}

/// The drain decision after one read outcome: a data chunk keeps the loop
/// going; a would-block, EOF or error ends it.
pub open spec fn read_step_decision(o: ReadOutcome) -> DrainStep {
    match o {
        ReadOutcome::Data { .. } => DrainStep::Continue,
        ReadOutcome::WouldBlock => DrainStep::Stop,
        ReadOutcome::Eof => DrainStep::Stop,
        ReadOutcome::Failed => DrainStep::Stop,
    }
}

/// Tells the caller's read loop whether to keep draining after this outcome.
pub fn read_step(outcome: &ReadOutcome) -> (d: DrainStep)
    ensures
        d == read_step_decision(*outcome),
{
    match outcome {
        ReadOutcome::Data { .. } => DrainStep::Continue,
        ReadOutcome::WouldBlock => DrainStep::Stop,
        ReadOutcome::Eof => DrainStep::Stop,
        ReadOutcome::Failed => DrainStep::Stop,
    }
}

/// Runs one read drain for the connection bound to `token` over the recorded
/// outcomes: assembles exactly the bytes `apply_reads` describes, and when
/// the drain ends with the peer closed or a read error, moves the connection
/// to `Closing`; a drain that ends open leaves the registry untouched.
pub fn run_read(reg: &mut Registry, token: u64, outcomes: &Vec<ReadOutcome>) -> (r: ReadReport)
    requires
        old(reg).wf(),
        old(reg)@.table.dom().contains(token),
        old(reg)@.table[token].kind is Connection,
    ensures
        final(reg).wf(),
        model_wf(final(reg)@),
        final(reg)@.next == old(reg)@.next,
        r.bytes@ == apply_reads(outcomes@).drained,
        r.end == apply_reads(outcomes@).end,
        r.end is Open ==> final(reg)@ == old(reg)@,
        !(r.end is Open) ==> final(reg)@.table == old(reg)@.table.insert(
            token,
            (Registration { state: ConnState::Closing, ..old(reg)@.table[token] }),
        ),
{
    let ghost full = outcomes@;
    let mut collected: Vec<u8> = Vec::new();
    let n = outcomes.len();
    let mut i: usize = 0;
    proof {
        assert(full.skip(0) =~= full);
        assert(Seq::<u8>::empty() + apply_reads(full).drained =~= apply_reads(full).drained);
    }
    while i < n
        invariant
            *reg == *old(reg),
            old(reg).wf(),
            old(reg)@.table.dom().contains(token),
            old(reg)@.table[token].kind is Connection,
            i <= n,
            n == full.len(),
            full == outcomes@,
            apply_reads(full).drained == collected@ + apply_reads(full.skip(i as int)).drained,
            apply_reads(full).end == apply_reads(full.skip(i as int)).end,
        decreases n - i,
    {
        let ghost tail = full.skip(i as int);
        proof {
            assert(tail[0] == full[i as int]);
            assert(tail.drop_first() =~= full.skip(i as int + 1));
        }
        match &outcomes[i] {
            ReadOutcome::Data { bytes } => {
                let ghost cprev = collected@;
                collected.extend_from_slice(bytes.as_slice());
                proof {
                    let rest = apply_reads(tail.drop_first()).drained;
                    assert(cprev + (bytes@ + rest) =~= (cprev + bytes@) + rest);
                }
                i += 1;
            },
            ReadOutcome::WouldBlock => {
                proof {
                    assert(apply_reads(tail).drained =~= Seq::<u8>::empty());
                    assert(apply_reads(full).drained == collected@) by {
                        assert(collected@ + Seq::<u8>::empty() =~= collected@);
                    }
                    lemma_model_wf(reg);
                }
                return ReadReport { bytes: collected, end: ReadEnd::Open };
            },
            ReadOutcome::Eof => {
                proof {
                    assert(apply_reads(full).drained == collected@) by {
                        assert(collected@ + Seq::<u8>::empty() =~= collected@);
                    }
                }
                let res = reg.mark_closing(token);
                proof {
                    assert(res is Ok);
                }
                return ReadReport { bytes: collected, end: ReadEnd::PeerClosed };
            },
            ReadOutcome::Failed => {
                proof {
                    assert(apply_reads(full).drained == collected@) by {
                        assert(collected@ + Seq::<u8>::empty() =~= collected@);
                    }
                }
                let res = reg.mark_closing(token);
                proof {
                    assert(res is Ok);
                }
                return ReadReport { bytes: collected, end: ReadEnd::ReadFailed };
            },
        }
    }
    proof {
        assert(full.skip(n as int) =~= Seq::<ReadOutcome>::empty());
        assert(apply_reads(full).drained == collected@) by {
            assert(collected@ + Seq::<u8>::empty() =~= collected@);
        }
        lemma_model_wf(reg);
    }
    ReadReport { bytes: collected, end: ReadEnd::Open }
}

/// Finishes the close of a connection that a read drain moved to `Closing`:
/// removes its registration and hands it back so the caller can drop the
/// poller subscription and close the handle — after which the token is
/// terminated and can fire no further event.
pub fn finish_close(reg: &mut Registry, token: u64) -> (r: Result<Registration, UnknownToken>)
    requires
        old(reg).wf(),
    ensures
        final(reg).wf(),
        model_wf(final(reg)@),
        final(reg)@.next == old(reg)@.next,
        match r {
            Ok(entry) => {
                &&& old(reg)@.table.dom().contains(token)
                &&& entry == old(reg)@.table[token]
                &&& final(reg)@.table == old(reg)@.table.remove(token)
            },
            Err(_) => !old(reg)@.table.dom().contains(token) && final(reg)@ == old(reg)@,
        },
{
    reg.deregister(token)
}

/// All bytes carried by the data outcomes of a window, in order.
pub open spec fn total_data(outcomes: Seq<ReadOutcome>) -> Seq<u8>
    decreases outcomes.len(),
{
    if outcomes.len() == 0 {
        Seq::empty()
    } else {
        (match outcomes[0] {
            ReadOutcome::Data { bytes } => bytes@,
            _ => Seq::empty(),
        }) + total_data(outcomes.drop_first())
    }
}

/// Law: edge-triggered drain completeness. If N bytes arrive in one
/// notification window — the outcomes are data chunks followed by a
/// would-block — then a single read drain consumes exactly those N bytes,
/// and the connection stays open: no bytes are left pending behind a
/// notification that has already fired.
pub proof fn lemma_drain_complete(outcomes: Seq<ReadOutcome>)
    requires
        outcomes.len() > 0,
        outcomes.last() is WouldBlock,
        forall|i: int| 0 <= i < outcomes.len() - 1 ==> (#[trigger] outcomes[i]) is Data,
    ensures
        apply_reads(outcomes).drained == total_data(outcomes),
        apply_reads(outcomes).end is Open,
    decreases outcomes.len(),
{
    if outcomes.len() == 1 {
        reveal_with_fuel(total_data, 2);
        assert(outcomes[0] is WouldBlock);
        assert(outcomes.drop_first() =~= Seq::<ReadOutcome>::empty());
        assert(total_data(outcomes) =~= Seq::<u8>::empty());
    } else {
        assert(outcomes[0] is Data);
        let tail = outcomes.drop_first();
        assert(tail.last() == outcomes.last());
        assert(forall|i: int| 0 <= i < tail.len() - 1 ==> (#[trigger] tail[i]) is Data);
        lemma_drain_complete(tail);
    }
}

} // verus!
