//! The connection supervisor and the facade, as one explicit state
//! machine.
//!
//! The emitter holds the configured collector address, the ingestion
//! buffer, the supervisor's state and the record of what has reached
//! the collector.  Everything the subsystem decides — what `connect`
//! and `send` do, how many stale events a reconnect discards, which
//! bytes go on the wire, what a write failure costs — is a transition
//! here with an exact contract.  The embedding program performs the
//! outside work (opening the socket, blocking on the queue, writing)
//! and drives these transitions with the outcomes.

use vstd::prelude::*;
use crate::buffer::IngestBuffer;
use crate::buffer::MAX_BUFFERED_TXINGEST_MESSAGES;
use crate::codec::encode;
use crate::codec::encoding_of;
use crate::event::TxIngestMsg;

verus! {

/// The supervisor's three states.
#[derive(Clone, Copy, Debug, PartialEq, Eq)]
pub enum SupervisorState {
    /// Trying to open a connection to the collector, without bound.
    Connecting,
    /// Connected; the `remaining` events that sat in the buffer at
    /// connect time are stale and are being discarded.
    Resynchronizing { remaining: usize },
    /// Connected and streaming events as they arrive.
    Streaming,
}

/// A snapshot of the whole emitter, for specification.
#[verifier::ext_equal]
pub struct EmitterView {
    /// The collector address fixed by the first `connect`, if any.
    pub addr: Option<Seq<char>>,
    /// The supervisor's state.
    pub state: SupervisorState,
    /// The pending events, oldest first.
    pub buffer: Seq<TxIngestMsg>,
    /// The events that have reached the collector, in wire order.
    pub delivered: Seq<TxIngestMsg>,
}

/// What `connect` does: the first call fixes the address and starts the
/// supervisor; every later call is ignored.
pub open spec fn spec_connect(v: EmitterView, addr: Seq<char>) -> EmitterView {
    if v.addr is Some {
        v
    } else {
        EmitterView { addr: Option::Some(addr), state: SupervisorState::Connecting, ..v }
    }
}

/// What `send` does: dropped when unconfigured, dropped when the buffer
/// is full, appended otherwise.
pub open spec fn spec_send(v: EmitterView, ev: TxIngestMsg) -> EmitterView {
    if v.addr is None {
        v
    } else if v.buffer.len() < MAX_BUFFERED_TXINGEST_MESSAGES {
        EmitterView { buffer: v.buffer.push(ev), ..v }
    } else {
        v
    }
}

/// What reaching the collector does: a snapshot count of the events
/// buffered while disconnected is taken; they are stale and will be
/// discarded before streaming starts.
pub open spec fn spec_connection_established(v: EmitterView) -> EmitterView {
    EmitterView {
        state: SupervisorState::Resynchronizing { remaining: v.buffer.len() as usize },
        ..v
    }
}

/// What resynchronization does: the snapshot count of stale events is
/// removed from the front of the buffer, none of them transmitted, and
/// streaming begins.
pub open spec fn spec_resynchronize(v: EmitterView) -> EmitterView {
    match v.state {
        SupervisorState::Resynchronizing { remaining } => EmitterView {
            state: SupervisorState::Streaming,
            buffer: v.buffer.skip(remaining as int),
            ..v
        },
        _ => v,
    }
}

/// What one streaming step does: the oldest event leaves the buffer and
/// is written to the wire.  When the write succeeds the event has
/// reached the collector; when it fails the event is lost and the
/// supervisor goes back to connecting.
pub open spec fn spec_stream_step(v: EmitterView, transport_ok: bool) -> EmitterView {
    if v.buffer.len() == 0 {
        v
    } else if transport_ok {
        EmitterView { buffer: v.buffer.skip(1), delivered: v.delivered.push(v.buffer[0]), ..v }
    } else {
        EmitterView { buffer: v.buffer.skip(1), state: SupervisorState::Connecting, ..v }
    }
}

/// The telemetry emitter: ingestion buffer, supervisor state, and the
/// configured collector address.  Only one handle exists per process;
/// the first `connect` fixes its configuration.
pub struct Emitter {
    addr: Option<String>,
    state: SupervisorState,
    buffer: IngestBuffer,
    delivered: Vec<TxIngestMsg>,
}

impl View for Emitter {
    type V = EmitterView;

    closed spec fn view(&self) -> EmitterView {
        EmitterView {
            addr: match self.addr {
                Option::Some(s) => Option::Some(s@),
                Option::None => Option::None,
            },
            state: self.state,
            buffer: self.buffer@,
            delivered: self.delivered@,
        }
    }
}

impl Emitter {
    /// The buffer is bounded; a resynchronization snapshot never exceeds
    /// what is buffered; before `connect` nothing is buffered, nothing
    /// delivered, and the supervisor is not running.
    pub open spec fn wf(&self) -> bool {
        &&& self@.buffer.len() <= MAX_BUFFERED_TXINGEST_MESSAGES
        &&& (match self@.state {
            SupervisorState::Resynchronizing { remaining } => remaining <= self@.buffer.len(),
            _ => true,
        })
        &&& (self@.addr is None ==> self@.state is Connecting && self@.buffer.len() == 0
            && self@.delivered.len() == 0)
    }

    /// A fresh, unconfigured emitter.
    pub fn new() -> (r: Emitter)
        ensures
            r.wf(),
            r@.addr is None,
            r@.buffer.len() == 0,
            r@.delivered.len() == 0,
    {
        Emitter {
            addr: Option::None,
            state: SupervisorState::Connecting,
            buffer: IngestBuffer::new(),
            delivered: Vec::new(),
        }
    }

    /// Configure the collector address and start the supervisor.  Only
    /// the first call takes effect; later calls are rejected and change
    /// nothing.  Returns whether this call won.
    pub fn connect(&mut self, addr: String) -> (accepted: bool)
        requires
            old(self).wf(),
        ensures
            final(self).wf(),
            final(self)@ == spec_connect(old(self)@, addr@),
            accepted == (old(self)@.addr is None),
    {
        match self.addr {
            Option::Some(_) => false,
            Option::None => {
                self.addr = Option::Some(addr);
                self.state = SupervisorState::Connecting;
                true
            },
        }
    }

    /// Fire-and-forget submission: never blocks, never fails.  Dropped
    /// silently before `connect` and while the buffer is full.
    pub fn send(&mut self, ev: TxIngestMsg)
        requires
            old(self).wf(),
        ensures
            final(self).wf(),
            final(self)@ == spec_send(old(self)@, ev),
    {
        match self.addr {
            Option::None => (),
            Option::Some(_) => {
                let _ = self.buffer.submit(ev);
            },
        }
    }

    /// The supervisor reached the collector: snapshot how many stale
    /// events must be discarded before streaming.
    pub fn connection_established(&mut self)
        requires
            old(self).wf(),
            old(self)@.addr is Some,
        ensures
            final(self).wf(),
            final(self)@ == spec_connection_established(old(self)@),
    {
        let pending = self.buffer.len();
        self.state = SupervisorState::Resynchronizing { remaining: pending };
    }

    /// Discard the stale backlog counted at connect time, then start
    /// streaming.  None of the discarded events is transmitted.
    pub fn resynchronize(&mut self)
        requires
            old(self).wf(),
            old(self)@.state is Resynchronizing,
        ensures
            final(self).wf(),
            final(self)@ == spec_resynchronize(old(self)@),
    {
        let mut remaining: usize = match self.state {
            SupervisorState::Resynchronizing { remaining } => remaining,
            _ => 0,
        };
        let ghost r0 = remaining;
        while remaining > 0
            invariant
                remaining <= r0,
                r0 <= old(self)@.buffer.len(),
                self@.buffer == old(self)@.buffer.skip(r0 - remaining),
                self@.addr == old(self)@.addr,
                self@.state == old(self)@.state,
                self@.delivered == old(self)@.delivered,
                self@.buffer.len() <= MAX_BUFFERED_TXINGEST_MESSAGES,
            decreases remaining,
        {
            let _ = self.buffer.take();
            proof {
                assert(old(self)@.buffer.skip(r0 - remaining).skip(1) =~= old(
                    self,
                )@.buffer.skip(r0 - (remaining - 1)));
            }
            remaining = remaining - 1;
        }
        self.state = SupervisorState::Streaming;
        proof {
            assert(final(self)@ =~= spec_resynchronize(old(self)@));
        }
    }

    /// One streaming step: take the oldest event and encode it for the
    /// wire; the caller reports whether the write reached the collector.
    /// Returns the wire bytes, or `None` when nothing was pending.  On a
    /// failed write the event is lost — at most once — and the
    /// supervisor goes back to connecting.
    pub fn stream_step(&mut self, transport_ok: bool) -> (frame: Option<Vec<u8>>)
        requires
            old(self).wf(),
            old(self)@.state is Streaming,
        ensures
            final(self).wf(),
            final(self)@ == spec_stream_step(old(self)@, transport_ok),
            match frame {
                Option::Some(f) => old(self)@.buffer.len() > 0 && f@ == encoding_of(
                    old(self)@.buffer[0],
                ),
                Option::None => old(self)@.buffer.len() == 0,
            },
    {
        match self.buffer.take() {
            Option::None => Option::None,
            Option::Some(ev) => {
                let f = encode(&ev);
                if transport_ok {
                    self.delivered.push(ev);
                } else {
                    self.state = SupervisorState::Connecting;
                }
                proof {
                    assert(final(self)@ =~= spec_stream_step(old(self)@, transport_ok));
                }
                Option::Some(f)
            },
        }
    }

    /// How many events have reached the collector, in order.
    pub fn delivered_events(&self) -> (r: &Vec<TxIngestMsg>)
        ensures
            r@ == self@.delivered,
    {
        &self.delivered
    }

    /// How many events are pending in the buffer.
    pub fn pending(&self) -> (r: usize)
        ensures
            r == self@.buffer.len(),
    {
        self.buffer.len()
    }
}

/// The emitter after a run of sends, in order.
pub open spec fn spec_send_all(v: EmitterView, evs: Seq<TxIngestMsg>) -> EmitterView
    decreases evs.len(),
{
    if evs.len() == 0 {
        v
    } else {
        spec_send_all(spec_send(v, evs[0]), evs.skip(1))
    }
}

/// The emitter after `k` streaming steps whose writes all succeed.
pub open spec fn spec_stream_all(v: EmitterView, k: int) -> EmitterView
    decreases k,
{
    if k <= 0 {
        v
    } else {
        spec_stream_all(spec_stream_step(v, true), k - 1)
    }
}

/// Before any `connect`, sends change nothing: no event is buffered, no
/// event is ever transmitted, and no error is raised.
pub proof fn lemma_send_before_connect_is_noop(v: EmitterView, evs: Seq<TxIngestMsg>)
    requires
        v.addr is None,
    ensures
        spec_send_all(v, evs) == v,
    decreases evs.len(),
{
    if evs.len() > 0 {
        lemma_send_before_connect_is_noop(v, evs.skip(1));
    }
}

/// Sends within spare capacity append to the buffer in order.
pub proof fn lemma_send_all_appends(v: EmitterView, evs: Seq<TxIngestMsg>)
    requires
        v.addr is Some,
        v.buffer.len() + evs.len() <= MAX_BUFFERED_TXINGEST_MESSAGES,
    ensures
        spec_send_all(v, evs) == (EmitterView { buffer: v.buffer + evs, ..v }),
    decreases evs.len(),
{
    if evs.len() == 0 {
        assert(v.buffer + evs =~= v.buffer);
        assert(spec_send_all(v, evs) =~= (EmitterView { buffer: v.buffer + evs, ..v }));
    } else {
        let v2 = spec_send(v, evs[0]);
        lemma_send_all_appends(v2, evs.skip(1));
        assert(v2.buffer + evs.skip(1) =~= v.buffer + evs);
        assert(spec_send_all(v, evs) =~= (EmitterView { buffer: v.buffer + evs, ..v }));
    }
}

/// Streaming `k` pending events delivers exactly the oldest `k`, in
/// buffer order.
pub proof fn lemma_stream_all_delivers(v: EmitterView, k: int)
    requires
        v.state is Streaming,
        0 <= k <= v.buffer.len(),
    ensures
        spec_stream_all(v, k) == (EmitterView {
            buffer: v.buffer.skip(k),
            delivered: v.delivered + v.buffer.take(k),
            ..v
        }),
    decreases k,
{
    if k == 0 {
        assert(v.buffer.skip(0) =~= v.buffer);
        assert(v.delivered + v.buffer.take(0) =~= v.delivered);
        assert(spec_stream_all(v, 0) =~= (EmitterView {
            buffer: v.buffer.skip(0),
            delivered: v.delivered + v.buffer.take(0),
            ..v
        }));
    } else {
        let v2 = spec_stream_step(v, true);
        lemma_stream_all_delivers(v2, k - 1);
        assert(v2.buffer.skip(k - 1) =~= v.buffer.skip(k));
        assert(v2.delivered + v2.buffer.take(k - 1) =~= v.delivered + v.buffer.take(k));
        assert(spec_stream_all(v, k) =~= (EmitterView {
            buffer: v.buffer.skip(k),
            delivered: v.delivered + v.buffer.take(k),
            ..v
        }));
    }
}

/// While connected with spare capacity, every submitted event reaches
/// the collector, in submission order (first in, first out).
pub proof fn lemma_fifo_delivery(v: EmitterView, evs: Seq<TxIngestMsg>)
    requires
        v.addr is Some,
        v.state is Streaming,
        v.buffer.len() + evs.len() <= MAX_BUFFERED_TXINGEST_MESSAGES,
    ensures
        ({
            let done = spec_stream_all(
                spec_send_all(v, evs),
                v.buffer.len() + evs.len() as int,
            );
            &&& done.delivered == v.delivered + v.buffer + evs
            &&& done.buffer.len() == 0
            &&& done.state is Streaming
        }),
{
    lemma_send_all_appends(v, evs);
    let v2 = spec_send_all(v, evs);
    lemma_stream_all_delivers(v2, v.buffer.len() + evs.len() as int);
    assert(v2.buffer.take(v.buffer.len() + evs.len() as int) =~= v2.buffer);
    assert(v.delivered + (v.buffer + evs) =~= v.delivered + v.buffer + evs);
}

/// After a transport failure, everything buffered before the failure
/// and not yet sent is discarded during resynchronization — none of it
/// is transmitted — and events submitted after the reconnect are
/// delivered normally.
pub proof fn lemma_reconnect_discards_backlog(v: EmitterView, evs: Seq<TxIngestMsg>)
    requires
        v.addr is Some,
        v.state is Streaming,
        0 < v.buffer.len() <= MAX_BUFFERED_TXINGEST_MESSAGES,
        evs.len() <= MAX_BUFFERED_TXINGEST_MESSAGES,
    ensures
        ({
            let failed = spec_stream_step(v, false);
            let resumed = spec_resynchronize(spec_connection_established(failed));
            &&& resumed.delivered == v.delivered
            &&& resumed.buffer.len() == 0
            &&& resumed.state is Streaming
            &&& spec_stream_all(spec_send_all(resumed, evs), evs.len() as int).delivered
                == v.delivered + evs
        }),
{
    let failed = spec_stream_step(v, false);
    let resumed = spec_resynchronize(spec_connection_established(failed));
    assert(failed.buffer.skip(failed.buffer.len() as int) =~= Seq::<TxIngestMsg>::empty());
    lemma_fifo_delivery(resumed, evs);
    assert(resumed.delivered + resumed.buffer + evs =~= v.delivered + evs);
}

/// The first `connect` wins: a second call with any other address
/// changes nothing, and all traffic keeps going to the first address.
pub proof fn lemma_first_connect_wins(v: EmitterView, a1: Seq<char>, a2: Seq<char>)
    requires
        v.addr is None,
    ensures
        spec_connect(v, a1).addr == Option::Some(a1),
        spec_connect(spec_connect(v, a1), a2) == spec_connect(v, a1),
{
}

} // verus!
