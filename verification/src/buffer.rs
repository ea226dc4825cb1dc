//! The ingestion buffer: a bounded FIFO queue of pending events.
//!
//! Producers submit without ever blocking: when the buffer is full the
//! incoming event is silently shed.  The supervisor is the sole
//! consumer and takes events oldest first.

use vstd::prelude::*;
use crate::event::TxIngestMsg;

verus! {

/// Capacity of the ingestion buffer.
pub const MAX_BUFFERED_TXINGEST_MESSAGES: usize = 10000;

/// A bounded FIFO queue of pending events, oldest first.
pub struct IngestBuffer {
    events: Vec<TxIngestMsg>,
}

impl View for IngestBuffer {
    type V = Seq<TxIngestMsg>;

    closed spec fn view(&self) -> Seq<TxIngestMsg> {
        self.events@
    }
}

impl IngestBuffer {
    /// The buffer never holds more than its capacity.
    pub open spec fn wf(&self) -> bool {
        self@.len() <= MAX_BUFFERED_TXINGEST_MESSAGES
    }

    /// An empty buffer.
    pub fn new() -> (r: IngestBuffer)
        ensures
            r@ == Seq::<TxIngestMsg>::empty(),
            r.wf(),
    {
        IngestBuffer { events: Vec::new() }
    }

    /// How many events are pending.
    pub fn len(&self) -> (r: usize)
        ensures
            r == self@.len(),
    {
        self.events.len()
    }

    /// Non-blocking submission: the event is enqueued when there is
    /// room and silently dropped when the buffer is full.  Returns
    /// whether the event was admitted.
    pub fn submit(&mut self, ev: TxIngestMsg) -> (admitted: bool)
        requires
            old(self).wf(),
        ensures
            final(self).wf(),
            old(self)@.len() < MAX_BUFFERED_TXINGEST_MESSAGES ==> final(self)@ == old(
                self,
            )@.push(ev) && admitted,
            old(self)@.len() >= MAX_BUFFERED_TXINGEST_MESSAGES ==> final(self)@ == old(self)@
                && !admitted,
    {
        if self.events.len() < MAX_BUFFERED_TXINGEST_MESSAGES {
            self.events.push(ev);
            true
        } else {
            false
        }
    }

    /// Remove and return the oldest pending event, if any.
    pub fn take(&mut self) -> (r: Option<TxIngestMsg>)
        requires
            old(self).wf(),
        ensures
            final(self).wf(),
            old(self)@.len() == 0 ==> r is None && final(self)@ == old(self)@,
            old(self)@.len() > 0 ==> r == Option::Some(old(self)@[0]) && final(self)@ == old(
                self,
            )@.skip(1),
    {
        if self.events.len() > 0 {
            let ev = self.events.remove(0);
            proof {
                assert(old(self)@.remove(0) =~= old(self)@.skip(1));
            }
            Option::Some(ev)
        } else {
            Option::None
        }
    }
}

/// The buffer contents after a run of submissions, one per event of
/// `evs` in order, with no intervening consumption.
pub open spec fn submit_all(b: Seq<TxIngestMsg>, evs: Seq<TxIngestMsg>) -> Seq<TxIngestMsg>
    decreases evs.len(),
{
    if evs.len() == 0 {
        b
    } else {
        let b2 = if b.len() < MAX_BUFFERED_TXINGEST_MESSAGES {
            b.push(evs[0])
        } else {
            b
        };
        submit_all(b2, evs.skip(1))
    }
}

/// The shedding policy over a whole run of submissions: however many
/// events are submitted, nothing blocks and the buffer never exceeds
/// its capacity; the events that fit are kept in submission order and
/// every event submitted against a full buffer is shed.
pub proof fn lemma_submit_all_sheds(b: Seq<TxIngestMsg>, evs: Seq<TxIngestMsg>)
    requires
        b.len() <= MAX_BUFFERED_TXINGEST_MESSAGES,
    ensures
        submit_all(b, evs).len() <= MAX_BUFFERED_TXINGEST_MESSAGES,
        b.len() + evs.len() <= MAX_BUFFERED_TXINGEST_MESSAGES ==> submit_all(b, evs) == b + evs,
        b.len() + evs.len() > MAX_BUFFERED_TXINGEST_MESSAGES ==> submit_all(b, evs) == b
            + evs.take(MAX_BUFFERED_TXINGEST_MESSAGES - b.len()),
    decreases evs.len(),
{
    if evs.len() == 0 {
        assert(b + evs =~= b);
    } else {
        if b.len() < MAX_BUFFERED_TXINGEST_MESSAGES {
            let b2 = b.push(evs[0]);
            lemma_submit_all_sheds(b2, evs.skip(1));
            if b.len() + evs.len() <= MAX_BUFFERED_TXINGEST_MESSAGES {
                assert(b2 + evs.skip(1) =~= b + evs);
            } else {
                assert(b2 + evs.skip(1).take(MAX_BUFFERED_TXINGEST_MESSAGES - b2.len()) =~= b
                    + evs.take(MAX_BUFFERED_TXINGEST_MESSAGES - b.len()));
            }
        } else {
            lemma_submit_all_sheds(b, evs.skip(1));
            if b.len() + evs.skip(1).len() <= MAX_BUFFERED_TXINGEST_MESSAGES {
                assert(evs.skip(1).len() == 0);
                assert(submit_all(b, evs) == b);
                assert(evs.take(MAX_BUFFERED_TXINGEST_MESSAGES - b.len()) =~= Seq::<
                    TxIngestMsg,
                >::empty());
                assert(b + evs.take(MAX_BUFFERED_TXINGEST_MESSAGES - b.len()) =~= b);
            } else {
                assert(b + evs.skip(1).take(MAX_BUFFERED_TXINGEST_MESSAGES - b.len()) =~= b
                    + evs.take(MAX_BUFFERED_TXINGEST_MESSAGES - b.len()));
            }
        }
    }
}

} // verus!
