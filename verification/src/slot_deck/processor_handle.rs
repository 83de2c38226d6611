//! Processing-thread handle for the slot deck.

use vstd::prelude::*;
use crate::slot_deck::filled_slot::FilledSlot;
use crate::slot_deck::ring::{Receiver, Sender};

verus! {

/// Processing-thread handle corresponding to an `OverlapBuffer`.
///
/// Receives filled buffers from the audio thread for in-place processing,
/// then sends the same buffers back. The buffer must always be returned —
/// it cannot be dropped, because the audio thread needs it back for reuse.
#[verifier::reject_recursive_types(T)]
pub struct ProcessorHandle<T> {
    /// Receive filled buffers from the audio thread.
    inbound_rx: Receiver<FilledSlot<T>>,
    /// Send processed buffers back to the audio thread.
    outbound_tx: Sender<FilledSlot<T>>,
}

impl<T> ProcessorHandle<T> {
    /// The end of the queue that filled buffers arrive on.
    pub closed spec fn receiver(&self) -> Receiver<FilledSlot<T>> {
        self.inbound_rx
    }

    /// The end of the queue that processed buffers are sent back on.
    pub closed spec fn sender(&self) -> Sender<FilledSlot<T>> {
        self.outbound_tx
    }

    /// The filled buffers received from the audio thread so far, in order.
    pub open spec fn received(&self) -> Seq<FilledSlot<T>> {
        self.receiver().received()
    }

    /// The result of every poll of the queue from the audio thread, in
    /// order: the buffer taken, or `None` where none had arrived.
    pub open spec fn polls(&self) -> Seq<Option<FilledSlot<T>>> {
        self.receiver().polls()
    }

    /// The buffers handed to `push` so far, in order.
    pub open spec fn handed(&self) -> Seq<FilledSlot<T>> {
        self.sender().handed()
    }

    /// The buffers sent back to the audio thread so far, in order.
    pub open spec fn returned(&self) -> Seq<FilledSlot<T>> {
        self.sender().accepted()
    }

    /// A handle that receives on `inbound_rx` and sends back on `outbound_tx`.
    pub(crate) fn new(inbound_rx: Receiver<FilledSlot<T>>, outbound_tx: Sender<FilledSlot<T>>) -> (r:
        Self)
        ensures
            r.receiver() == inbound_rx,
            r.sender() == outbound_tx,
    {
        Self { inbound_rx, outbound_tx }
    }

    /// Poll for the next filled buffer from the audio thread: each call
    /// polls the queue once and records the result; a buffer taken is
    /// recorded as received. Whether one has arrived, and which, depends on
    /// the audio thread.
    pub fn pop(&mut self) -> (r: Option<FilledSlot<T>>)
        ensures
            final(self).receiver().capacity() == old(self).receiver().capacity(),
            final(self).sender().capacity() == old(self).sender().capacity(),
            final(self).polls() == old(self).polls().push(r),
            final(self).handed() == old(self).handed(),
            final(self).returned() == old(self).returned(),
            match r {
                Some(s) => final(self).received() == old(self).received().push(s),
                None => final(self).received() == old(self).received(),
            },
    {
        self.inbound_rx.pop()
    }

    /// Push a processed buffer back to the audio thread.
    ///
    /// The buffer is handed to the return queue; it is sent back exactly when
    /// the result is `Ok`, and comes back unchanged as `Err` if the queue is
    /// full (which depends on the audio thread). In the circulating design,
    /// the caller should retry rather than drop it, since it must return to
    /// the audio thread's filling pool.
    pub fn push(&mut self, slot: FilledSlot<T>) -> (r: Result<(), FilledSlot<T>>)
        ensures
            final(self).receiver().capacity() == old(self).receiver().capacity(),
            final(self).sender().capacity() == old(self).sender().capacity(),
            final(self).polls() == old(self).polls(),
            final(self).received() == old(self).received(),
            final(self).handed() == old(self).handed().push(slot),
            r is Ok ==> final(self).returned() == old(self).returned().push(slot),
            r matches Err(s) ==> s == slot && final(self).returned() == old(self).returned(),
    {
        self.outbound_tx.push(slot)
    }
}

} // verus!
