//! Audio-thread overlap-add buffer with circulating buffer pool.
//!
//! Buffers cycle through three states:
//! 1. **Filling** — owned by the audio thread, receiving samples one at a time
//! 2. **Processing** — transferred to the processing thread via ring buffer
//! 3. **Draining** — returned from processing thread, being overlap-added
//!
//! After draining, buffers return to the filling pool. A single pool of buffers
//! circulates; no separate input/output pools are needed.

use vstd::prelude::*;
use crate::pow2::{is_next_pow2, max_usize_pow2};
use crate::slot_deck::active_windows::{ActiveWindows, WindowEntry, is_first_free,
    written_entries, written_entry, last_completed, read_entries, contributions, last_expired,
    distinct_starts, entry_start, entry_data, covers, window_offset, occupied, lemma_occupied_one_fewer,
    lemma_write_sample_conserves_windows, lemma_read_conserves_windows, none_past};
use crate::slot_deck::config::SlotDeckConfig;
use crate::slot_deck::filled_slot::FilledSlot;
use crate::slot_deck::processor_handle::ProcessorHandle;
use crate::slot_deck::ring::{queue, Receiver, Sender};

verus! {

/// The sample position after `p`, wrapping around after `u64::MAX`.
pub open spec fn next_position(p: u64) -> u64 {
    if p == u64::MAX {
        0
    } else {
        (p + 1) as u64
    }
}

/// The entries after inserting `buf` at `start` into the first free slot, or
/// `None` when every slot is taken.
pub open spec fn inserted<T>(es: Seq<WindowEntry<T>>, start: u64, buf: Seq<T>) -> Option<Seq<WindowEntry<T>>> {
    if exists|i: int| is_first_free(es, i) {
        Some(es.update(choose|i: int| is_first_free(es, i), Some((start, buf))))
    } else {
        None
    }
}

/// At a hop boundary (`head & mask == 0`), a buffer taken from the end of the
/// pool opens a filling window at `head`; it goes back to the pool if no
/// slot is free. Gives the pool and the filling windows after this step.
pub open spec fn after_open<T>(
    pool: Seq<Seq<T>>,
    filling: Seq<WindowEntry<T>>,
    head: u64,
    mask: u64,
) -> (Seq<Seq<T>>, Seq<WindowEntry<T>>) {
    if head & mask == 0 && pool.len() > 0 {
        match inserted(filling, head, pool.last()) {
            Some(f) => (pool.drop_last(), f),
            None => (pool, filling),
        }
    } else {
        (pool, filling)
    }
}

pub proof fn lemma_first_free_unique<T>(es: Seq<WindowEntry<T>>, i: int, j: int)
    requires
        is_first_free(es, i),
        is_first_free(es, j),
    ensures
        i == j,
{
    if i < j {
        assert(es[i] is Some);
    } else if j < i {
        assert(es[j] is Some);
    }
}

/// Taking in one processed window that starts at `start` with samples
/// `data`, with the read head at `read_head`: gives the pool and the draining
/// windows after it. A buffer shorter than a window is dropped (the
/// overlap-add could not read it; it leaves circulation); a window whose
/// samples are all behind the read head is too late and recycled to the
/// pool; any other goes into the first free draining slot, or back to the
/// pool when none is free.
pub open spec fn accept_step<T>(
    pool: Seq<Seq<T>>,
    drain: Seq<WindowEntry<T>>,
    read_head: u64,
    window_size: nat,
    start: u64,
    data: Seq<T>,
) -> (Seq<Seq<T>>, Seq<WindowEntry<T>>) {
    if data.len() < window_size {
        (pool, drain)
    } else if read_head >= start + window_size {
        (pool.push(data), drain)
    } else {
        match inserted(drain, start, data) {
            Some(d) => (pool, d),
            None => (pool.push(data), drain),
        }
    }
}

/// Taking in the processed windows `slots`, in order.
pub open spec fn accept_all<T>(
    pool: Seq<Seq<T>>,
    drain: Seq<WindowEntry<T>>,
    read_head: u64,
    window_size: nat,
    slots: Seq<FilledSlot<T>>,
) -> (Seq<Seq<T>>, Seq<WindowEntry<T>>)
    decreases slots.len(),
{
    if slots.len() == 0 {
        (pool, drain)
    } else {
        let (p, d) = accept_all(pool, drain, read_head, window_size, slots.drop_last());
        accept_step(p, d, read_head, window_size, slots.last().start, slots.last().data@)
    }
}

/// The part of `after` that follows its prefix of length `n`.
pub open spec fn arrived_after<A>(after: Seq<A>, n: nat) -> Seq<A> {
    after.subrange(n as int, after.len() as int)
}

/// The polls of a take-in that took the windows `arrived`, one poll each,
/// and then either found the queue empty (one more poll, `None`) or, with
/// `budget` windows taken, stopped without polling again.
pub open spec fn intake_polls<T>(arrived: Seq<FilledSlot<T>>, budget: nat) -> Seq<Option<FilledSlot<T>>> {
    arrived.map_values(|s: FilledSlot<T>| Some(s)) + if arrived.len() < budget {
        seq![None::<FilledSlot<T>>]
    } else {
        Seq::<Option<FilledSlot<T>>>::empty()
    }
}

/// Audio-thread overlap-add buffer with circulating buffer pool.
#[verifier::reject_recursive_types(T)]
pub struct OverlapBuffer<T> {
    hop_size_mask: u64,
    write_head: u64,
    read_head: u64,
    /// Free buffers ready to be claimed for new filling windows.
    filling_pool: Vec<Vec<T>>,
    /// Currently filling windows (at most `overlap_factor` simultaneously active).
    filling: ActiveWindows<T>,
    /// Send filled buffers to the processing thread.
    outbound_tx: Sender<FilledSlot<T>>,
    /// Receive processed buffers from the processing thread.
    inbound_rx: Receiver<FilledSlot<T>>,
    /// Currently draining windows (overlap-add contributors).
    draining: ActiveWindows<T>,
    /// Most processed buffers taken in per `read` (the pool size: no more
    /// buffers circulate).
    inbound_budget: usize,
}

impl<T> OverlapBuffer<T> {
    /// Both window sets are well formed, with one window size, and every
    /// pooled buffer holds a window.
    pub closed spec fn wf(&self) -> bool {
        &&& self.filling.wf()
        &&& self.draining.wf()
        &&& self.filling.spec_window_size() == self.draining.spec_window_size()
        &&& forall|i: int|
            0 <= i < self.filling_pool@.len() ==> (#[trigger] self.filling_pool@[i])@.len()
                >= self.filling.spec_window_size()
    }

    /// Samples per window.
    pub closed spec fn window_size(&self) -> nat {
        self.filling.spec_window_size()
    }

    /// Position of the next sample written.
    pub closed spec fn write_head(&self) -> u64 {
        self.write_head
    }

    /// Position of the next sample read.
    pub closed spec fn read_head(&self) -> u64 {
        self.read_head
    }

    /// `hop_size - 1`: a window opens where `write_head & hop_mask == 0`.
    pub closed spec fn hop_mask(&self) -> u64 {
        self.hop_size_mask
    }

    /// The free buffers; new windows take them from the end.
    pub closed spec fn pool(&self) -> Seq<Seq<T>> {
        self.filling_pool@.map_values(|b: Vec<T>| b@)
    }

    /// The windows being filled.
    pub closed spec fn filling(&self) -> Seq<WindowEntry<T>> {
        self.filling.entries()
    }

    /// The processed windows being overlap-added.
    pub closed spec fn draining(&self) -> Seq<WindowEntry<T>> {
        self.draining.entries()
    }

    /// Most processed buffers taken in per `read`.
    pub closed spec fn inbound_budget(&self) -> nat {
        self.inbound_budget as nat
    }

    /// Every completed window handed to the queue to the processing thread.
    pub closed spec fn outbound_handed(&self) -> Seq<FilledSlot<T>> {
        self.outbound_tx.handed()
    }

    /// The completed windows that the queue to the processing thread took in.
    pub closed spec fn outbound_sent(&self) -> Seq<FilledSlot<T>> {
        self.outbound_tx.accepted()
    }

    /// The number of slots of the queue to the processing thread.
    pub closed spec fn outbound_capacity(&self) -> nat {
        self.outbound_tx.capacity()
    }

    /// The number of slots of the queue from the processing thread.
    pub closed spec fn inbound_capacity(&self) -> nat {
        self.inbound_rx.capacity()
    }

    /// The result of every poll of the queue from the processing thread, in
    /// order: the processed window taken, or `None` where none had arrived.
    pub closed spec fn inbound_polls(&self) -> Seq<Option<FilledSlot<T>>> {
        self.inbound_rx.polls()
    }

    /// Every processed window received from the processing thread.
    pub closed spec fn inbound_received(&self) -> Seq<FilledSlot<T>> {
        self.inbound_rx.received()
    }

    /// Take in one processed slot, as `accept_step` describes: dropped if
    /// shorter than a window (the overlap-add could not read it, and it
    /// leaves circulation); recycled to the pool if all its samples are
    /// already behind the read head (too late); else added to the draining
    /// windows, or recycled if no slot is free.
    pub fn accept_processed(&mut self, slot: FilledSlot<T>)
        requires
            old(self).wf(),
        ensures
            final(self).wf(),
            final(self).window_size() == old(self).window_size(),
            final(self).write_head() == old(self).write_head(),
            final(self).read_head() == old(self).read_head(),
            final(self).hop_mask() == old(self).hop_mask(),
            final(self).filling() == old(self).filling(),
            final(self).inbound_budget() == old(self).inbound_budget(),
            final(self).outbound_capacity() == old(self).outbound_capacity(),
            final(self).inbound_capacity() == old(self).inbound_capacity(),
            final(self).inbound_polls() == old(self).inbound_polls(),
            final(self).outbound_handed() == old(self).outbound_handed(),
            final(self).outbound_sent() == old(self).outbound_sent(),
            final(self).inbound_received() == old(self).inbound_received(),
            (final(self).pool(), final(self).draining()) == accept_step(
                old(self).pool(),
                old(self).draining(),
                old(self).read_head(),
                old(self).window_size(),
                slot.start,
                slot.data@,
            ),
    {
        let window_size = self.draining.window_size();
        let FilledSlot { start, data } = slot;
        if data.len() < window_size {
            return;
        }
        let ghost old_pool = self.filling_pool@;
        if start <= self.read_head && self.read_head - start >= window_size as u64 {
            self.filling_pool.push(data);
            assert(self.pool() =~= old(self).pool().push(data@));
            return;
        }
        let ghost d0 = self.draining.entries();
        let data_view = Ghost(data@);
        match self.draining.insert(start, data) {
            Some(rejected) => {
                self.filling_pool.push(rejected);
                assert(self.pool() =~= old(self).pool().push(data_view@));
                assert(!exists|i: int| is_first_free(d0, i));
            },
            None => {
                proof {
                    let i = choose|i: int|
                        is_first_free(d0, i) && self.draining.entries() == d0.update(
                            i,
                            Some((start, data_view@)),
                        );
                    let k = choose|k: int| is_first_free(d0, k);
                    lemma_first_free_unique(d0, i, k);
                }
            },
        }
    }
}


impl<T: Copy> OverlapBuffer<T> {
    /// The overlap-add step at the read head: the samples of the draining
    /// windows at `read_head` (the output is their sum, added in order), the
    /// expired window recycled to the pool, and the read head advanced.
    pub fn read_output(&mut self) -> (r: Vec<T>)
        requires
            old(self).wf(),
        ensures
            final(self).wf(),
            final(self).window_size() == old(self).window_size(),
            final(self).write_head() == old(self).write_head(),
            final(self).read_head() == next_position(old(self).read_head()),
            final(self).hop_mask() == old(self).hop_mask(),
            final(self).filling() == old(self).filling(),
            final(self).inbound_budget() == old(self).inbound_budget(),
            final(self).outbound_capacity() == old(self).outbound_capacity(),
            final(self).inbound_capacity() == old(self).inbound_capacity(),
            final(self).inbound_polls() == old(self).inbound_polls(),
            final(self).outbound_handed() == old(self).outbound_handed(),
            final(self).outbound_sent() == old(self).outbound_sent(),
            final(self).inbound_received() == old(self).inbound_received(),
            r@ == contributions(
                old(self).draining(),
                old(self).read_head(),
                old(self).window_size(),
                old(self).draining().len() as int,
            ),
            final(self).draining() == read_entries(
                old(self).draining(),
                old(self).read_head(),
                old(self).window_size(),
            ),
            final(self).pool() == match last_expired(
                old(self).draining(),
                old(self).read_head(),
                old(self).window_size(),
                old(self).draining().len() as int,
            ) {
                None => old(self).pool(),
                Some(d) => old(self).pool().push(d),
            },
    {
        let read_head = self.read_head;
        let (sum, expired) = self.draining.read_sum(read_head);
        match expired {
            Some(buf) => {
                let ghost b = buf@;
                self.filling_pool.push(buf);
                assert(self.pool() =~= old(self).pool().push(b));
            },
            None => {},
        }
        self.read_head = read_head.wrapping_add(1);
        sum
    }

    /// Read one output sample. Called once per audio callback sample.
    ///
    /// Takes in the processed buffers that have arrived: it polls the queue
    /// from the processing thread until it is empty, or until
    /// `inbound_budget` buffers are taken. That is as many as circulate, so
    /// a processing thread that only returns the buffers it was sent never
    /// leaves one behind, and the bound keeps each call finite whatever the
    /// other thread does. Then it returns the
    /// samples of all draining windows at the read head, whose plain sum is
    /// the overlap-add output. For WOLA, normalisation is baked into the
    /// synthesis window, so no per-sample correction is needed here.
    ///
    /// Returns no samples (silence) until result windows arrive from the
    /// processing thread.
    pub fn read(&mut self) -> (r: Vec<T>)
        requires
            old(self).wf(),
        ensures
            final(self).wf(),
            final(self).window_size() == old(self).window_size(),
            final(self).write_head() == old(self).write_head(),
            final(self).read_head() == next_position(old(self).read_head()),
            final(self).hop_mask() == old(self).hop_mask(),
            final(self).filling() == old(self).filling(),
            final(self).inbound_budget() == old(self).inbound_budget(),
            final(self).outbound_capacity() == old(self).outbound_capacity(),
            final(self).inbound_capacity() == old(self).inbound_capacity(),
            final(self).outbound_handed() == old(self).outbound_handed(),
            final(self).outbound_sent() == old(self).outbound_sent(),
            old(self).inbound_received().len() <= final(self).inbound_received().len(),
            final(self).inbound_received().subrange(0, old(self).inbound_received().len() as int)
                == old(self).inbound_received(),
            arrived_after(final(self).inbound_received(), old(self).inbound_received().len()).len()
                <= old(self).inbound_budget(),
            old(self).inbound_polls().len() <= final(self).inbound_polls().len(),
            final(self).inbound_polls().subrange(0, old(self).inbound_polls().len() as int)
                == old(self).inbound_polls(),
            arrived_after(final(self).inbound_polls(), old(self).inbound_polls().len())
                == intake_polls(
                arrived_after(final(self).inbound_received(), old(self).inbound_received().len()),
                old(self).inbound_budget(),
            ),
            ({
                let arrived = arrived_after(
                    final(self).inbound_received(),
                    old(self).inbound_received().len(),
                );
                let (pool1, drain1) = accept_all(
                    old(self).pool(),
                    old(self).draining(),
                    old(self).read_head(),
                    old(self).window_size(),
                    arrived,
                );
                &&& r@ == contributions(
                    drain1,
                    old(self).read_head(),
                    old(self).window_size(),
                    drain1.len() as int,
                )
                &&& final(self).draining() == read_entries(
                    drain1,
                    old(self).read_head(),
                    old(self).window_size(),
                )
                &&& final(self).pool() == match last_expired(
                    drain1,
                    old(self).read_head(),
                    old(self).window_size(),
                    drain1.len() as int,
                ) {
                    None => pool1,
                    Some(b) => pool1.push(b),
                }
            }),
    {
        let ghost n0 = self.inbound_received().len();
        let ghost p0 = self.inbound_polls().len();
        let mut taken: usize = 0;
        let mut empty = false;
        while !empty && taken < self.inbound_budget
            invariant
                self.wf(),
                self.window_size() == old(self).window_size(),
                self.write_head() == old(self).write_head(),
                self.read_head() == old(self).read_head(),
                self.hop_mask() == old(self).hop_mask(),
                self.filling() == old(self).filling(),
                self.inbound_budget() == old(self).inbound_budget(),
                self.outbound_capacity() == old(self).outbound_capacity(),
                self.inbound_capacity() == old(self).inbound_capacity(),
                self.outbound_handed() == old(self).outbound_handed(),
                self.outbound_sent() == old(self).outbound_sent(),
                taken <= self.inbound_budget,
                n0 == old(self).inbound_received().len(),
                n0 <= self.inbound_received().len(),
                self.inbound_received().subrange(0, n0 as int) == old(self).inbound_received(),
                arrived_after(self.inbound_received(), n0).len() == taken,
                empty ==> taken < self.inbound_budget,
                p0 == old(self).inbound_polls().len(),
                p0 <= self.inbound_polls().len(),
                self.inbound_polls().subrange(0, p0 as int) == old(self).inbound_polls(),
                arrived_after(self.inbound_polls(), p0) == arrived_after(
                    self.inbound_received(),
                    n0,
                ).map_values(|s: FilledSlot<T>| Some(s)) + if empty {
                    seq![None::<FilledSlot<T>>]
                } else {
                    Seq::<Option<FilledSlot<T>>>::empty()
                },
                (self.pool(), self.draining()) == accept_all(
                    old(self).pool(),
                    old(self).draining(),
                    old(self).read_head(),
                    old(self).window_size(),
                    arrived_after(self.inbound_received(), n0),
                ),
            decreases self.inbound_budget - taken + (if empty { 0int } else { 1int }),
        {
            let ghost before = self.inbound_received();
            let ghost polls_before = self.inbound_polls();
            match self.inbound_rx.pop() {
                Some(slot) => {
                    let ghost s = slot;
                    let ghost arrived = arrived_after(self.inbound_received(), n0);
                    assert(arrived.drop_last() =~= arrived_after(before, n0));
                    assert(arrived.last() == s);
                    assert(self.inbound_received().subrange(0, n0 as int) =~= before.subrange(
                        0,
                        n0 as int,
                    ));
                    assert(self.inbound_polls().subrange(0, p0 as int) =~= polls_before.subrange(
                        0,
                        p0 as int,
                    ));
                    let ghost prior = arrived_after(before, n0).map_values(
                        |s: FilledSlot<T>| Some(s),
                    );
                    assert(prior + Seq::<Option<FilledSlot<T>>>::empty() =~= prior);
                    assert(arrived_after(self.inbound_polls(), p0) =~= arrived_after(
                        polls_before,
                        p0,
                    ).push(Some(s)));
                    assert(arrived.map_values(|s: FilledSlot<T>| Some(s)) =~= prior.push(Some(s)));
                    assert(arrived_after(self.inbound_polls(), p0) =~= arrived.map_values(
                        |s: FilledSlot<T>| Some(s),
                    ));
                    self.accept_processed(slot);
                    taken = taken + 1;
                },
                None => {
                    assert(self.inbound_polls().subrange(0, p0 as int) =~= polls_before.subrange(
                        0,
                        p0 as int,
                    ));
                    assert(arrived_after(self.inbound_polls(), p0) =~= arrived_after(
                        self.inbound_received(),
                        n0,
                    ).map_values(|s: FilledSlot<T>| Some(s)) + seq![None::<FilledSlot<T>>]);
                    empty = true;
                },
            }
        }
        self.read_output()
    }

    /// Write one input sample. Called once per audio callback sample.
    ///
    /// At a hop boundary a pooled buffer opens a new filling window (the
    /// window is skipped if the pool is empty). The sample goes into every
    /// filling window; a window it completes is sent to the processing
    /// thread, or recycled to the pool if that queue is full. Returns whether
    /// a window was sent, so that a caller can wake the processing thread.
    /// Never blocks and never allocates beyond the pool.
    pub fn write(&mut self, sample: T) -> (dispatched: bool)
        requires
            old(self).wf(),
        ensures
            final(self).wf(),
            final(self).window_size() == old(self).window_size(),
            final(self).write_head() == next_position(old(self).write_head()),
            final(self).read_head() == old(self).read_head(),
            final(self).hop_mask() == old(self).hop_mask(),
            final(self).draining() == old(self).draining(),
            final(self).inbound_budget() == old(self).inbound_budget(),
            final(self).outbound_capacity() == old(self).outbound_capacity(),
            final(self).inbound_capacity() == old(self).inbound_capacity(),
            final(self).inbound_polls() == old(self).inbound_polls(),
            final(self).inbound_received() == old(self).inbound_received(),
            ({
                let (pool1, fill1) = after_open(
                    old(self).pool(),
                    old(self).filling(),
                    old(self).write_head(),
                    old(self).hop_mask(),
                );
                let done = last_completed(
                    fill1,
                    old(self).write_head(),
                    sample,
                    old(self).window_size(),
                    fill1.len() as int,
                );
                &&& final(self).filling() == written_entries(
                    fill1,
                    old(self).write_head(),
                    sample,
                    old(self).window_size(),
                )
                &&& match done {
                    None => {
                        &&& !dispatched
                        &&& final(self).outbound_handed() == old(self).outbound_handed()
                        &&& final(self).outbound_sent() == old(self).outbound_sent()
                    },
                    Some((s, d)) => {
                        let sent = final(self).outbound_handed().last();
                        &&& final(self).outbound_handed() == old(self).outbound_handed().push(sent)
                        &&& sent.start == s
                        &&& sent.data@ == d
                        &&& dispatched ==> final(self).outbound_sent() == old(
                            self,
                        ).outbound_sent().push(sent)
                        &&& !dispatched ==> final(self).outbound_sent() == old(self).outbound_sent()
                    },
                }
                &&& final(self).pool() == match done {
                    None => pool1,
                    Some((s, d)) => if dispatched {
                        pool1
                    } else {
                        pool1.push(d)
                    },
                }
            }),
    {
        let head = self.write_head;
        let ghost pool0 = self.pool();
        let ghost fill0 = self.filling();
        if head & self.hop_size_mask == 0 {
            if self.filling_pool.len() > 0 {
                let buf = self.filling_pool.pop().unwrap();
                let ghost b = buf@;
                assert(b == pool0.last());
                match self.filling.insert(head, buf) {
                    Some(rejected) => {
                        self.filling_pool.push(rejected);
                        assert(self.pool() =~= pool0);
                        assert(!exists|i: int| is_first_free(fill0, i));
                    },
                    None => {
                        assert(self.pool() =~= pool0.drop_last());
                        proof {
                            let i = choose|i: int|
                                is_first_free(fill0, i) && self.filling.entries() == fill0.update(
                                    i,
                                    Some((head, b)),
                                );
                            let k = choose|k: int| is_first_free(fill0, k);
                            lemma_first_free_unique(fill0, i, k);
                        }
                    },
                }
            }
        }
        let ghost pool1 = self.pool();
        let mut dispatched = false;
        match self.filling.write_sample(head, sample) {
            Some(slot) => {
                let ghost d = slot.data@;
                match self.outbound_tx.push(slot) {
                    Ok(()) => {
                        dispatched = true;
                    },
                    Err(returned) => {
                        self.filling_pool.push(returned.data);
                        assert(self.pool() =~= pool1.push(d));
                    },
                }
            },
            None => {},
        }
        self.write_head = head.wrapping_add(1);
        dispatched
    }
}


/// A buffer of `n` default (silent) samples.
fn default_buffer<T: Copy + Default>(n: usize) -> (r: Vec<T>)
    ensures
        r@.len() == n,
{
    let mut buf: Vec<T> = Vec::new();
    let mut i: usize = 0;
    while i < n
        invariant
            i <= n,
            buf@.len() == i,
        decreases n - i,
    {
        buf.push(T::default());
        i = i + 1;
    }
    buf
}

impl<T: Copy + Default> OverlapBuffer<T> {
    /// Create an `OverlapBuffer` without a processor thread, and the
    /// `ProcessorHandle` for the other end, to be driven by the caller
    /// (synchronously, e.g. in tests, or on a thread of its own).
    ///
    /// All buffer allocation happens here: `pool_size` buffers of
    /// `window_size` default samples. The write head starts `total_latency`
    /// samples ahead of the read head, so the first `total_latency` reads
    /// return silence.
    pub fn new_unthreaded(config: SlotDeckConfig) -> (r: (OverlapBuffer<T>, ProcessorHandle<T>))
        requires
            config.overlap_factor > 0,
            config.window_size >= config.overlap_factor,
            config.raw_pool_size() <= max_usize_pow2(),
            config.window_size + config.processing_budget <= usize::MAX,
        ensures
            r.0.wf(),
            r.0.window_size() == config.window_size,
            r.0.write_head() == config.window_size + config.processing_budget,
            r.0.read_head() == 0,
            r.0.hop_mask() == config.spec_hop_size() - 1,
            is_next_pow2(config.raw_pool_size(), r.0.pool().len() as int),
            forall|i: int| 0 <= i < r.0.pool().len() ==> (#[trigger] r.0.pool()[i]).len() == config.window_size,
            r.0.filling() == Seq::new(config.overlap_factor as nat, |i: int| None::<(u64, Seq<T>)>),
            r.0.draining() == Seq::new(r.0.pool().len(), |i: int| None::<(u64, Seq<T>)>),
            r.0.inbound_budget() == r.0.pool().len(),
            r.0.outbound_handed() == Seq::<FilledSlot<T>>::empty(),
            r.0.outbound_sent() == Seq::<FilledSlot<T>>::empty(),
            r.0.inbound_received() == Seq::<FilledSlot<T>>::empty(),
            r.0.inbound_polls() == Seq::<Option<FilledSlot<T>>>::empty(),
            r.0.outbound_capacity() == r.0.pool().len(),
            r.0.inbound_capacity() == r.0.pool().len(),
            r.1.receiver().capacity() == r.0.pool().len(),
            r.1.sender().capacity() == r.0.pool().len(),
            r.1.polls() == Seq::<Option<FilledSlot<T>>>::empty(),
            r.1.received() == Seq::<FilledSlot<T>>::empty(),
            r.1.handed() == Seq::<FilledSlot<T>>::empty(),
            r.1.returned() == Seq::<FilledSlot<T>>::empty(),
    {
        let pool_size = config.pool_size();
        let window_size = config.window_size;
        let overlap_factor = config.overlap_factor;
        let total_latency = config.total_latency();
        let hop_size = config.hop_size();
        assert(hop_size >= 1) by (nonlinear_arith)
            requires
                hop_size == config.window_size as int / config.overlap_factor as int,
                config.window_size >= config.overlap_factor,
                config.overlap_factor > 0,
        ;
        let mut filling_pool: Vec<Vec<T>> = Vec::new();
        let mut i: usize = 0;
        while i < pool_size
            invariant
                i <= pool_size,
                filling_pool@.len() == i,
                forall|j: int| 0 <= j < i ==> (#[trigger] filling_pool@[j])@.len() == window_size,
            decreases pool_size - i,
        {
            filling_pool.push(default_buffer(window_size));
            i = i + 1;
        }
        let (outbound_tx, outbound_rx) = queue(pool_size);
        let (inbound_tx, inbound_rx) = queue(pool_size);
        let buf = OverlapBuffer {
            hop_size_mask: (hop_size - 1) as u64,
            write_head: total_latency as u64,
            read_head: 0,
            filling_pool,
            filling: ActiveWindows::new(overlap_factor, window_size),
            outbound_tx,
            inbound_rx,
            draining: ActiveWindows::new(pool_size, window_size),
            inbound_budget: pool_size,
        };
        assert(buf.pool().len() == pool_size);
        let handle = ProcessorHandle::new(outbound_rx, inbound_tx);
        (buf, handle)
    }
}


/// The filling windows sit just behind the write head `head`: each started
/// between 1 and `window_size - 1` samples before it, no two at one position.
pub open spec fn filling_apart<T>(fill: Seq<WindowEntry<T>>, head: u64, window_size: nat) -> bool {
    &&& distinct_starts(fill)
    &&& forall|i: int|
        0 <= i < fill.len() && fill[i] is Some ==> 1 <= window_offset(head, entry_start(#[trigger] fill[i]))
            <= window_size - 1
}

proof fn lemma_offset_advances(head: u64, s: u64)
    requires
        window_offset(head, s) + 1 < 0x1_0000_0000_0000_0000,
    ensures
        window_offset(next_position(head), s) == window_offset(head, s) + 1,
{
}

/// `write` keeps the filling windows apart: with the windows apart before
/// the write, the window the hop boundary opens starts where no other does,
/// and after the write they are apart again for the next write head. So at
/// most one filling window completes per sample and `write` never loses a
/// buffer (see `lemma_completed_window_is_returned`). A freshly made buffer
/// has no filling window, which is apart.
pub proof fn lemma_write_keeps_filling_apart<T>(
    pool: Seq<Seq<T>>,
    fill: Seq<WindowEntry<T>>,
    head: u64,
    mask: u64,
    sample: T,
    window_size: nat,
)
    requires
        1 <= window_size <= u64::MAX,
        filling_apart(fill, head, window_size),
    ensures
        distinct_starts(after_open(pool, fill, head, mask).1),
        filling_apart(
            written_entries(after_open(pool, fill, head, mask).1, head, sample, window_size),
            next_position(head),
            window_size,
        ),
{
    let f1 = after_open(pool, fill, head, mask).1;
    // Every window of f1 is within the window behind the head, starts apart.
    assert(distinct_starts(f1) && forall|i: int|
        0 <= i < f1.len() && f1[i] is Some ==> window_offset(head, entry_start(#[trigger] f1[i]))
            <= window_size - 1) by {
        if head & mask == 0 && pool.len() > 0 && exists|i: int| is_first_free(fill, i) {
            let k = choose|i: int| is_first_free(fill, i);
            assert(f1 == fill.update(k, Some((head, pool.last()))));
            assert forall|i: int, j: int|
                0 <= i < f1.len() && 0 <= j < f1.len() && i != j && f1[i] is Some && f1[j] is Some
                    implies entry_start(#[trigger] f1[i]) != entry_start(#[trigger] f1[j]) by {
                if i == k {
                    assert(window_offset(head, entry_start(fill[j])) >= 1);
                } else if j == k {
                    assert(window_offset(head, entry_start(fill[i])) >= 1);
                } else {
                    assert(fill[i] is Some && fill[j] is Some);
                }
            }
        }
    }
    let f2 = written_entries(f1, head, sample, window_size);
    assert forall|i: int| 0 <= i < f2.len() && f2[i] is Some implies 1 <= window_offset(
        next_position(head),
        entry_start(#[trigger] f2[i]),
    ) <= window_size - 1 by {
        assert(f2[i] == written_entry(f1[i], head, sample, window_size));
        lemma_offset_advances(head, entry_start(f1[i]));
    }
    assert forall|i: int, j: int|
        0 <= i < f2.len() && 0 <= j < f2.len() && i != j && f2[i] is Some && f2[j] is Some
            implies entry_start(#[trigger] f2[i]) != entry_start(#[trigger] f2[j]) by {
        assert(f2[i] == written_entry(f1[i], head, sample, window_size));
        assert(f2[j] == written_entry(f1[j], head, sample, window_size));
    }
}


/// `write` never loses a buffer. With the filling windows apart (as `write`
/// keeps them, see `lemma_write_keeps_filling_apart`), the pooled buffers and
/// filling windows after a write, plus the window sent to the processing
/// thread if one was, are as many as the pooled buffers and filling windows
/// before it. The pool, filling windows and sending here are those that the
/// contract of `write` describes for a given outcome of the send.
pub proof fn lemma_write_conserves_buffers<T>(
    pool: Seq<Seq<T>>,
    fill: Seq<WindowEntry<T>>,
    head: u64,
    mask: u64,
    sample: T,
    window_size: nat,
    dispatched: bool,
)
    requires
        1 <= window_size <= u64::MAX,
        filling_apart(fill, head, window_size),
        dispatched ==> last_completed(
            after_open(pool, fill, head, mask).1,
            head,
            sample,
            window_size,
            after_open(pool, fill, head, mask).1.len() as int,
        ) is Some,
    ensures
        ({
            let (pool1, fill1) = after_open(pool, fill, head, mask);
            let pool2 = match last_completed(
                fill1,
                head,
                sample,
                window_size,
                fill1.len() as int,
            ) {
                None => pool1,
                Some((s, d)) => if dispatched {
                    pool1
                } else {
                    pool1.push(d)
                },
            };
            pool2.len() + occupied(written_entries(fill1, head, sample, window_size)) + (if dispatched {
                1nat
            } else {
                0nat
            }) == pool.len() + occupied(fill)
        }),
{
    let (pool1, fill1) = after_open(pool, fill, head, mask);
    lemma_write_keeps_filling_apart(pool, fill, head, mask, sample, window_size);
    lemma_write_sample_conserves_windows(fill1, head, sample, window_size);
    if head & mask == 0 && pool.len() > 0 && exists|i: int| is_first_free(fill, i) {
        let k = choose|i: int| is_first_free(fill, i);
        lemma_occupied_one_fewer(fill1, fill, k);
    }
}


/// The overlap-add step never loses a buffer: with the draining windows at
/// distinct starts and none past its end at the read head, the pooled
/// buffers and draining windows after `read_output` are as many as before
/// (the expired window goes back to the pool).
pub proof fn lemma_read_output_conserves_buffers<T>(
    pool: Seq<Seq<T>>,
    drain: Seq<WindowEntry<T>>,
    read_head: u64,
    window_size: nat,
)
    requires
        distinct_starts(drain),
        none_past(drain, read_head, window_size),
    ensures
        (match last_expired(drain, read_head, window_size, drain.len() as int) {
            None => pool,
            Some(d) => pool.push(d),
        }).len() + occupied(read_entries(drain, read_head, window_size)) == pool.len() + occupied(
            drain,
        ),
{
    lemma_read_conserves_windows(drain, read_head, window_size);
}

/// Taking in a processed slot never loses a buffer that holds a window:
/// afterwards the pooled buffers and draining windows are one more than
/// before when the slot holds at least a window's samples (it joins the
/// draining windows or the pool), and as many as before when it holds fewer
/// (such a slot is dropped, see `accept_step`).
pub proof fn lemma_accept_conserves_buffers<T>(
    pool: Seq<Seq<T>>,
    drain: Seq<WindowEntry<T>>,
    read_head: u64,
    window_size: nat,
    start: u64,
    data: Seq<T>,
)
    ensures
        ({
            let (p, d) = accept_step(pool, drain, read_head, window_size, start, data);
            p.len() + occupied(d) == pool.len() + occupied(drain) + (if data.len() >= window_size {
                1nat
            } else {
                0nat
            })
        }),
{
    if data.len() >= window_size && read_head < start + window_size && exists|i: int|
        is_first_free(drain, i) {
        let k = choose|i: int| is_first_free(drain, i);
        lemma_occupied_one_fewer(drain.update(k, Some((start, data))), drain, k);
    }
}

/// How many of `slots` hold at least `window_size` samples.
pub open spec fn full_windows<T>(slots: Seq<FilledSlot<T>>, window_size: nat) -> nat
    decreases slots.len(),
{
    if slots.len() == 0 {
        0
    } else {
        full_windows(slots.drop_last(), window_size) + (if slots.last().data@.len() >= window_size {
            1nat
        } else {
            0nat
        })
    }
}

/// Taking in the processed slots that arrived (as `read` does, see its
/// contract) loses no buffer that holds a window: the pooled buffers and
/// draining windows afterwards are those before plus every arrived slot of
/// at least a window's length.
pub proof fn lemma_accept_all_conserves_buffers<T>(
    pool: Seq<Seq<T>>,
    drain: Seq<WindowEntry<T>>,
    read_head: u64,
    window_size: nat,
    slots: Seq<FilledSlot<T>>,
)
    ensures
        ({
            let (p, d) = accept_all(pool, drain, read_head, window_size, slots);
            p.len() + occupied(d) == pool.len() + occupied(drain) + full_windows(slots, window_size)
        }),
    decreases slots.len(),
{
    if slots.len() > 0 {
        lemma_accept_all_conserves_buffers(pool, drain, read_head, window_size, slots.drop_last());
        let (p, d) = accept_all(pool, drain, read_head, window_size, slots.drop_last());
        lemma_accept_conserves_buffers(
            p,
            d,
            read_head,
            window_size,
            slots.last().start,
            slots.last().data@,
        );
    }
}


/// The draining windows stay ahead of the read head: a processed window is
/// taken in only while some of its samples are still to be read, and the
/// overlap-add step removes every window whose last sample it reads. So no
/// draining window is ever past its end (as `lemma_read_output_conserves_buffers`
/// needs), until the read head wraps around after `u64::MAX`.
pub proof fn lemma_draining_stays_ahead<T>(
    drain: Seq<WindowEntry<T>>,
    read_head: u64,
    window_size: nat,
    start: u64,
    data: Seq<T>,
)
    requires
        none_past(drain, read_head, window_size),
    ensures
        read_head < start + window_size ==> match inserted(drain, start, data) {
            Some(d) => none_past(d, read_head, window_size),
            None => true,
        },
        read_head < u64::MAX ==> none_past(
            read_entries(drain, read_head, window_size),
            next_position(read_head),
            window_size,
        ),
{
    if read_head < start + window_size && exists|i: int| is_first_free(drain, i) {
        let k = choose|i: int| is_first_free(drain, i);
        let d = drain.update(k, Some((start, data)));
        assert forall|i: int| 0 <= i < d.len() && d[i] is Some implies read_head + 1 <= entry_start(
            #[trigger] d[i],
        ) + window_size by {
            if i != k {
                assert(drain[i] is Some);
            }
        }
    }
}

/// A slot sequence with a free slot has a first free slot.
proof fn lemma_first_free_exists<T>(es: Seq<WindowEntry<T>>, i: int)
    requires
        0 <= i < es.len(),
        es[i] is None,
    ensures
        exists|k: int| is_first_free(es, k),
    decreases i,
{
    if exists|j: int| 0 <= j < i && es[j] is None {
        let j = choose|j: int| 0 <= j < i && es[j] is None;
        lemma_first_free_exists(es, j);
    } else {
        assert(is_first_free(es, i));
    }
}

/// The sample of a window that covers `position` is among the overlap-add
/// terms at `position` of any prefix of the entries that holds the window.
proof fn lemma_covering_window_contributes<T>(
    es: Seq<WindowEntry<T>>,
    position: u64,
    window_size: nat,
    n: int,
    i: int,
)
    requires
        0 <= i < n <= es.len(),
        covers(es[i], position, window_size),
    ensures
        contributions(es, position, window_size, n).contains(
            entry_data(es[i])[window_offset(position, entry_start(es[i]))],
        ),
    decreases n,
{
    let x = entry_data(es[i])[window_offset(position, entry_start(es[i]))];
    if i == n - 1 {
        let c = contributions(es, position, window_size, n);
        assert(c.last() == x);
    } else {
        lemma_covering_window_contributes(es, position, window_size, n - 1, i);
        let c0 = contributions(es, position, window_size, n - 1);
        let k = choose|k: int| 0 <= k < c0.len() && c0[k] == x;
        if covers(es[n - 1], position, window_size) {
            assert(contributions(es, position, window_size, n)[k] == x);
        }
    }
}

/// A processed window of full length that still has samples at or after the
/// read head (`read_head < start + window_size`) is not too late: when a
/// draining slot is free, taking it in puts it, and nothing else, into a free
/// draining slot and leaves the pool as it is. Once the read head is within
/// it, its sample at the read head, `data[read_head - start]`, is among the
/// overlap-add terms there.
pub proof fn lemma_live_window_is_drained<T>(
    pool: Seq<Seq<T>>,
    drain: Seq<WindowEntry<T>>,
    read_head: u64,
    window_size: nat,
    start: u64,
    data: Seq<T>,
    free: int,
)
    requires
        data.len() >= window_size,
        read_head < start + window_size,
        0 <= free < drain.len(),
        drain[free] is None,
    ensures
        ({
            let (p, d) = accept_step(pool, drain, read_head, window_size, start, data);
            &&& p == pool
            &&& d.len() == drain.len()
            &&& exists|i: int|
                0 <= i < d.len() && drain[i] is None && d[i] == Some((start, data)) && forall|j: int|
                    0 <= j < d.len() && j != i ==> d[j] == drain[j]
            &&& start <= read_head ==> contributions(d, read_head, window_size, d.len() as int).contains(
                data[read_head - start],
            )
        }),
{
    lemma_first_free_exists(drain, free);
    let k = choose|k: int| is_first_free(drain, k);
    let d = drain.update(k, Some((start, data)));
    assert(accept_step(pool, drain, read_head, window_size, start, data) == (pool, d));
    assert(d[k] == Some((start, data)));
    if start <= read_head {
        assert(window_offset(read_head, start) == read_head - start);
        lemma_covering_window_contributes(d, read_head, window_size, d.len() as int, k);
    }
}

/// A processed window all of whose samples are behind the read head
/// (`read_head >= start + window_size`) is too late: taking it in recycles
/// its buffer to the end of the pool and leaves the draining windows as they
/// are.
pub proof fn lemma_late_window_is_recycled<T>(
    pool: Seq<Seq<T>>,
    drain: Seq<WindowEntry<T>>,
    read_head: u64,
    window_size: nat,
    start: u64,
    data: Seq<T>,
)
    requires
        data.len() >= window_size,
        read_head >= start + window_size,
    ensures
        accept_step(pool, drain, read_head, window_size, start, data) == (pool.push(data), drain),
{
}

/// A processed window of full length that still has samples ahead, taken
/// in while every draining slot is busy, is recycled to the end of the pool
/// and leaves the draining windows as they are.
pub proof fn lemma_window_without_slot_is_recycled<T>(
    pool: Seq<Seq<T>>,
    drain: Seq<WindowEntry<T>>,
    read_head: u64,
    window_size: nat,
    start: u64,
    data: Seq<T>,
)
    requires
        data.len() >= window_size,
        read_head < start + window_size,
        forall|i: int| 0 <= i < drain.len() ==> #[trigger] drain[i] is Some,
    ensures
        accept_step(pool, drain, read_head, window_size, start, data) == (pool.push(data), drain),
{
    assert(!exists|i: int| is_first_free(drain, i));
}

} // verus!
