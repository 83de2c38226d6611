//! Fixed-capacity array of active windowed buffers with position-aware operations.
//!
//! Both the filling side (writing samples into windows) and the draining side
//! (overlap-add reading) share the same underlying data structure: a fixed-size
//! array of `Option<(start_position, buffer)>` entries, with operations that
//! address buffers by their absolute sample position.

use vstd::prelude::*;
use vstd::pervasive::VecAdditionalExecFns;
use crate::slot_deck::filled_slot::FilledSlot;

verus! {

/// One slot's content: the start position and samples of a window, or nothing.
pub type WindowEntry<T> = Option<(u64, Seq<T>)>;

/// `position - start` modulo 2^64: the offset of `position` in a window that
/// starts at `start`, with sample positions wrapping around.
pub open spec fn window_offset(position: u64, start: u64) -> int {
    if position >= start {
        position - start
    } else {
        position - start + 0x1_0000_0000_0000_0000
    }
}

/// The window in entry `e` covers `position`.
pub open spec fn covers<T>(e: WindowEntry<T>, position: u64, window_size: nat) -> bool {
    e matches Some((s, _)) && window_offset(position, s) < window_size
}

/// `position` is the last sample of the window in entry `e`.
pub open spec fn completes<T>(e: WindowEntry<T>, position: u64, window_size: nat) -> bool {
    e matches Some((s, _)) && window_offset(position, s) == window_size - 1
}

/// Entry `e` after `sample` is written at `position`: the sample lands at
/// its offset in a covering window, and a window that this completes leaves.
pub open spec fn written_entry<T>(e: WindowEntry<T>, position: u64, sample: T, window_size: nat) -> WindowEntry<T> {
    match e {
        Some((s, d)) => if window_offset(position, s) < window_size {
            if window_offset(position, s) == window_size - 1 {
                None
            } else {
                Some((s, d.update(window_offset(position, s), sample)))
            }
        } else {
            e
        },
        None => None,
    }
}

/// All entries after `sample` is written at `position`.
pub open spec fn written_entries<T>(es: Seq<WindowEntry<T>>, position: u64, sample: T, window_size: nat) -> Seq<WindowEntry<T>> {
    Seq::new(es.len(), |i: int| written_entry(es[i], position, sample, window_size))
}

/// Among the first `n` entries, the last window that writing `sample` at
/// `position` completes, with that sample written.
pub open spec fn last_completed<T>(es: Seq<WindowEntry<T>>, position: u64, sample: T, window_size: nat, n: int) -> Option<(u64, Seq<T>)>
    decreases n,
{
    if n <= 0 {
        None
    } else if completes(es[n - 1], position, window_size) {
        Some((entry_start(es[n - 1]), entry_data(es[n - 1]).update(window_size - 1, sample)))
    } else {
        last_completed(es, position, sample, window_size, n - 1)
    }
}

/// `position` is at or past the last sample of the window in entry `e`.
pub open spec fn expires<T>(e: WindowEntry<T>, position: u64, window_size: nat) -> bool {
    e matches Some((s, _)) && position + 1 >= s + window_size
}

/// All entries after reading at `position`: expiring windows leave.
pub open spec fn read_entries<T>(es: Seq<WindowEntry<T>>, position: u64, window_size: nat) -> Seq<WindowEntry<T>> {
    Seq::new(
        es.len(),
        |i: int|
            if expires(es[i], position, window_size) {
                None
            } else {
                es[i]
            },
    )
}

/// The samples at `position` of the windows among the first `n` entries
/// that cover it, in slot order.
pub open spec fn contributions<T>(es: Seq<WindowEntry<T>>, position: u64, window_size: nat, n: int) -> Seq<T>
    decreases n,
{
    if n <= 0 {
        Seq::empty()
    } else if covers(es[n - 1], position, window_size) {
        contributions(es, position, window_size, n - 1).push(
            entry_data(es[n - 1])[window_offset(position, entry_start(es[n - 1]))],
        )
    } else {
        contributions(es, position, window_size, n - 1)
    }
}

/// Among the first `n` entries, the buffer of the last window that expires at `position`.
pub open spec fn last_expired<T>(es: Seq<WindowEntry<T>>, position: u64, window_size: nat, n: int) -> Option<Seq<T>>
    decreases n,
{
    if n <= 0 {
        None
    } else if expires(es[n - 1], position, window_size) {
        Some(entry_data(es[n - 1]))
    } else {
        last_expired(es, position, window_size, n - 1)
    }
}

/// The start position of an occupied entry.
pub open spec fn entry_start<T>(e: WindowEntry<T>) -> u64 {
    match e {
        Some((s, _)) => s,
        None => 0,
    }
}

/// The samples of an occupied entry.
pub open spec fn entry_data<T>(e: WindowEntry<T>) -> Seq<T> {
    match e {
        Some((_, d)) => d,
        None => Seq::empty(),
    }
}

/// `i` is the first free slot.
pub open spec fn is_first_free<T>(es: Seq<WindowEntry<T>>, i: int) -> bool {
    &&& 0 <= i < es.len()
    &&& es[i] is None
    &&& forall|j: int| 0 <= j < i ==> #[trigger] es[j] is Some
}

/// The content of a slot.
pub open spec fn view_entry<T>(e: Option<(u64, Vec<T>)>) -> WindowEntry<T> {
    match e {
        Some((s, d)) => Some((s, d@)),
        None => None,
    }
}

/// A fixed-capacity set of active windowed buffers.
///
/// Each entry is a `(start, buffer)` pair where `start` is the absolute sample
/// position of the first sample in the buffer. The buffer has `window_size`
/// samples.
///
/// At most one window can complete or expire per sample tick, because each
/// active window has a unique `start` (spaced by `hop_size`).
pub struct ActiveWindows<T> {
    slots: Vec<Option<(u64, Vec<T>)>>,
    window_size: usize,
}

impl<T> ActiveWindows<T> {
    /// Every buffer holds at least `window_size` samples.
    pub closed spec fn wf(&self) -> bool {
        forall|i: int|
            0 <= i < self.slots@.len() ==> (#[trigger] self.slots@[i] matches Some((_, d))
                ==> d@.len() >= self.window_size)
    }

    /// The slots, each with its start position and samples, if occupied.
    pub closed spec fn entries(&self) -> Seq<WindowEntry<T>> {
        self.slots@.map_values(|e: Option<(u64, Vec<T>)>| view_entry(e))
    }

    /// The number of samples in each window.
    pub closed spec fn spec_window_size(&self) -> nat {
        self.window_size as nat
    }

    /// Create an `ActiveWindows` with `capacity` slots, all initially empty.
    pub fn new(capacity: usize, window_size: usize) -> (r: Self)
        ensures
            r.wf(),
            r.entries() == Seq::new(capacity as nat, |i: int| None::<(u64, Seq<T>)>),
            r.spec_window_size() == window_size,
    {
        let mut slots: Vec<Option<(u64, Vec<T>)>> = Vec::new();
        let mut i: usize = 0;
        while i < capacity
            invariant
                i <= capacity,
                slots@.len() == i,
                forall|j: int| 0 <= j < i ==> #[trigger] slots@[j] is None,
            decreases capacity - i,
        {
            slots.push(None);
            i = i + 1;
        }
        let r = Self { slots, window_size };
        assert(r.entries() =~= Seq::new(capacity as nat, |i: int| None::<(u64, Seq<T>)>));
        r
    }

    /// The window size for buffers in this set.
    pub fn window_size(&self) -> (r: usize)
        ensures
            r == self.spec_window_size(),
    {
        self.window_size
    }

    /// Insert a buffer at the given start position.
    ///
    /// Returns the buffer back if no free slot is available.
    pub fn insert(&mut self, start: u64, buf: Vec<T>) -> (r: Option<Vec<T>>)
        requires
            old(self).wf(),
            buf@.len() >= old(self).spec_window_size(),
        ensures
            final(self).wf(),
            final(self).spec_window_size() == old(self).spec_window_size(),
            match r {
                None => exists|i: int|
                    is_first_free(old(self).entries(), i) && final(self).entries() == old(
                        self,
                    ).entries().update(i, Some((start, buf@))),
                Some(b) => b == buf && final(self).entries() == old(self).entries() && forall|
                    i: int,
                | 0 <= i < old(self).entries().len() ==> #[trigger] old(self).entries()[i] is Some,
            },
    {
        let ghost old_entries = self.entries();
        let mut i: usize = 0;
        while i < self.slots.len()
            invariant
                i <= self.slots@.len(),
                self.entries() == old_entries,
                self.window_size == old(self).window_size,
                self.slots@ == old(self).slots@,
                buf@.len() >= self.window_size,
                self.wf(),
                forall|j: int| 0 <= j < i ==> #[trigger] old_entries[j] is Some,
            decreases self.slots@.len() - i,
        {
            if self.slots[i].is_none() {
                self.slots.set(i, Some((start, buf)));
                assert(is_first_free(old_entries, i as int));
                assert(self.entries() =~= old_entries.update(i as int, Some((start, buf@))));
                return None;
            }
            i = i + 1;
        }
        Some(buf)
    }
}

impl<T: Copy> ActiveWindows<T> {
    /// Write `sample` into every active window at `position`.
    ///
    /// Returns the one completed buffer (as a `FilledSlot`) if any window's
    /// last sample was just written. At most one window can complete per
    /// sample, since each has a unique start.
    pub fn write_sample(&mut self, position: u64, sample: T) -> (r: Option<FilledSlot<T>>)
        requires
            old(self).wf(),
        ensures
            final(self).wf(),
            final(self).spec_window_size() == old(self).spec_window_size(),
            final(self).entries() == written_entries(
                old(self).entries(),
                position,
                sample,
                old(self).spec_window_size(),
            ),
            match last_completed(
                old(self).entries(),
                position,
                sample,
                old(self).spec_window_size(),
                old(self).entries().len() as int,
            ) {
                None => r is None,
                Some((s, d)) => r matches Some(slot) && slot.start == s && slot.data@ == d
                    && d.len() >= old(self).spec_window_size(),
            },
    {
        let ghost old_entries = self.entries();
        let window_size = self.window_size;
        let ghost ws = window_size as nat;
        let mut completed: Option<FilledSlot<T>> = None;
        let mut i: usize = 0;
        while i < self.slots.len()
            invariant
                i <= self.slots@.len(),
                self.window_size == window_size,
                ws == window_size as nat,
                self.slots@.len() == old_entries.len(),
                forall|j: int|
                    0 <= j < self.slots@.len() ==> (#[trigger] self.slots@[j] matches Some((_, d))
                        ==> d@.len() >= ws),
                forall|j: int|
                    0 <= j < i ==> view_entry(#[trigger] self.slots@[j]) == written_entry(
                        old_entries[j],
                        position,
                        sample,
                        ws,
                    ),
                forall|j: int| i <= j < old_entries.len() ==> view_entry(#[trigger] self.slots@[j]) == old_entries[j],
                forall|j: int|
                    0 <= j < old_entries.len() ==> (#[trigger] old_entries[j] matches Some((_, d))
                        ==> d.len() >= ws),
                match last_completed(old_entries, position, sample, ws, i as int) {
                    None => completed is None,
                    Some((s, d)) => completed matches Some(slot) && slot.start == s
                        && slot.data@ == d && d.len() >= ws,
                },
            decreases self.slots@.len() - i,
        {
            let mut entry: Option<(u64, Vec<T>)> = None;
            self.slots.set_and_swap(i, &mut entry);
            match entry {
                Some((start, mut data)) => {
                    let offset = position.wrapping_sub(start);
                    if offset < window_size as u64 {
                        let off = offset as usize;
                        data.set(off, sample);
                        if offset == window_size as u64 - 1 {
                            completed = Some(FilledSlot { start, data });
                        } else {
                            self.slots.set(i, Some((start, data)));
                        }
                    } else {
                        self.slots.set(i, Some((start, data)));
                    }
                },
                None => {},
            }
            i = i + 1;
        }
        assert(self.entries() =~= written_entries(old_entries, position, sample, ws));
        assert(self.wf());
        completed
    }

    /// Overlap-add read at `position`: the terms of the sum, i.e. the sample at
    /// `position` of every active window that covers it, in slot order (the
    /// output is these added in order, from zero), and the one expired buffer
    /// (if any window has reached or passed its last sample), which leaves the
    /// set. At most one window can expire per sample, since each has a unique
    /// start.
    pub fn read_sum(&mut self, position: u64) -> (r: (Vec<T>, Option<Vec<T>>))
        requires
            old(self).wf(),
        ensures
            final(self).wf(),
            final(self).spec_window_size() == old(self).spec_window_size(),
            final(self).entries() == read_entries(
                old(self).entries(),
                position,
                old(self).spec_window_size(),
            ),
            r.0@ == contributions(
                old(self).entries(),
                position,
                old(self).spec_window_size(),
                old(self).entries().len() as int,
            ),
            match last_expired(
                old(self).entries(),
                position,
                old(self).spec_window_size(),
                old(self).entries().len() as int,
            ) {
                None => r.1 is None,
                Some(d) => r.1 matches Some(b) && b@ == d && d.len() >= old(
                    self,
                ).spec_window_size(),
            },
    {
        let ghost old_entries = self.entries();
        let window_size = self.window_size;
        let ghost ws = window_size as nat;
        let mut sum: Vec<T> = Vec::new();
        let mut expired: Option<Vec<T>> = None;
        let mut i: usize = 0;
        while i < self.slots.len()
            invariant
                i <= self.slots@.len(),
                self.window_size == window_size,
                ws == window_size as nat,
                self.slots@.len() == old_entries.len(),
                forall|j: int|
                    0 <= j < self.slots@.len() ==> (#[trigger] self.slots@[j] matches Some((_, d))
                        ==> d@.len() >= ws),
                forall|j: int|
                    0 <= j < i ==> view_entry(#[trigger] self.slots@[j]) == (if expires(
                        old_entries[j],
                        position,
                        ws,
                    ) {
                        None
                    } else {
                        old_entries[j]
                    }),
                forall|j: int| i <= j < old_entries.len() ==> view_entry(#[trigger] self.slots@[j]) == old_entries[j],
                forall|j: int|
                    0 <= j < old_entries.len() ==> (#[trigger] old_entries[j] matches Some((_, d))
                        ==> d.len() >= ws),
                sum@ == contributions(old_entries, position, ws, i as int),
                match last_expired(old_entries, position, ws, i as int) {
                    None => expired is None,
                    Some(d) => expired matches Some(b) && b@ == d && d.len() >= ws,
                },
            decreases self.slots@.len() - i,
        {
            let mut entry: Option<(u64, Vec<T>)> = None;
            self.slots.set_and_swap(i, &mut entry);
            match entry {
                Some((start, data)) => {
                    let offset = position.wrapping_sub(start);
                    if offset < window_size as u64 {
                        let off = offset as usize;
                        sum.push(data[off]);
                    }
                    if (position as u128) + 1 >= (start as u128) + (window_size as u128) {
                        expired = Some(data);
                    } else {
                        self.slots.set(i, Some((start, data)));
                    }
                },
                None => {},
            }
            i = i + 1;
        }
        assert(self.entries() =~= read_entries(old_entries, position, ws));
        assert(self.wf());
        (sum, expired)
    }
}


/// No two occupied slots hold windows with the same start.
pub open spec fn distinct_starts<T>(es: Seq<WindowEntry<T>>) -> bool {
    forall|i: int, j: int|
        0 <= i < es.len() && 0 <= j < es.len() && i != j && es[i] is Some && es[j] is Some
            ==> entry_start(#[trigger] es[i]) != entry_start(#[trigger] es[j])
}

/// Two windows at the same offset from one position start at the same place.
pub proof fn lemma_offset_determines_start(position: u64, s1: u64, s2: u64)
    requires
        window_offset(position, s1) == window_offset(position, s2),
    ensures
        s1 == s2,
{
}

proof fn lemma_last_completed_from<T>(
    es: Seq<WindowEntry<T>>,
    position: u64,
    sample: T,
    window_size: nat,
    i: int,
    n: int,
)
    requires
        distinct_starts(es),
        0 <= i < n <= es.len(),
        completes(es[i], position, window_size),
    ensures
        last_completed(es, position, sample, window_size, n) == Some(
            (entry_start(es[i]), entry_data(es[i]).update(window_size - 1, sample)),
        ),
    decreases n,
{
    if n - 1 != i {
        if completes(es[n - 1], position, window_size) {
            lemma_offset_determines_start(position, entry_start(es[i]), entry_start(es[n - 1]));
            assert(entry_start(es[i]) != entry_start(es[n - 1]));
        }
        lemma_last_completed_from(es, position, sample, window_size, i, n - 1);
    }
}

/// At most one window completes per sample when starts are distinct, so
/// `write_sample` hands out every window it completes: none is lost.
pub proof fn lemma_completed_window_is_returned<T>(
    es: Seq<WindowEntry<T>>,
    position: u64,
    sample: T,
    window_size: nat,
    i: int,
)
    requires
        distinct_starts(es),
        0 <= i < es.len(),
        completes(es[i], position, window_size),
    ensures
        last_completed(es, position, sample, window_size, es.len() as int) == Some(
            (entry_start(es[i]), entry_data(es[i]).update(window_size - 1, sample)),
        ),
        forall|j: int|
            0 <= j < es.len() && j != i ==> !completes(#[trigger] es[j], position, window_size),
{
    lemma_last_completed_from(es, position, sample, window_size, i, es.len() as int);
    assert forall|j: int| 0 <= j < es.len() && j != i implies !completes(
        #[trigger] es[j],
        position,
        window_size,
    ) by {
        if completes(es[j], position, window_size) {
            lemma_offset_determines_start(position, entry_start(es[i]), entry_start(es[j]));
        }
    }
}

/// Every window ends at or after `position`: none is already past its last sample.
pub open spec fn none_past<T>(es: Seq<WindowEntry<T>>, position: u64, window_size: nat) -> bool {
    forall|i: int|
        0 <= i < es.len() && es[i] is Some ==> position + 1 <= entry_start(#[trigger] es[i])
            + window_size
}

proof fn lemma_last_expired_from<T>(
    es: Seq<WindowEntry<T>>,
    position: u64,
    window_size: nat,
    i: int,
    n: int,
)
    requires
        distinct_starts(es),
        none_past(es, position, window_size),
        0 <= i < n <= es.len(),
        expires(es[i], position, window_size),
    ensures
        last_expired(es, position, window_size, n) == Some(entry_data(es[i])),
    decreases n,
{
    if n - 1 != i {
        if expires(es[n - 1], position, window_size) {
            assert(entry_start(es[i]) != entry_start(es[n - 1]));
        }
        lemma_last_expired_from(es, position, window_size, i, n - 1);
    }
}

/// When starts are distinct and no window is past its end, at most one
/// window expires per sample, so `read_sum` hands out every window
/// it expires: none is lost.
pub proof fn lemma_expired_window_is_returned<T>(
    es: Seq<WindowEntry<T>>,
    position: u64,
    window_size: nat,
    i: int,
)
    requires
        distinct_starts(es),
        none_past(es, position, window_size),
        0 <= i < es.len(),
        expires(es[i], position, window_size),
    ensures
        last_expired(es, position, window_size, es.len() as int) == Some(entry_data(es[i])),
        forall|j: int|
            0 <= j < es.len() && j != i ==> !expires(#[trigger] es[j], position, window_size),
{
    lemma_last_expired_from(es, position, window_size, i, es.len() as int);
    assert forall|j: int| 0 <= j < es.len() && j != i implies !expires(
        #[trigger] es[j],
        position,
        window_size,
    ) by {
        if expires(es[j], position, window_size) {
            assert(entry_start(es[i]) != entry_start(es[j]));
        }
    }
}


/// The number of occupied slots.
pub open spec fn occupied<T>(es: Seq<WindowEntry<T>>) -> nat
    decreases es.len(),
{
    if es.len() == 0 {
        0
    } else {
        occupied(es.drop_last()) + (if es.last() is Some {
            1nat
        } else {
            0nat
        })
    }
}

/// Slot sequences occupied in the same places hold as many windows.
pub proof fn lemma_occupied_same_places<T>(a: Seq<WindowEntry<T>>, b: Seq<WindowEntry<T>>)
    requires
        a.len() == b.len(),
        forall|i: int| 0 <= i < a.len() ==> (#[trigger] a[i] is Some <==> b[i] is Some),
    ensures
        occupied(a) == occupied(b),
    decreases a.len(),
{
    if a.len() > 0 {
        lemma_occupied_same_places(a.drop_last(), b.drop_last());
    }
}

/// Emptying one occupied slot, and no other change of occupancy, leaves
/// one window fewer.
pub proof fn lemma_occupied_one_fewer<T>(a: Seq<WindowEntry<T>>, b: Seq<WindowEntry<T>>, k: int)
    requires
        a.len() == b.len(),
        0 <= k < a.len(),
        a[k] is Some,
        b[k] is None,
        forall|i: int| 0 <= i < a.len() && i != k ==> (#[trigger] a[i] is Some <==> b[i] is Some),
    ensures
        occupied(a) == occupied(b) + 1,
    decreases a.len(),
{
    if k == a.len() - 1 {
        lemma_occupied_same_places(a.drop_last(), b.drop_last());
    } else {
        lemma_occupied_one_fewer(a.drop_last(), b.drop_last(), k);
    }
}

/// Writing a sample empties exactly the slots of the windows it completes;
/// with distinct starts that is at most one, the one returned, so the
/// windows left plus the one returned are the windows before.
pub proof fn lemma_write_sample_conserves_windows<T>(
    es: Seq<WindowEntry<T>>,
    position: u64,
    sample: T,
    window_size: nat,
)
    requires
        distinct_starts(es),
    ensures
        occupied(written_entries(es, position, sample, window_size)) + (if last_completed(
            es,
            position,
            sample,
            window_size,
            es.len() as int,
        ) is Some {
            1nat
        } else {
            0nat
        }) == occupied(es),
{
    let w = written_entries(es, position, sample, window_size);
    if exists|k: int| 0 <= k < es.len() && completes(es[k], position, window_size) {
        let k = choose|k: int| 0 <= k < es.len() && completes(es[k], position, window_size);
        lemma_completed_window_is_returned(es, position, sample, window_size, k);
        assert forall|i: int| 0 <= i < es.len() && i != k implies (#[trigger] es[i] is Some
            <==> w[i] is Some) by {
            assert(!completes(es[i], position, window_size));
        }
        lemma_occupied_one_fewer(es, w, k);
    } else {
        assert forall|i: int| 0 <= i < es.len() implies (#[trigger] es[i] is Some <==> w[i] is Some) by {
            assert(!completes(es[i], position, window_size));
        }
        lemma_occupied_same_places(es, w);
        lemma_no_completion(es, position, sample, window_size, es.len() as int);
    }
}

proof fn lemma_no_completion<T>(
    es: Seq<WindowEntry<T>>,
    position: u64,
    sample: T,
    window_size: nat,
    n: int,
)
    requires
        n <= es.len(),
        forall|k: int| 0 <= k < es.len() ==> !completes(#[trigger] es[k], position, window_size),
    ensures
        last_completed(es, position, sample, window_size, n) is None,
    decreases n,
{
    if n > 0 {
        lemma_no_completion(es, position, sample, window_size, n - 1);
    }
}


proof fn lemma_no_expiry<T>(es: Seq<WindowEntry<T>>, position: u64, window_size: nat, n: int)
    requires
        n <= es.len(),
        forall|k: int| 0 <= k < es.len() ==> !expires(#[trigger] es[k], position, window_size),
    ensures
        last_expired(es, position, window_size, n) is None,
    decreases n,
{
    if n > 0 {
        lemma_no_expiry(es, position, window_size, n - 1);
    }
}

/// Reading empties exactly the slots of the windows that expire; with
/// distinct starts and no window already past its end that is at most one,
/// the one returned, so the windows left plus the one returned are the
/// windows before.
pub proof fn lemma_read_conserves_windows<T>(es: Seq<WindowEntry<T>>, position: u64, window_size: nat)
    requires
        distinct_starts(es),
        none_past(es, position, window_size),
    ensures
        occupied(read_entries(es, position, window_size)) + (if last_expired(
            es,
            position,
            window_size,
            es.len() as int,
        ) is Some {
            1nat
        } else {
            0nat
        }) == occupied(es),
{
    let r = read_entries(es, position, window_size);
    if exists|k: int| 0 <= k < es.len() && expires(es[k], position, window_size) {
        let k = choose|k: int| 0 <= k < es.len() && expires(es[k], position, window_size);
        lemma_expired_window_is_returned(es, position, window_size, k);
        assert forall|i: int| 0 <= i < es.len() && i != k implies (#[trigger] es[i] is Some
            <==> r[i] is Some) by {
            assert(!expires(es[i], position, window_size));
        }
        lemma_occupied_one_fewer(es, r, k);
    } else {
        assert forall|i: int| 0 <= i < es.len() implies (#[trigger] es[i] is Some <==> r[i] is Some) by {
            assert(!expires(es[i], position, window_size));
        }
        lemma_occupied_same_places(es, r);
        lemma_no_expiry(es, position, window_size, es.len() as int);
    }
}

/// Entry `e` after the samples `xs` are written one by one at `start`,
/// `start + 1`, and so on.
pub open spec fn after_writes<T>(e: WindowEntry<T>, start: u64, xs: Seq<T>, window_size: nat) -> WindowEntry<T>
    decreases xs.len(),
{
    if xs.len() == 0 {
        e
    } else {
        written_entry(
            after_writes(e, start, xs.drop_last(), window_size),
            (start + xs.len() - 1) as u64,
            xs.last(),
            window_size,
        )
    }
}

/// A window collects the samples written to it, in order: opened at `start`
/// with a buffer of `window_size` samples, after the samples `xs` (fewer than
/// `window_size`) are written at `start`, `start + 1`, ..., it holds `xs`
/// followed by the rest of its buffer. When `xs` leaves one sample to go,
/// writing the next sample `x` completes the window, which then holds `xs`
/// followed by `x`.
pub proof fn lemma_window_collects_samples<T>(
    start: u64,
    buf: Seq<T>,
    xs: Seq<T>,
    x: T,
    window_size: nat,
)
    requires
        buf.len() == window_size,
        xs.len() < window_size,
        start + window_size <= u64::MAX + 1,
    ensures
        after_writes(Some((start, buf)), start, xs, window_size) == Some(
            (start, xs + buf.subrange(xs.len() as int, window_size as int)),
        ),
        xs.len() == window_size - 1 ==> completes(
            after_writes(Some((start, buf)), start, xs, window_size),
            (start + xs.len()) as u64,
            window_size,
        ) && entry_data(after_writes(Some((start, buf)), start, xs, window_size)).update(
            window_size - 1,
            x,
        ) == xs.push(x),
    decreases xs.len(),
{
    let e = after_writes(Some((start, buf)), start, xs, window_size);
    if xs.len() == 0 {
        assert(xs + buf.subrange(0, window_size as int) =~= buf);
    } else {
        let k = xs.len() as int;
        let ys = xs.drop_last();
        lemma_window_collects_samples(start, buf, ys, x, window_size);
        let prev = ys + buf.subrange(k - 1, window_size as int);
        assert(window_offset((start + k - 1) as u64, start) == k - 1);
        assert(prev.update(k - 1, xs.last()) =~= xs + buf.subrange(k, window_size as int));
    }
    if xs.len() == window_size - 1 {
        assert(window_offset((start + xs.len()) as u64, start) == window_size - 1);
        assert((xs + buf.subrange(xs.len() as int, window_size as int)).update(window_size - 1, x)
            =~= xs.push(x));
    }
}

} // verus!
