//! Phase and index sequencing of the bucket-brigade-device (BBD) clock.
//!
//! A BBD chip alternates **write** half-phases (charge sampled in) and
//! **read** half-phases (charge sampled out). The sub-sample timing of the
//! ticks is floating-point work of the caller; this module owns the discrete
//! part: which phase the next tick has and its monotonic index.

use vstd::prelude::*;

verus! {

/// Write (bucket-input) or read (bucket-output) half-phase of the
/// BBD clock. Each full bucket cycle is one `Write` tick followed by
/// one `Read` tick.
#[derive(Clone, Copy, Debug, PartialEq, Eq)]
pub enum TickPhase {
    Write,
    Read,
}

/// The phase of the tick with the given index: ticks alternate, starting
/// with `Write`.
pub open spec fn phase_of(index: int) -> TickPhase {
    if index % 2 == 0 {
        TickPhase::Write
    } else {
        TickPhase::Read
    }
}

/// The phase alternation and tick count of a BBD clock.
pub struct TickSequencer {
    even_on: bool,
    tick_index: u64,
}

impl TickSequencer {
    /// The next tick is a `Write` exactly when an even number of ticks has fired.
    pub closed spec fn wf(&self) -> bool {
        self.even_on == (self.tick_index % 2 == 0)
    }

    /// The number of ticks fired so far, which is also the next tick's index.
    pub closed spec fn fired(&self) -> u64 {
        self.tick_index
    }

    /// The number of ticks fired so far.
    pub fn ticks_fired(&self) -> (r: u64)
        ensures
            r == self.fired(),
    {
        self.tick_index
    }

    /// A sequencer before its first tick.
    pub fn new() -> (r: Self)
        ensures
            r.wf(),
            r.fired() == 0,
    {
        Self { even_on: true, tick_index: 0 }
    }

    /// Start again from the first tick (a `Write` with index 0).
    pub fn reset(&mut self)
        ensures
            final(self).wf(),
            final(self).fired() == 0,
    {
        self.even_on = true;
        self.tick_index = 0;
    }

    /// Fire one tick: its phase and its index.
    pub fn next_tick(&mut self) -> (r: (TickPhase, u64))
        requires
            old(self).wf(),
            old(self).fired() < u64::MAX,
        ensures
            final(self).wf(),
            r.1 == old(self).fired(),
            r.0 == phase_of(r.1 as int),
            final(self).fired() == old(self).fired() + 1,
    {
        let phase = if self.even_on {
            TickPhase::Write
        } else {
            TickPhase::Read
        };
        let index = self.tick_index;
        self.tick_index = self.tick_index + 1;
        self.even_on = !self.even_on;
        (phase, index)
    }
}

/// Consecutive ticks have opposite phases, and a `Write` tick is followed by
/// a `Read` tick: the phases alternate.
pub proof fn lemma_phases_alternate(index: int)
    requires
        index >= 0,
    ensures
        phase_of(index) != phase_of(index + 1),
        phase_of(index) == TickPhase::Write <==> phase_of(index + 1) == TickPhase::Read,
{
}

} // verus!
