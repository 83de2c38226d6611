//! Configuration for the slot deck.

use vstd::prelude::*;
use crate::pow2::{is_pow2, is_next_pow2, max_usize_pow2, is_power_of_two, next_power_of_two,
    lemma_pow2_divides};

verus! {

/// Configuration for an `OverlapBuffer` / `ProcessorHandle` pair.
///
/// All three parameters must be powers of two and non-zero.
/// `window_size` must be >= `overlap_factor`.
pub struct SlotDeckConfig {
    /// Length of each analysis/synthesis window in samples.
    pub window_size: usize,
    /// Number of overlapping windows; `hop_size = window_size / overlap_factor`.
    pub overlap_factor: usize,
    /// Audio-clock samples the processor is allowed before a result is considered late.
    pub processing_budget: usize,
}

/// The message `SlotDeckConfig::new` rejects a bad `window_size` with.
pub open spec fn window_size_error() -> Seq<char> {
    "window_size must be a non-zero power of two"@
}

/// The message `SlotDeckConfig::new` rejects a bad `overlap_factor` with.
pub open spec fn overlap_factor_error() -> Seq<char> {
    "overlap_factor must be a non-zero power of two"@
}

/// The message `SlotDeckConfig::new` rejects a bad `processing_budget` with.
pub open spec fn processing_budget_error() -> Seq<char> {
    "processing_budget must be a non-zero power of two"@
}

/// The message `SlotDeckConfig::new` rejects a window shorter than the overlap with.
pub open spec fn window_overlap_error() -> Seq<char> {
    "window_size must be >= overlap_factor"@
}

/// The error `SlotDeckConfig::new` gives for these parameters, if any: the
/// first of the checks, in order, that fails.
pub open spec fn config_error(window_size: int, overlap_factor: int, processing_budget: int)
    -> Option<Seq<char>>
{
    if !is_pow2(window_size) {
        Some(window_size_error())
    } else if !is_pow2(overlap_factor) {
        Some(overlap_factor_error())
    } else if !is_pow2(processing_budget) {
        Some(processing_budget_error())
    } else if window_size < overlap_factor {
        Some(window_overlap_error())
    } else {
        None
    }
}

/// `max(1, processing_budget / hop_size)`: windows that may be in flight
/// through the processor while the next ones fill.
pub open spec fn pipeline_slots(processing_budget: int, hop: int) -> int {
    if processing_budget / hop >= 1 {
        processing_budget / hop
    } else {
        1
    }
}

impl SlotDeckConfig {
    /// All three parameters are powers of two and the window holds at least
    /// one sample per overlapping window.
    pub open spec fn wf(&self) -> bool {
        &&& is_pow2(self.window_size as int)
        &&& is_pow2(self.overlap_factor as int)
        &&& is_pow2(self.processing_budget as int)
        &&& self.window_size >= self.overlap_factor
    }

    /// `window_size / overlap_factor`.
    pub open spec fn spec_hop_size(&self) -> int {
        self.window_size as int / self.overlap_factor as int
    }

    /// `2 * overlap_factor + max(1, processing_budget / hop_size)`.
    pub open spec fn raw_pool_size(&self) -> int {
        2 * self.overlap_factor + pipeline_slots(
            self.processing_budget as int,
            self.spec_hop_size(),
        )
    }

    /// Construct and validate a `SlotDeckConfig`.
    ///
    /// Returns `Err` if any parameter is zero, not a power of two, or if
    /// `window_size < overlap_factor`.
    pub fn new(window_size: usize, overlap_factor: usize, processing_budget: usize) -> (r: Result<
        Self,
        &'static str,
    >)
        ensures
            match r {
                Ok(c) => {
                    &&& config_error(
                        window_size as int,
                        overlap_factor as int,
                        processing_budget as int,
                    ) is None
                    &&& c.window_size == window_size
                    &&& c.overlap_factor == overlap_factor
                    &&& c.processing_budget == processing_budget
                    &&& c.wf()
                },
                Err(e) => config_error(
                    window_size as int,
                    overlap_factor as int,
                    processing_budget as int,
                ) == Some(e@),
            },
    {
        if !is_power_of_two(window_size) {
            return Err("window_size must be a non-zero power of two");
        }
        if !is_power_of_two(overlap_factor) {
            return Err("overlap_factor must be a non-zero power of two");
        }
        if !is_power_of_two(processing_budget) {
            return Err("processing_budget must be a non-zero power of two");
        }
        if window_size < overlap_factor {
            return Err("window_size must be >= overlap_factor");
        }
        Ok(Self { window_size, overlap_factor, processing_budget })
    }

    /// `window_size / overlap_factor`
    pub fn hop_size(&self) -> (r: usize)
        requires
            self.overlap_factor > 0,
        ensures
            r == self.spec_hop_size(),
            self.wf() ==> is_pow2(r as int) && r * self.overlap_factor == self.window_size,
    {
        proof {
            if self.wf() {
                lemma_pow2_divides(self.window_size as int, self.overlap_factor as int);
            }
        }
        self.window_size / self.overlap_factor
    }

    /// `window_size + processing_budget`
    pub fn total_latency(&self) -> (r: usize)
        requires
            self.window_size + self.processing_budget <= usize::MAX,
        ensures
            r == self.window_size + self.processing_budget,
    {
        self.window_size + self.processing_budget
    }

    /// Recommended slot pool size per direction.
    ///
    /// `next_power_of_two(2 * overlap_factor + pipeline_slots)` where
    /// `pipeline_slots = max(1, processing_budget / hop_size)`.
    pub fn pool_size(&self) -> (r: usize)
        requires
            self.overlap_factor > 0,
            self.window_size >= self.overlap_factor,
            self.raw_pool_size() <= max_usize_pow2(),
        ensures
            is_next_pow2(self.raw_pool_size(), r as int),
            is_next_pow2(
                2 * self.overlap_factor + if self.processing_budget / (self.window_size
                    / self.overlap_factor) >= 1 {
                    self.processing_budget / (self.window_size / self.overlap_factor)
                } else {
                    1
                },
                r as int,
            ),
            r > 2 * self.overlap_factor,
    {
        let hop = self.hop_size();
        assert(hop >= 1) by (nonlinear_arith)
            requires
                hop == self.window_size as int / self.overlap_factor as int,
                self.window_size >= self.overlap_factor,
                self.overlap_factor > 0,
        ;
        let q = self.processing_budget / hop;
        let pipeline_slots = if q >= 1 { q } else { 1 };
        let raw = 2 * self.overlap_factor + pipeline_slots;
        next_power_of_two(raw)
    }
}

/// The pool size is the smallest power of two that holds twice the overlap
/// factor plus the windows in flight through the processor: the processing
/// budget divided by the hop, `window_size / overlap_factor`, and at least
/// one. For example 1024-sample windows, overlap 4 and a budget of 4096
/// samples give a hop of 256, 16 windows in flight, 24 slots and a pool of 32.
pub proof fn lemma_pool_size_formula(c: SlotDeckConfig, pool: int)
    requires
        c.overlap_factor > 0,
        is_next_pow2(c.raw_pool_size(), pool),
    ensures
        is_pow2(pool),
        pool >= 2 * c.overlap_factor + 1,
        pool >= 2 * c.overlap_factor + c.processing_budget / (c.window_size / c.overlap_factor),
        forall|q: int|
            is_pow2(q) && q >= 2 * c.overlap_factor + 1 && q >= 2 * c.overlap_factor
                + c.processing_budget / (c.window_size / c.overlap_factor) ==> q >= pool,
{
}

} // verus!
