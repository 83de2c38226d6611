//! Verified core of the Patches audio bundles: slot-deck configuration and
//! buffer bookkeeping, PCM file parsing, BBD clock phase sequencing and
//! non-uniform convolution tier planning.

pub mod pow2;
pub mod slot_deck;
pub mod audio;
pub mod bbd_clock;
pub mod convolution_plan;
