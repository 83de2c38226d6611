//! Windowed cross-thread transfer of audio between an audio thread and a
//! processing thread (the slot deck).

pub mod config;
pub mod filled_slot;
pub mod active_windows;
pub mod ring;
pub mod processor_handle;
pub mod overlap_buffer;
