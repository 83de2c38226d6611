# patches

Verified core of the Patches audio bundles, in Verus.

`src/` is the verified library:

- `pow2` — powers of two: the bit test, rounding up, divisibility, and the
  hop mask as a modulo.
- `slot_deck` — the windowed transfer of audio between an audio thread and a
  processing thread: configuration (`SlotDeckConfig`), the fixed-capacity set
  of active windows (`ActiveWindows`), the audio-thread overlap buffer with its
  circulating buffer pool (`OverlapBuffer`) and the processing-thread handle
  (`ProcessorHandle`), over the `rtrb` ring buffers. Samples are of any `Copy`
  type; overlap-add reads hand out the terms of the sum.
- `audio` — WAV and AIFF containers parsed from bytes into integer PCM
  samples, and the choice of container from a file extension.
- `bbd_clock` — the phase alternation and tick count of a BBD clock.
- `convolution_plan` — IR partition counts and the tier layout of a
  non-uniform partitioned convolver.

`app/` holds what the library does not: reading files, scaling samples to
floating point, the threaded slot deck, the BBD clock's sub-sample timing and
window buffers.
