# camillalib: monitor channel reduction

Compressors, noise gates and limiters drive their envelopes from a selection
of "monitor" channels. `aggregate_monitor_channels` reduces that selection to
one detector waveform per chunk, frame by frame, in one of three modes:

- `Sum`: signed sum in selection order (the first waveform, then each further
  one added);
- `Max`: largest magnitude;
- `Rms`: root mean square across the selected channels, computed on samples
  scaled by their largest magnitude, with NaN and zero/non-finite scales
  handled explicitly.

Layout:

- `src/sample.rs`: `MonitorSample`, the operations the reduction uses;
- `src/config.rs`: `MonitorMode`;
- `src/audiochunk.rs`: `AudioChunk`, one waveform per channel;
- `src/processors/monitor.rs`: the reduction and the specification of each mode;
- `src/processors/monitor_laws.rs`: locality, chunking, determinism, scratch
  independence, polarity and selection-order laws;
- `app/lib.rs`: the double-precision sample type and a checked entry point;
- `tests/monitor.rs`: examples on double-precision samples.

The reduction is proved correct for any `MonitorSample`: its contract
states each output sample in terms of what the sample type's operations return.
The floating-point arithmetic itself is supplied by the sample type.
