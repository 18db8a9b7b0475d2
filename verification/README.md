# rx

A Mode S receiver for RTL-SDR dongles: samples in, frames, an aircraft table and
Beast streams out. The logic is a Verus library whose behaviour is stated in
contracts and proved; a thin program around it drives the dongle and the network.

## Layout

- `src/` is the library.
  - `iq` turns 8-bit I/Q into magnitudes; `intake` keeps the window of samples that
    the demodulator sees, and the sample clock.
  - `params`, `preamble`, `slicer`, `crc`, `repair`, `known`, `demod`: finding
    preambles, slicing bits, checking and repairing frames, and who is confirmed.
  - `demod_laws`, `order`: what holds of every frame that comes out, and in what
    order they come.
  - `reception`, `images`, `any_start`: a frame sent over an even noise floor comes
    out, wherever it starts.
  - `collide`: which frames to subtract from the samples and what to rescan;
    `collide_laws`: what holds of a recovery as a whole.
  - `probe`: why a known frame was or was not found.
  - `beast`, `beast_in`, `connector`, `reduce`, `publish`: the Beast format both
    ways, consumers, and the reduced stream.
  - `track`, `track_json`, `stats`, `json_serve`, `text`: the aircraft table, the
    counters and the documents made from them.
  - `station`: what becomes of each frame.
  - `gain`: the measured gain loop. `clips`: shadow recordings.
- `tests/` runs the library.
- `app/` is the program: arguments, sockets, files, threads, librtlsdr, and the
  floating-point fit that subtracts a frame from the samples.

## Units

Times within the samples are in fifths of a sample, which are the 12 MHz ticks of a
Beast timestamp; every boundary of the waveform lies on that grid. Levels of a
preamble are scaled by 396 so that pulse and gap means stay integers, ratios are in
256ths, wall times in milliseconds, positions in billionths of a degree.

## Laws

Functions whose names begin with `law_` state what holds of the library as a whole:
that a repair explains what it repaired, that every frame emitted is borne out by
its checksum or by a confirmed aircraft, that frames come one after the other,
that a recovery only adds to a plain run, that a lone frame is received as it was
sent, that a Beast stream is read back as it was written however it is cut, that
the gain loop takes two votes for a step, that names of clips sort by time.
