# syncrec

An audio recorder that does not trust the operating system clock, written so that its
reasoning can be checked: everything that decides, computes or formats is in a library whose
contracts Verus proves.

## Layout

- `src/`: the verified library.
  - `float/`: IEEE 754 arithmetic on bit patterns. Every operation is the exact result rounded
    once; `accuracy.rs` states how near, and that rounding keeps order; `bounds.rs` and
    `error.rs` say how large results get and how far sums and means are from the exact ones.
  - `time.rs`, `calendar.rs`, `text.rs`, `order.rs`: instants and spans, the local calendar,
    decimal text, stable sorting.
  - `clock/`: the model of a time server, the bridge to the audio device's clock, and what a
    take is timestamped against.
  - `ethersync.rs`: LAN timecode as a time reference.
  - `audio/`: device negotiation, the capture callback and its rings, metering, the drift log,
    take numbering, the recording session.
  - `finalize.rs`: the drift fit, the conditions under which a raw capture may be deleted, and
    the steps of finalising a take.
  - `trend.rs`: that time running backwards across a take is not taken for a rate, and time
    running forwards is, for up to 8,388,608 observations in any order, which is one a second
    for ninety-seven days.
  - `bwf.rs`: `bext`, iXML and the time reference.
  - `latency.rs`, `permission.rs`, `settings.rs`: input latency, microphone access, settings.
  - `ui/`: the window as a state machine, its texts, and the meter's geometry.
- `tests/`: ordinary tests that run the library.
- `app/`: the program around it: the window's widgets, the audio host, files, threads, sockets.

## What is taken on trust

Three calls into `chrono` (local time of an instant, the instant of a local time, an instant as
text) and the ends of two `rtrb` ring buffers. Their contracts are beside the calls, in
`calendar.rs` and `audio/ring.rs`.

## Numbers

Floating-point values are held as their bits (`F64`, `F32`) and constants are written as bit
patterns, with their value in words beside them.
