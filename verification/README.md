# dominant_speaker

Dominant speaker identification for multiparty audio, driven by RFC 6464
audio levels (0 = loudest, 127 = silent) and caller-supplied millisecond
timestamps.

- `src/` — the verified library (Verus): the binomial coefficients and
  subband downsampling behind the activity scores (`numerics`), the per-peer
  level ring buffer, noise-floor tracking and activity buffers (`speaker`),
  and the room state: registration, idle timeouts, buffer evaluation on each
  tick and who is dominant (`detector`). Every operation is specified over a
  mathematical model of the state, and the room keeps the dominant peer
  registered at all times.
- `app/` — the public detector with its floating-point parts: the
  log-domain activity scores computed from the library's integer counts, the
  three-threshold hysteresis election, and ranking by score.
- `tests/` — tests of the library.
