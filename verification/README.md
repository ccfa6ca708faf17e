# cubic

CUBIC congestion control ([RFC 8312](https://tools.ietf.org/html/rfc8312)) as a verified
library. Every window that it computes is proved equal to the formulas of the RFC in
binary64 arithmetic, rounded once per operation.

- `src/number.rs`: the binary64 numbers and their operations, as mathematics.
- `src/float.rs`: the same operations in integers, proved to give those numbers.
- `src/value.rs`: the values of the numbers as reals, and how rounding moves them.
- `src/time.rs`: points in time and spans, to the nanosecond.
- `src/recovery.rs`: the recovery state that congestion control works on.
- `src/recovery/cubic.rs`: the algorithm.
- `src/recovery/curve.rs`, `src/recovery/laws.rs`: what holds of its curves and windows.
- `src/recovery/reno.rs`: the steps that are shared with NewReno.
- `app/`: the algorithm as a table of operations, on the system clock.

HyStart++ is not part of the library. `consults_hystart` says when an acknowledgement is
one for it to answer, and `on_packet_acked` takes the answer.
