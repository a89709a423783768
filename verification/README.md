# Cyclic executive with WCET analysis

A time-triggered real-time executive: a static schedule of frames, each a
list of tasks, is stepped through once per timer tick, and a frame overrun is
reported. Beside it, a worst-case execution time analysis measures tasks and
checks that the tasks slotted into each frame fit in one tick.

- `src/executive.rs` — the `Timer` trait, `CyclicExecutive` and the laws of
  frame progression (a major cycle returns to its starting frame).
- `src/time.rs` — `Duration`, a span of nanoseconds, and the clock readings.
- `src/config.rs` — the schedule configuration.
- `src/wcet.rs` — `profile_task`, `summarize`, `analyze_schedule` and the laws of the analysis.
- `app/lib.rs` — the endless `run_loop` around the verified `step`.
