# luna

LUNA watches the screen, finds UI elements with hand-written computer
vision (Sobel edges, grouped edge points, shape and brightness rules),
plans simple actions for a typed command (click, type, scroll), and runs
them only after a safety gate (refused patterns and keywords, range checks)
and a rate limit (10 actions a second, 100 a minute) let them through.

The library in `src/` is written in Verus: each function carries a
`requires`/`ensures` contract over spec functions and views, and the
contracts and the laws between functions (round trips, the safety gate's
refusals, the detector's exact result, the event routing) are proved.

Layout:

- `src/` — the verified library: images and edge detection (`image`, `ai`),
  capture (`capture`), planning and the command loop's decisions (`ai`,
  `engine`), safety (`safety`, `input`), events (`events`), overlays and
  drawing (`preview`, `render`), text reading (`ocr`, `models`), memory,
  metrics, logging, configuration and small utilities.
- `tests/` — tests run against the compiled library.
- `app/` — the program around it: command line, clock, sleeping, files,
  printing, and the floating-point geometry and animation code.

What is not here:

- Running the neural specialist models (Florence-2, CLIP, TrOCR, SAM) and
  the model manager that loads them needs `candle`, `tokenizers` and a
  `tokio` runtime, with floating-point inference. Those crates are not
  available, so the inference is absent. The decisions around it stand in
  `src/pipeline.rs`: which specialists start, the memory gate, which failed
  starts are fatal, the connection checks, what a run's outcome leads to,
  and the detector's device settings. The segmentation and text-region
  models stand in `src/models.rs` in their fixed-layout form.
- System metrics (CPU and memory percentages) and their alerts are
  floating-point readings of the machine; logger setup writes files. Both
  are left to the program in `app/`. Per-component statistics and their
  alerts are in `src/metrics.rs`.
