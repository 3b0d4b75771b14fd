# scrollstitch

Offset estimation between consecutive screenshots of a scrolling view, split in two:

- `src/` — the verified library (Verus). It holds the integer side of the estimators:
  the sampled column groups (`column_match`), the order in which candidate offsets are
  tried (`search`), which rows of two column samplings are compared and when the column
  search stops, the fixed-bar-free content rectangle and the feature-match bookkeeping
  (`orb`), corner thinning, corner filtering and width reduction of gray frames
  (`fast_match`), and the template search plan with its verification rows
  (`template_match`). `frame` holds the gray image type.
- `app/` — plain Rust around it: grayscale conversion and all `f32`/`f64` scoring, the
  OpenCV ORB pipeline, and conversions from `image`/`imageproc` types.
- `tests/` — tests of the library on concrete values.
