# optijpeg

Optimizes JPEG files losslessly in place: each file is re-encoded as an
optimized progressive JPEG from its quantized DCT coefficients, and all APP
markers and comments are dropped.

## Layout

- `src/` is the verified library (Verus):
  - `metadata.rs`: the marker-segment scan that detects APPn and COM markers;
  - `lib.rs`: the per-file decision (keep the file or write the candidate) and
    the sizes it reports;
  - `format.rs`: digit grouping and binary-unit size text;
  - `summary.rs`: the run totals and the exit decision;
  - `discover.rs`, `natural.rs`: which command-line paths are processed, each
    once, and in natural path order.
- `app/` is the command: argument parsing, the file system, the MozJPEG
  encoder (through its C interface), parallel processing and printing.
- `tests/` runs the library on concrete inputs.
