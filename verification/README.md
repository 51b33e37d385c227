# curvepress

Lossy time-series compression: point reduction (RDP / VW / RDP-N), quantization
to an integer grid, and delta + zigzag + LEB-128 varint packing into a
self-describing byte stream.

## Layout

- `src/` — the verified library (Verus): everything of the pipeline that works
  on integers and bytes.
  - `varint.rs` — LEB-128 varints and zigzag mapping, with their round-trip laws.
  - `le.rs` — little-endian fixed-width integers.
  - `frame.rs` — the stream: header, value stream, timestamp stream (irregular:
    differences; regular: interval and index stream); encoding, decoding, and
    the laws that decoding gives back what was encoded and that no truncated
    stream decodes.
  - `series.rs` — input validation, kept-point selection, sample location and
    the interpolation grid.
  - `rdp.rs`, `vw.rs`, `heap.rs`, `radial.rs` — the range splitting of
    Ramer-Douglas-Peucker, the removal order of Visvalingam-Whyatt (with a
    binary min-heap) and the radial pre-filter pass, over order-preserving
    `u64` keys of the distances and areas and over the radius test.
  - `error.rs` — the error type and its numbers in the C interface.
- `app/` — ordinary Rust around the library: the floating-point stages
  (coordinates, distances, areas, quantization, error measurement,
  interpolation), the public `compress` / `decompress` / `interpolate` API with
  `Config` and `Stats`, and the C, Python (PyO3) and WASM bindings.
- `tests/` — tests of the library.
