# pullauta

The verified core of the Karttapullautin orienteering map generator,
written in Verus.

- `src/` is the library. Its functions are verified, except the trusted
  wrappers around outside calls, whose contracts the proofs take on trust.
  - `io/xyz.rs`: the binary point-cloud format (header, little-endian
    records, patched record count), with its writer and chunked reader.
  - `io/heightmap.rs`: the binary heightmap file.
  - `plan.rs`: tile dependencies and the order in which tiles are extracted
    and processed.
  - `grid_fill.rs`: finding where each gap of a heightmap takes its value from.
  - `contours.rs`: recording contour segments and chaining them into
    polylines.
  - `line_join.rs`: joining contour pieces whose ends meet.
  - `palette.rs`: the palette of the map and paletted images.
  - `merge.rs`: choosing the files to merge, and their output names.
  - `util.rs`: timing of processing steps, and palette expansion.
  - The trusted wrappers: `collections.rs` (`rustc-hash` maps and sets),
    `io/stream.rs` (`std::io`), `raster.rs` (the `image` grayscale buffer and
    the `imageproc` median filter and rectangle fill), and `instant_now` in
    `util.rs` (`std::time::Instant::now`).
- `app/` is the command-line program around the library: file system access,
  image and LAS I/O, and the floating-point geometry.
- `tests/` holds the tests of the library.

Verify with `verus` on `src/lib.rs`; build and test with cargo.
