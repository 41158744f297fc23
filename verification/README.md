# particles

A particle renderer whose integer core is verified with Verus.

- `src/` is the verified library: RGBA bitmaps and their pixel blending, the 32-bit
  linear congruential generator, CRC-32, `.npy` files and stored `.npz` (ZIP) archives
  written and read back, the `section / key = value` settings format, resolutions and
  hexadecimal colors as text, command-line splitting, a square grid that wraps around, the
  bookkeeping of the auction assignment, the simplex-noise lattice hash, and the face
  tables and grid radius of the point distributions. `src/readback.rs` proves that what
  is written reads back.
- `app/` is ordinary Rust around it: everything computed in `f32` (colors, noise, point
  distributions, fluid fields, projection, shading), file and environment access, and the
  renderers that write raw RGBA frames to standard output. It uses `glam` and `tiny-skia`.
- `tests/` exercises the library on concrete values.
