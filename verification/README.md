# fitsio-pure

A FITS (Flexible Image Transport System) reader and writer whose logic is
verified with Verus: header cards and blocks, primary and extension HDUs,
images, ASCII and binary tables, tile-compressed images (Rice and GZIP),
checksums, extracting one HDU into a file of its own, and a `fitsio`-style
API on top of a file's bytes (keywords, images and table columns, read and
written).

Layout:

- `src/` — the verified library. Each public function states in its
  contract what it returns; the round trips (header, image, binary table,
  keyword write then read, appended image extension, unsigned pixels written
  then read) and the layout of a parsed file are proof functions. ASCII
  table fields in `F`, `E` and `D` formats are held as their text; turning
  that text into `f64` and back is left to the caller.
  The only calls from `src/` into an outside crate are the DEFLATE decoders
  of `miniz_oxide`, behind two trusted wrappers in `src/tiled.rs`.
- `app/` — the `fitsinfo` program (print a summary of every HDU of a file;
  run as `fitsconv`, the `info` and `extract` subcommands), the file I/O of
  the `fitsio`-style API (open, edit, flush, create), and images as
  `ndarray` arrays.
- `tests/` — tests that run the library on concrete files.
