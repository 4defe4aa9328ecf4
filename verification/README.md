# QR Restore

Recovers QR codes from blurred, noisy or deformed images. An image is rendered in
many variants; symbols found in them are read with soft information about every
module; what is read counts only if an independent decoder reads it again from a
clean symbol.

- `src/` is the library, verified with Verus: symbol structure, interleaving,
  soft error correction, repair of deformed symbols, image kernels, the plan of
  variants, and the course of a recovery up to merging the results of batches.
- `app/` is the browser module around it: exports, symbol detection, and the
  kernels that need floating-point numbers.
- `tests/` holds the tests of the library.

The library holds no floating-point types. Single- and double-precision numbers
are counted in integer units and rounded as IEEE arithmetic rounds them
(`src/rounding.rs`): reliabilities in units of 2^-30, scores in units of 2^-52 of
a point. Times are in microseconds, search costs in halves.

Calls into `reed-solomon`, `photon-rs`, `regex` and `rqrr` go through small
functions marked `#[verifier::external_body]`; the comment above each says what is
claimed of the call without proof.
