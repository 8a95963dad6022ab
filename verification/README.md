# guksu

Quantized vector-search building blocks, verified with Verus: int8 and binary
distance kernels (symmetric and asymmetric), sign-bit and int8 quantizers, a
flat filtered top-k scan with a rerank step, and a harness that measures how
much recall each quantization costs.

## Layout

- `src/` is the library. Its functions are verified, but for the few trusted
  ones named at the end, which call outside code.
  - `ieee`, `rounding`, `text`, `ratio`, `rng`, `bitset`: floating-point bit
    patterns, what IEEE arithmetic gives, text, exact fractions, random
    streams, id filters.
  - `kernels`: the scalar kernels (`scalar`), the vector backends' summation orders
    (`lanes`, `integer`), the choice of a backend (`backend`), and laws.
  - `quant`: packing, int8 quantization, parity with an embedding provider.
  - `storage`, `query`, `scan`: blocks and views of rows, queries bound to a
    view, top-k selection.
  - `recall`: command line, data files, synthetic data, evaluation grid,
    ground-truth cache, tables.
- `app/` is the `recall` program: files, threads, timing, processor features
  and floating-point arithmetic.
- `tests/` runs the library.

## Floating point

The library holds single- and double-precision numbers as bit patterns. Order,
signs, conversions from integers and rounding to codes are computed and proved
on the patterns. Rounding arithmetic is passed in as functions; contracts state
which operations are applied to which operands, and in what order. `rounding`
says what it is for such a function to be the IEEE operation; from that follow
the error bounds of the dot products, of the round trip through int8 codes, and
the exactness of flipping signs.

## Determinism

Results are ordered by score, descending in the IEEE total order, then by id.
Equal scores are the norm with binary codes, so the order is total; the top
`k` of a scan is a prefix of the top of any deeper scan. Integer kernels give
the same result on every backend. Single-precision kernels differ between
backends only in the order of summation, and stay within a proved bound of the
exact sum.

## What is trusted

`recall::args` calls the `lexopt` crate and the `Debug` of strings,
`recall::npy` calls `std::str::from_utf8`, and `text` gives `String::push` its
contract. Each of these items says what it claims.
