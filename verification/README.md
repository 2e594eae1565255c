# rumpy

A verified library of numpy's integer and array-shape routines, written in
Verus. Every executable function in `src/` carries a `requires`/`ensures`
contract over a mathematical model of its data, and Verus proves each body
against it.

## Model

An array is an `NdArray<T>`: a shape and its elements in row-major order.
Its model `NdModel<T>` holds the same as a `Seq<usize>` and a `Seq<T>`;
`nd_wf` says that the number of elements is the product of the shape.
Raw arrays of any numeric dtype (`RawArray`) hold little-endian bytes.

## Layout

- `nd`, `index`, `axes`, `tiling`, `ravel`, `assign`: shapes, indexing,
  transposes, flips, rolls, joins and splits, repetition, broadcasting.
- `arith`, `broadcast`, `logic`, `ops`: element-wise arithmetic (numpy's
  wrapping `int64`), floor division, gcd and lcm, shifts, bitwise and logical
  operations, comparisons.
- `widths`: arithmetic, powers, negation and casts at the width of each
  fixed-size integer dtype (`int8` ... `uint64`), wrapping modulo 2^bits.
- `mixed`: operations on operands of different integer dtypes (arithmetic,
  power, maximum and minimum, `dot` and matrix products, concatenation),
  promoted and cast first.
- `text_arrays`: `concatenate` for arrays of strings.
- `fold`, `reduce`, `lanes`, `sorting`, `search`, `nonzero`: reductions,
  running sums and products, differences, sorting, `lexsort`, searches.
- `dtype`, `dtype_info`, `promote`: dtypes, their attributes and promotion.
- `npy`, `npz`, `raw`, `textio`, `crc32`, `text`, `scan`, `table`: the
  `.npy` format, STORED `.npz` archives, raw binary files and the layout of
  text tables, as functions on bytes.
- `random`: permutations, shuffles, choices and bounded integers, each split
  into the draws and an exact function of the draws; every draw is a
  function of the generator's state, so a seeded run repeats.
- `*_laws` modules and `lemma_*` proof functions: properties that relate
  several functions (round trips, involutions, inverses).

`app/` holds what the library does not: file I/O, the global generator, and
floating-point routines (samplers, means, medians, NaN-skipping
reductions). `tests/` runs the library on concrete values.
