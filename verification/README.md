# hgemmtest

An auto-tuner for a batched half-precision matrix product on OpenCL devices,
whose second operand is quantised to the Q4_K block format.

`src/` is the verified library:

- `number`: the arithmetic that the rest computes with. The library holds no
  floating-point numbers; a caller brings a type with the trait `Number`, and
  the contracts say which operations are carried out, on what and in which order.
- `layout`: positions in batches of row-major matrices.
- `matrix`: test matrices, the reference product and the mean squared error.
- `matrix_laws`: how the results of two calls of these relate: transposition,
  batches, symmetry.
- `q4k`: the bytes of a block, and that a reader gets back what was packed.
- `quantize`: scales, minima and levels of a block, and blocks of whole matrices.
- `quantize_laws`: what a block depends on, doubled and exchanged values, changed
  columns and joined batches.
- `problem`: the fixed dimensions, buffer sizes and data.
- `text`, `device`: device names, versions and scores, and the choice of a device.
- `tuning`: the configurations that are tried, their build options and launches,
  and the best run.
- `session`: the operations of one measured configuration, step by step.

`app/` is the program around it: single precision, OpenCL and the output. It
reads the kernel from `hgemm.cl` in the current or the parent directory.
