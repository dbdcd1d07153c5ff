# decaf_backend

Two back-end passes of a small compiler, written and proved in Verus:

- `common_expr`: common-subexpression elimination over the basic blocks of a
  function, driven by an available-expressions analysis. The pass's result is
  stated exactly: the analysis is the greatest solution of the data-flow
  equations (`flow`), and each block is rewritten by a backward search that
  makes the last earlier computations of an available expression write one new
  register, which the later computation then copies.
- `print_wast` and `codegen_wast`: the WebAssembly text of instructions,
  functions, virtual tables and string constants, each stated character by
  character over spec functions.

Supporting modules: `ir` (the three-address code), `bitset` (word-packed bit
sets), `printer` (an indenting text buffer) and `text` (decimal and
hexadecimal digits).

The tests under `tests/` run the same functions on concrete programs.
