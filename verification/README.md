# Tessera

Computational kernels for batches of PostgreSQL values, written and verified in
Verus. A batch is a set of borrowed columns and a row mask; the kernels compare,
aggregate, compute and hash int4 columns at the selected rows.

- `src/` is the library. `bits`, `bitmap` and `row_mask` hold row masks over words
  and bit windows; `reader`, `word_values`, `lanes`, `column` and `storage` read
  columns independently of their storage; `int32` holds the kernels and `simd` their
  whole-word forms; `c` holds the entry points for C callers and their status.
- `tests/` runs the library on concrete values.
- `app/` exports the entry points with C's layout: raw pointers, panics, and the
  library's errors as standard errors.

The rows of a column are modelled as a sequence of cells: a cell is unprepared,
NULL or a value. Every kernel's contract speaks of the cells and of the selected
rows, so that all representations of the same rows give the same results.
