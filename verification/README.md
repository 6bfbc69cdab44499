# limbo_core (verified parts)

Parts of an SQLite-compatible engine and of its benchmark, written in
Verus with their behaviour stated in contracts and proved:

- `src/sorter.rs`: the virtual machine's sorter. `sort` is a stable merge
  sort of the collected records on their key columns (direction and
  collating sequence per column), after which `next` hands the records out
  in order (`lemma_sorted_walk`).
  The record order (`src/types.rs`, `src/collate.rs`) is proved a total
  preorder, and sorting is proved to give an ordered, stable permutation.
- `src/compound_select.rs`: the bytecode emission of compound SELECT
  statements (`UNION ALL`, `UNION` with a deduplication index). The program
  builder (`src/builder.rs`) is modelled by a `ProgramState`, and the
  emission is specified by `compound_program`. `src/compound_laws.rs`
  proves that each SELECT is emitted once and in order, that `LIMIT 0`
  emits nothing, that every label is resolved and that the LIMIT counter is
  shared by the whole statement.
- `src/wide_table.rs`: the SQL text of the wide-table benchmark.

`app/` holds what talks to SQLite on disk and the conversions from the
parser's types.
