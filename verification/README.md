# daft_ext

Extensions of a dataframe engine, verified with Verus.

The library (`src/`) holds:

- `expr_sql`, `plan_sql`, `plan_check`: translating a physical plan to one DuckDB query, and testing
  whether its columns exist. Types and plans are in `schema`, `expr` and `local_plan`.
- `executor`, `arrow_bridge`, `rebatch`: what a run asks of the database, step by step, and the conversion
  and cutting of its batches.
- `collocated_join`, `collocated_laws`: splitting a join of partitioned scans into one join per partition
  value, and what that keeps. The plans that are rewritten are in `logical_plan`.
- `inner_join`, `inner_join_laws`, `record_batch`: the probe phase of an inner hash join, and that its rows
  do not go by how the build side is cut.
- `arrow_growable`, `arrow_buffers`, `arrow_text`: growing Arrow arrays from ranges of other arrays.
- `st_dump`, `st_geohash`, `geohash_cells`, `geometry`, `float_bits`, `scalar_fn`: taking geometries apart,
  and covering a bounding box with geohash cells.
- `text`, `error`: building text, and the errors.

What is relied on of other crates is stated where they are called: `arrow_buffers` for Arrow's buffers,
`geohash_cells` for the geohash cells, `text` for a few functions of the standard library, and `executor`
for telling a shared plan from another.

`app/` is ordinary Rust around the library: the DuckDB connection, floating-point geometry, the stored
forms of the functions, and the Python classes. `tests/` runs the library.
