# Thanos v1 reader

A reader for Thanos blocks whose rules are verified with Verus.

`src/` is the library. It decides everything that can be decided from plain values:

- `tsdb_index`, `chunk_reader`, `histogram` and `bits` read the index and the chunks of a block.
- `block_index` and `block_visibility` say which blocks are shown and which rows their indexes have.
- `storage` and `page_cache` say where objects are, how a range is put together from pages, which
  pages leave the cache and which are held again after a restart.
- `store_service`, `block_choice`, `series_plan`, `series_answer` and `store_info` answer requests of
  the Thanos store API; `block_choice` says which blocks are read for a request.
- `metric_table` chooses chunks and samples for SQL queries; `table` has the columns and cells.
- `convert` and `hll` flatten a block into a table with counts of label values.
- `config` checks the configuration.
- `text`, `sorted_map`, `name_set`, `sort`, `labels`, `pattern` and `digest` are what the others
  stand on.

Every function says in its contract what it returns for every input. Public proof functions whose
names start with `law_` state what holds of several functions together. Checksums, digests, JSON,
regular expressions, durations, times and XOR chunks come from other crates; what the proofs take for
granted of those is written above each wrapper.

`app/` is the server around the library: object storage, Parquet files, SQL tables, Arrow Flight and
gRPC. `app/bin/convert.rs` is a program of its own, which also needs the `vortex` crate.

`tests/` runs the library on concrete values.
