# extenddb_storage_bigtable

A storage backend that keeps the tables of a DynamoDB-compatible server in
Google Bigtable. The library under `src/` is written in Verus: it decides what
is read and written and what the answers mean, and what it decides is proved.
It performs no I/O. The program under `app/` sends the requests that the library
makes, and hands the rows that come back to it.

## Layout

- Encodings: `number`, `row_key`, `cell`, `ttl_key`, `gsi`. Keys sort in the
  order of the values that they encode, and decoding undoes encoding.
- Rows and filters: `bigtable` and `filter` hold requests together with a model
  of what the service does with them; `stored` holds what reads and writes of
  whole tables come to, `queries` what queries and scans of tables and indexes
  give, page by page.
- Items: `item_ops` (reads and guarded writes), `query_scan` (queries and scans),
  `shadows` (index tables that follow the items), `engine`.
- Transactions: `transact` (the log and the intents), `txn` (their course, as a
  state machine), `transact_write`, and `sweeper` (recovery).
- Tables and what belongs to them: `tables`, `metadata`, `streams`,
  `stream_engine`, `backups`; `ttl_worker` and `gsi_worker` plan the work in the
  background.
- The catalog: `catalog`, `keys`, `catalog_store`, `bootstrapper`, `config`,
  `operations`, `admin`, `runtime_hooks`, `dev_auth`.
- Ground work: `value`, `table`, `error`, `text`, `bytes`, `json`, `debug`,
  `sorted`, `sorting`, `lists`, `hash`, `random`.

Calls into other crates go through a few declarations in `text`, `debug`, `json`,
`random`, `hash` and `operations`, whose contracts are taken on trust.

The tests run the library against a small table service in memory.
