# fusion-store

The verified core of a single-machine storage engine. One namespace keeps key/value state,
vectors with a proximity graph, and fixed-width columns in append-only segments; every write goes
to a write-ahead log first and is replayed after a crash.

## Layout

- `src/` is the library. Verus proves the contracts of its functions, but for the wrappers that
  call outside crates (see "What is trusted").
  - `mem/`: the write-ahead log, recovery plans, payload segments, the cache of mapped segments,
    views into mapped bytes.
  - `store/`: the key/value store with its quota.
  - `vector/`: segments of vectors, the graph and its search, its snapshot, the index.
  - `columnar/`: tables of columns and their form in the log.
  - `engine.rs`, `compact.rs`, `sharded.rs`, `lock.rs`: one namespace, compaction and reclaim,
    several namespaces as one store, waiting for a lock.
  - `serve/`, `ffi.rs`, `cli.rs`: the decisions of the HTTP daemon, the C interface and the
    commands.
  - Files named `*_laws.rs` state what holds across operations: what a read gives back of a
    write, what a replay restores, what a compaction keeps.
- `tests/` runs the library with segments, tables and clocks in memory.
- `app/` is the program around it: files, memory maps, LMDB, locks, HTTP, and the C and Python
  interfaces. Distances between vectors are floating-point arithmetic and live there too; the
  library takes them as the bits of IEEE single floats.

## How the library meets the disk

A function that would write takes what is stored and returns a plan: frames to append, a payload
with its place, a locator and a count to put into one transaction. The program carries the plan
out and reports back. Multi-step work (recovery, checkpoint, reclaim, waiting for a lock) is a
small state machine: it names the next action, the program performs it and hands back the
outcome.

A compaction ends with the snapshot of the graph that it has built, to be stored behind the new
locators, and is followed by a checkpoint: it frees ids, and what the log still says of the
vectors that had them must not be replayed.

## What is trusted

The functions marked `external_body` call `arrow` (column access, IPC streams), `base64`
(decoding) and a few functions of the standard library. Each has a doc comment that says what is
claimed of the call.
