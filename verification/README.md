# flo_talk

The core data structures of the FloTalk runtime (a SmallTalk-like scripting
language), written in Verus with their behaviour stated as contracts and proved.

## Layout

- `src/` — the verified library
  - `symbol.rs` — interned symbols, keyword and binary symbols
  - `symbol_table.rs` — symbol tables with parent frames
  - `message.rs` — message signatures and their interned IDs
  - `class.rs`, `reference.rs` — class IDs, data handles, cells and references
  - `allocator.rs` — the reference-counted allocator used by classes
  - `context.rs` — cell blocks and the root symbol table of a context
  - `dispatch_table.rs` — message dispatch tables
  - `dictionary.rs` — the buckets of the Dictionary class and the steps of its lookups
  - `error.rs` — FloTalk errors
  - `read_write_queue.rs` — the ticket queue behind the read/write lock
  - `inverted.rs` — the registered receivers of inverted messages
  - `inverted_delivery.rs` — the order in which inverted messages are sent to them
  - `continuation.rs` — the decisions of a `do_while` loop
- `tests/` — tests run against the compiled library
- `app/` — the parts that need I/O, async plumbing or floating point: global
  registries, the asynchronous read/write queue built on the verified lock
  queue, and animation curves

Each module keeps its laws (properties that relate several operations) as
public proof functions named `law_...`.
