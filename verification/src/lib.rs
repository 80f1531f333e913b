//! FloTalk runtime core: interned symbols, symbol tables, message signatures,
//! reference-counted class allocators, cells and cell blocks of a context,
//! message dispatch tables, dictionary buckets, the read/write lock queue, the receivers of
//! inverted messages and the decisions of `do_while` loops, with their
//! behaviour stated as Verus contracts.

pub mod symbol;
pub mod class;
pub mod reference;
pub mod symbol_table;
pub mod message;
pub mod allocator;
pub mod read_write_queue;
pub mod context;
pub mod continuation;
pub mod dictionary;
pub mod dispatch_table;
pub mod error;
pub mod inverted;
pub mod inverted_delivery;
