//! An embedded, single-file, log-structured key-value store: an append-only
//! log of records paired with an in-memory index that maps each live key to
//! the location of its latest value. Point reads and writes, deletions by
//! tombstone, ordered range and prefix scans, and a compacting merge, each
//! verified against a mathematical model of the log. Beside it stands a
//! small verified evaluator for integer arithmetic expressions.

pub mod bitcask;
pub mod expr;
pub mod keydir;
pub mod lex;
pub mod log;
pub mod record;
