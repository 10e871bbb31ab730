//! Concurrency-safe file handles deduplicated per canonical path, and a
//! persistent key-value store rebuilt from an append-only log.
//!
//! The verified library holds the decisions: which lock discipline a file
//! mode selects, the versioned write buffer of replace-mode handles, the
//! registry of open paths, the ordered in-memory table, and log replay.
//! The asynchronous I/O that carries those decisions out lives outside.

mod bytes;
mod handle;
mod registry;
mod replay;
mod store;
mod table;

pub use bytes::{compare_bytes, copy_bytes, lex_lt, Order};
pub use handle::{
    byte_range, flushed, lemma_next_generation, lemma_superseded_flush_keeps_pending,
    lock_kind_for, next_generation, read_step, replaces_contents, staged, write_step, BufferView,
    FlushStep, LockKind, OpenMode, ReadStep, WriteBuffer, WriteStep,
};
pub use registry::{
    ids_below, install_spec, lemma_open_dedup, repeated_opens, Installed, OpenRegistry,
    RegistryView,
};
pub use replay::{
    applied, apply_record, lemma_replay_restores, lemma_replayed_keys, lemma_replayed_push,
    lemma_tombstone_dominates, mentions, newest_first, replay, replayed, LogRecord, RecordView,
    ReplayLoader,
};
pub use store::{lemma_write_read_remove, put_view, tombstone_view, AsyncStore};
pub use table::{strictly_sorted, Table};
