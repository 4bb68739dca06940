//! A directory scan engine with a two-tier result cache. The walker
//! visits every non-symlink entry below a root, the aggregator folds
//! file sizes into directory totals and sorts by size, and repeated
//! queries are served from a bounded in-memory tier backed by a
//! persistent on-disk store, both keyed by canonical root path and
//! invalidated by the root's modification time.
pub mod aggregate;
pub mod codec;
pub mod disk_cache;
pub mod engine;
pub mod format;
pub mod item;
pub mod mem_cache;
pub mod pathutil;
pub mod perf;
pub mod walk;
