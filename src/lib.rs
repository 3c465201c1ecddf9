//! A log-structured key/value store in the style of BitCask: the on-disk
//! entry format, the recovery scan that rebuilds the index, the ordered
//! in-memory index with range scans, and the space accounting that drives
//! compaction.
pub mod compaction;
pub mod engine;
pub mod format;
pub mod keydir;
pub mod lex;
