//! A vocabulary index for word and subword embedding models: token entries with
//! FNV-1a subword buckets, a fixed-capacity open-addressing table, and pruning.
pub mod loader;
pub mod vocabulary;
pub mod word;
