//! The download-level store family: keyed collections of download and
//! sub-download records. The embedded-database flavour lives with the
//! embedder; the in-memory flavour here is the reference.

pub mod in_memory;
