//! Incremental catalog indexing and reading-state reconciliation for an
//! ebook and comic library.
pub mod text;
pub mod order;
pub mod format;
pub mod error;
pub mod catalog;
pub mod ident;
pub mod scan;
pub mod reconcile;
pub mod sdr;
pub mod mirror;
pub mod config;
pub mod opds;
