//! A local copy of a numbered comic archive and a term index over it.
//!
//! The crate holds the rules of the two engines that keep the copy useful:
//! synchronisation, which decides which documents to ask the remote source
//! for and when to stop, and indexing, which turns a document's text into
//! term frequencies and records them once per document. Fetching and durable
//! storage are left to the caller; every rule here is stated over plain
//! values and proved.

pub mod comic;
pub mod database;
pub mod index;
pub mod request;
pub mod sync;
pub mod terms;
pub mod text;
