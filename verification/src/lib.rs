//! Streaming extraction of licence plate identifiers from zipped
//! registration documents into a keyed in-memory store.

pub mod archive;
pub mod document;
pub mod listing;
pub mod order;
pub mod pipeline;
pub mod progress;
pub mod record;
pub mod scanner;
pub mod store;
pub mod xml;
