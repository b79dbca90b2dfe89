//! A persistent key-value store: an append-only log of JSON records, one per
//! line, with an in-memory index from each key to the offset of its latest
//! record.
pub mod db;
pub mod json;
pub mod record;
pub mod request;

pub use db::{DbError, SimpleDB};
pub use record::KVPair;
pub use request::SetRequest;
