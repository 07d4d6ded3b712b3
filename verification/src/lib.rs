//! Indexing and query core of an append-only store for signed events.
//!
//! Events are kept in ordered byte tables: a primary table keyed by an
//! internal identifier and a family of secondary indexes. Ingestion enforces
//! duplicate, deletion and replacement rules; queries pick a driving index,
//! scan it by prefix and merge the scans into one ordered stream.
//!
//! The modules, from the ground up:
//!
//! - `bytes`, `hexcodec`, `key`: byte strings and their order, hexadecimal
//!   text, and the keys of the indexes;
//! - `tree`, `cursor`: an ordered table and the walks over it;
//! - `event`, `payload`: events, their archived index records, and how
//!   payloads are laid down;
//! - `model`, `store`, `db`: what the tables hold for the live events, and
//!   ingestion, deletion and transactions on top of that;
//! - `filter`, `plan`, `scanner`, `group`, `query`: from a filter to scans,
//!   from scans to one merged stream, from the stream to payloads;
//! - `consistency`, `order`, `lanes`, `answers`, `correct`: what is proved of
//!   all this beyond the contracts of the single functions.

pub mod error;
pub mod bytes;
pub mod tree;
pub mod cursor;
pub mod event;
pub mod hexcodec;
pub mod payload;
pub mod key;
pub mod model;
pub mod store;
pub mod filter;
pub mod scanner;
pub mod group;
pub mod plan;
pub mod query;
pub mod db;
pub mod consistency;
pub mod order;
pub mod lanes;
pub mod answers;
pub mod correct;
