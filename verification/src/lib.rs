//! Position-indexed aggregation store for a chess opening explorer.
//!
//! The crate holds the binary codec of the stored entries, the composite key
//! layout, the merge operators that fold entries together, and the pure parts
//! of query assembly and of the master import. Everything here is verified
//! but the calls into the outside libraries, whose contracts are stated
//! where they are made; storage and networking are left to the caller.

pub mod api;
pub mod chess;
pub mod db;
pub mod importer;
pub mod indexer;
pub mod model;
pub mod store;
pub mod stream;
