//! The stored data types and their binary encodings.

pub mod assoc;
pub mod basic;
pub mod endian;
pub mod game_id;
pub mod game_info;
pub mod key;
pub mod keyset;
pub mod list;
pub mod master;
pub mod personal;
pub mod range;
pub mod reader;
pub mod stats;
pub mod top;
pub mod uci;
pub mod uint;
pub mod user;
pub mod year;
