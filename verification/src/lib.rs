//! Region merge bookkeeping for a sharded, replicated key-value store,
//! together with the MySQL `ENUM` value type of the query layer.

pub mod apply;
pub mod buffer_vec;
pub mod catch_up;
pub mod collector;
pub mod command;
pub mod enums;
pub mod keys;
pub mod laws;
pub mod proposal;
pub mod recovery;
pub mod region;
pub mod replica;
pub mod snapshot;
pub mod state;
pub mod state_key;
pub mod store;
