//! Account meta-database: a journalled store answering what an account looked
//! like at any block still held in an in-memory fork journal.

pub mod types;
pub mod codec;
pub mod journal;
pub mod batch;
pub mod meta_db;

pub use types::{AccountMeta, Address, Error, H256, U256};
pub use journal::{Journal, JournalEntry, Lookup};
pub use batch::{DBOp, DBTransaction};
pub use meta_db::{decode_canonical, put_pending, query, MetaDB, Overlay};


