//! A bounded, persistent log of captured HTTP requests.
//!
//! Records are assigned strictly increasing identifiers, encoded to a byte
//! payload, and kept in an on-disk ordered table.  The table holds at most a
//! configured number of records: each insert prunes at most one of the oldest
//! entries once the table is over capacity.  Reads return the most recently
//! assigned records first.

pub mod codec;
pub mod laws;
pub mod models;
pub mod server;
pub mod storage;
pub mod table;

pub use models::LatestResponse;
pub use models::StoredRequest;
pub use storage::Storage;
pub use storage::StoreError;
