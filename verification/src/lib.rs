//! An append-only, integrity-chained log of operation records.
//!
//! Submissions accumulate in an open block; when the block reaches its
//! entry threshold it is sealed: its content hash is computed over a
//! canonical encoding of its fields, and the next block links back to it
//! through that hash. Queries page through the chain and certify its tip.

pub mod block;
pub mod bytes;
pub mod hash;
pub mod icrc3;
pub mod ledger;
pub mod natural;
pub mod order;
pub mod value;
