//! An append-only, content-linked ledger for authenticated, timestamped
//! records, together with the hash and signing primitives used to link
//! and sign them and the block model that batches them.

pub mod block;
pub mod bytes;
pub mod clock;
pub mod codec;
pub mod crypto;
pub mod storage;
