//! A tamper-evident, append-only transaction ledger.
//!
//! Each record commits to the SHA-256 hash of its predecessor's hash string,
//! producing a verifiable chain: the record model, the line codec, the chain
//! verification rule, an ordered in-memory index, the tail-scan recovery logic
//! of the durable file log, and the write-serialization queue.

use vstd::prelude::*;

pub mod codec;
pub mod text;
pub mod transaction;
pub mod transaction_log;
pub mod transaction_queue;

verus! {

/// The health-check reply the node's front end serves.
pub fn ping() -> (r: &'static str)
    ensures
        r@ == "0"@,
{
    "0"
}

} // verus!
