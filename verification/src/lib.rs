//! A small retail inventory and sales tracker: a product catalog with
//! append-only purchase and sale ledgers, simple manager authentication,
//! and a verified text snapshot format for persistence.

pub mod clock;
pub mod codec;
pub mod filter;
pub mod hashing;
pub mod snapshot;
pub mod store;

use vstd::prelude::*;

verus! {

/// The error kinds a store operation can report.
#[derive(Debug, PartialEq, Eq, Structural, Clone, Copy)]
pub enum StoreError {
    /// The referenced product id does not exist.
    NotFound,
    /// A quantity was not positive.
    InvalidInput,
    /// A sale asked for more units than are on hand.
    InsufficientStock,
    /// A snapshot could not be read back.
    IoError,
}

} // verus!
