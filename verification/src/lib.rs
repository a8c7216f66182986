//! A verified mirror of one instrument's limit-order-book depth.
//!
//! The book is built once from a full snapshot and then kept current by
//! applying incremental diff messages in arrival order; after every
//! update a CRC-32 over a canonical encoding of the top ten levels per
//! side can be held against the value the upstream source supplies, to
//! detect desynchronization.
//!
//! Prices and volumes travel as decimal strings and are held as
//! fixed-point integers, so that level matching, ordering and the
//! checksum encoding are exact.

pub mod crc;
pub mod fixed;
pub mod message;
pub mod order_book;

use vstd::prelude::*;

verus! {

/// Number of decimal places carried by a fixed-point price.
pub const PRICE_DECIMALS: u64 = 5;

/// Number of decimal places carried by a fixed-point volume.
pub const VOLUME_DECIMALS: u64 = 8;

} // verus!
