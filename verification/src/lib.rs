//! Verified core of a market-data pipeline: merging per-second
//! funding-rate records from ranked sources, densifying each UTC day,
//! inferring and fixing columnar schemas, and the decision logic of the
//! folder-sync and transfer-proxy services around an object store.
//!
//! Disk, network and object-store calls live in the surrounding program;
//! the records, the merge and fill rules, the schemas, the rendered
//! columns and every sync and upload decision are specified and verified
//! here, with the few outside calls the logic leans on (JSON parsing,
//! the codecs, the digests, the embedded catalog) held behind trusted
//! contracts.

use vstd::prelude::*;

pub mod bucket;
pub mod catalog;
pub mod columnar;
pub mod compress;
pub mod config;
pub mod data_merger;
pub mod date;
pub mod hashing;
pub mod json;
pub mod laws;
pub mod mark_price_merger;
pub mod numtext;
pub mod proxy;
pub mod record;
pub mod schema;
pub mod strkit;
pub mod sync;

verus! {

/// Sum of two counters; callers must show the sum fits in a `u64`.
pub fn add(left: u64, right: u64) -> (r: u64)
    requires
        left + right <= u64::MAX,
    ensures
        r == left + right,
{
    left + right
}

} // verus!
