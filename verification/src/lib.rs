//! RFC7231-style HTTP content negotiation.
//!
//! Given the value of a client's `Accept` header and an ordered list of media
//! types a server can produce, this crate selects the best media type to
//! respond with. The work is split in two stages: ranking the header's
//! entries by quality and specificity, and matching the ranked entries
//! against the declared variants with a three-tier wildcard policy.

pub mod bytes;
pub mod candidate;
pub mod errors;
pub mod header;
pub mod matcher;
pub mod qvalue;
pub mod rank;

use vstd::prelude::*;

verus! {

/// Anchor under which the crate's usage examples from the documentation
/// are compiled.
pub struct ReadmeDoctests;

} // verus!
