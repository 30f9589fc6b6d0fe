//! Write path of a full-text index: documents as bags of typed field values,
//! their binary encoding, the timestamped mutation log entries, and the
//! two-phase commit handle that makes a batch of mutations visible at once.
use vstd::prelude::*;

pub mod binary;
pub mod document;
pub mod operation;
pub mod prepared_commit;
pub mod schema;

verus! {

/// Logical sequence number of an accepted mutation.
pub type Opstamp = u64;

} // verus!
