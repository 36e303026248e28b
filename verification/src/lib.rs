//! Partition a stream of alignment records into disjoint output buckets.
//!
//! Each bucket is backed by a set of record identifiers loaded from a text
//! source. A record is routed to the first bucket (in priority order) whose
//! set still contains the record's identifier; the identifier is removed from
//! that set on the match, so each identifier claims at most one record per
//! bucket. Identifiers left in a set after the stream ends are the bucket's
//! leftovers. Reading the binary container and writing the outputs are the
//! caller's business; this crate holds the verified routing core.

pub mod driver;
pub mod ident_set;
pub mod laws;
pub mod routing;

pub use ident_set::IdSet;
pub use routing::BucketRouter;
pub use routing::RouteOutcome;
