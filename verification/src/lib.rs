//! Streaming aggregation and ranking engine for on-chain event records.
//!
//! The library consumes ordered batches of event records, folds them into a
//! two-level frequency table (per emitting address, then per fully-qualified
//! event type) and a flat per-package counter, and, once the stream is
//! exhausted, turns the frozen aggregate into a deterministically sorted,
//! suppression-filtered ranking together with exact summary statistics.

pub mod keys;
pub mod aggregate;
pub mod order;
pub mod rank;
pub mod report;
pub mod stats;

pub use aggregate::{Aggregator, AddressBucket, BatchItem, EventRecord, KeyCount, PackageCount};
pub use keys::{EventKey, StructKey, key_eq, key_dup, tag_to_short_string, type_to_short_string};
pub use rank::{RankedEntry, finalize, rank_inner, suppression_cutoff};
pub use report::render_address_hex;
pub use stats::{StatsError, SummaryStats, summarize, variance_parts};
