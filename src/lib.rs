//! A set-like container for IP prefixes (not IP addresses), held in a binary
//! radix tree whose nodes carry a map of prefix lengths, so that a dense run
//! of sub-prefixes is stored as one range.
//!
//! The tree provides:
//!
//! - insertion and removal of whole prefix ranges in one traversal,
//! - iteration over either prefixes or ranges of prefixes,
//! - aggregation into a canonical form after each operation, and
//! - union, intersection, difference, symmetric difference and complement.
pub mod bits;
pub mod canonical;
pub mod dataset;
pub mod error;
pub mod family;
pub mod gluemap;
pub mod laws;
pub mod node;
pub mod prefix;
pub mod range;
pub mod set;

pub use crate::error::Error;
pub use crate::family::{IpPrefix, Ipv4Prefix, Ipv6Prefix};
pub use crate::range::IpPrefixRange;
pub use crate::set::{PrefixSet, SetItem};
