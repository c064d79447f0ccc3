//! Byte-prefix membership filtering.
//!
//! Given a subject byte string and a set of candidate byte strings, the
//! library returns exactly those candidates that are prefixes of the
//! subject. Two interchangeable algorithms share one contract: a linear
//! scan over the candidates, correct for unsorted input and preserving
//! candidate order, and a sorted-probe variant that grows a probe over
//! the subject's bytes and binary-searches a lexicographically sorted
//! candidate set at each probe length, emitting matches in ascending
//! length order.

pub mod filter;
pub mod laws;
pub mod order;
