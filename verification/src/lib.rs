//! Routed TurboQuant: the integer core of an IVF-style vector index.
//!
//! Similarities are handed to this crate as order keys of their IEEE-754 bit
//! patterns (see `order_key`). The crate decides which partitions a vector
//! lives in, which partitions a query probes, which candidates survive
//! deduplication and ranking and what the search statistics report, how
//! k-means reassigns points, and how residual sign bits are packed. The
//! floating-point work (similarities, means, TurboQuant scores, corrections)
//! and the short glue that passes its results in, such as skipping empty
//! partitions or choosing between reranking and direct output, live with the
//! caller.
pub mod order_key;
pub mod rng;
pub mod ranking;
pub mod routing;
pub mod partition;
pub mod search;
pub mod clustering;
pub mod qjl_bits;
pub mod sizing;
