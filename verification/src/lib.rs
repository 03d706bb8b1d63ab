//! Core of an auction-house price tracker: a sliding-window rate throttle,
//! the retry and staleness rules of the upstream API client, a byte-level
//! sanitizer for malformed listing payloads, connected-realm grouping,
//! a percentile-based valuation engine, and the price cache that a refresh
//! cycle publishes into.

pub mod api;
pub mod cache;
pub mod order;
pub mod sanitize;
pub mod scheduler;
pub mod throttle;
pub mod topology;
pub mod valuation;
