//! Logic core of a two-stage price-oracle task.
//!
//! The execution pipeline turns a compact multi-asset query string into a
//! list of request descriptors, derives one price per asset from the fetched
//! responses, and assembles a deterministic, consensus-ready JSON array.
//! The reduction pipeline combines independently produced result payloads
//! into one accepted output under a relaxed (first-parseable) policy.

pub mod bytes;
pub mod query;
pub mod request;
pub mod decimal;
pub mod assemble;
pub mod interpret;
pub mod reduce;
pub mod pipeline;
