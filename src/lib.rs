//! Incremental synchronisation of an operational store into an analytical
//! store: change-log grouping, business-key resolution, idempotent upsert
//! plans, all-or-nothing status marking and a monotonic ingest watermark,
//! together with the integer side of association-rule mining and the
//! simulated market feed.

pub mod apply;
pub mod apriori;
pub mod changelog;
pub mod decimal;
pub mod market;
pub mod models;
pub mod query;
pub mod resolver;
pub mod status;
pub mod text;
pub mod timestamp;
