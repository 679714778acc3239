//! A verified core for a sports-event scraping pipeline: date normalization,
//! event-card field extraction, an idempotent event store, and the bounded
//! link-enrichment scheduler.

pub mod dates;
pub mod dom;
pub mod enrich;
pub mod ingest;
pub mod models;
pub mod sports;
pub mod store;
pub mod text;

