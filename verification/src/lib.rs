//! A curation index for NFT marketplace activity: lifecycle events (mint,
//! list, offer, sale and their cancellations) stream in, and paginated,
//! sortable, filterable read access over the resulting per-token state
//! comes out.  The event processor keeps the primary record store, seven
//! sort indexes and the trait filter maps consistent under each applied
//! event, and the query engine reads them without ever mutating.

pub mod db;
pub mod indexes;
pub mod laws;
pub mod ledger;
pub mod model;
pub mod query;
pub mod store;
pub mod types;
