//! Incremental ingestion of public market data: the decisions of a
//! rate-limited paginating API client, of per-region tasks with a re-entrancy
//! guard, and of the history and order pipelines that store only what is new,
//! with the persisted tables' write semantics.
use vstd::prelude::*;

pub mod cache;
pub mod chunks;
pub mod clock;
pub mod config;
pub mod esi;
pub mod history;
pub mod history_table;
pub mod models;
pub mod orders;
pub mod scheduler;
pub mod task;
pub mod update;

verus! {

} // verus!
