//! Synchronisation of the live status of tracked broadcast rooms.
//!
//! The library selects the rooms that are due for a recheck, splits them into
//! bounded batches for the remote status query, reconciles each returned status
//! against the stored one, and reports the rooms whose stored status changed.
pub mod batcher;
pub mod config;
pub mod db;
pub mod models;
pub mod pass;
pub mod response_type;
pub mod task;
