//! An in-memory, time-driven store of scheduled local notifications.
//!
//! The store maps caller-assigned integer ids to notification records and is
//! the single source of truth for not-yet-delivered notifications. Producers
//! insert and cancel records through the command surface; a polling consumer
//! periodically drains the records that have become due. All timestamps are
//! milliseconds since the Unix epoch, UTC; a record scheduled exactly at the
//! current time counts as due.

pub mod clock;
pub mod commands;
pub mod laws;
pub mod model;
pub mod setup;
pub mod store;
