//! A verified core for a personal writing-habit and to-do application.
//!
//! The library owns the data model and the rules: a relational store of
//! writing plans, their scheduled days, recorded writing sessions and tasks
//! (`store`, `plan_store`, `writing_store`, `task_store`); a line-oriented
//! Markdown grammar that turns free text into a plan (`markdown`); calendar
//! arithmetic for scheduling days from a start date (`dates`); and the
//! streak and heatmap statistics over sparse date series (`writing_store`).
//! The numbering laws a plan's days obey are stated and proved in `laws`.
//!
//! Everything here is verified.  The two calendar conversions between
//! `YYYY-MM-DD` strings and day numbers are done by chrono behind trusted
//! wrappers in `dates`; persistence, clock reading and the user interface
//! live outside the library and hand in plain values such as today's date.

pub mod dates;
pub mod errors;
pub mod laws;
pub mod markdown;
pub mod models;
pub mod plan_store;
pub mod sort;
pub mod store;
pub mod task_store;
pub mod writing_store;
pub mod text;
