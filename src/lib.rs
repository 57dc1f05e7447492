//! A task list kept in a flat text file: one dated, tagged entry per line.
//!
//! The library parses and writes the line format, keeps the collection sorted
//! by date, filters it by date range and tags, maps the numbers shown to the
//! user back to stored positions, and lays entries out for display.

pub mod codec;
pub mod config;
pub mod date;
pub mod entry;
pub mod filter;
pub mod notify;
pub mod present;
pub mod split;
pub mod store;
pub mod text;
pub mod visibility;
