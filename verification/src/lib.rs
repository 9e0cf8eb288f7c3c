//! Verified core of a code-snippet knowledge base: backup formats (CSV and
//! the JSON import plan), the import procedure, timestamps, request checks and
//! database settings.
pub mod text;
pub mod model;
pub mod csv;
pub mod datetime;
pub mod import;
pub mod round_trip;
pub mod config;
pub mod commands;
