//! A library for decoding and rendering point-forecast weather reports.
//!
//! The pipeline: normalize coordinates, build the request line, decode a
//! fetched JSON document into a typed forecast model, extract named
//! measurements from each forecast event, map numeric weather codes to
//! condition descriptions, and format a short human-readable summary.
//! Network and file access live outside the library; every function here is
//! pure computation over plain values.

pub mod cli;
pub mod client;
pub mod codec;
pub mod dec;
pub mod errors;
pub mod json;
pub mod model;
pub mod render;
pub mod resolve;
pub mod secrets;
pub mod text;
pub mod time;
pub mod weather;
