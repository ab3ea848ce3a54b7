//! Schema-driven editing of tool configuration files: a lossless parser for
//! `key = value` configs, an in-memory edit state, and a writer that keeps
//! every line it does not edit.

pub mod text;
pub mod order;
pub mod string_map;
pub mod parsers;
pub mod config_file;
pub mod schema;
pub mod state;
pub mod round_trip;
