//! Generation of DJB-compatible CDB blocklists: the verified core.
//!
//! The library parses blocklist text in several formats, normalises the
//! domains it finds, combines them per output, decides what a fetch of a
//! source yields, and validates the configuration. Everything that touches
//! the network, the file system or the clock lives outside this crate.

pub mod cache;
pub mod cdb_writer;
pub mod cli;
pub mod config;
pub mod error;
pub mod fetcher;
pub mod normalize;
pub mod outputs;
pub mod parser;
pub mod strset;
pub mod text;

pub use error::{
    final_exit_code, EXIT_CONFIG, EXIT_FETCH, EXIT_GENERIC, EXIT_OUTPUT, EXIT_SUCCESS,
};
