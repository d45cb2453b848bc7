//! `ruststruct` plans a standard Rust project layout.
//!
//! - [`cli`]: the command-line grammar, and the mapping to scaffold options
//! - [`config`]: the optional user config layered onto the defaults
//! - [`scaffold`]: planning a layout, rendering a dry run, judging commands
//! - [`error`]: one typed error per failure mode
//! - [`file_map`], [`dir_set`], [`path`], [`text`]: the ordered collections,
//!   path semantics and text operations the planner is built on
pub mod cli;
pub mod config;
pub mod dir_set;
pub mod error;
pub mod file_map;
pub mod path;
pub mod scaffold;
pub mod text;

pub use cli::Cli;
pub use config::UserConfig;
pub use error::{Error, Result};
pub use file_map::FileMap;
pub use scaffold::{DEFAULT_DIRS, ScaffoldOptions};
