//! A log-structured key-value store engine.

pub mod command;
pub mod engine;
pub mod error;
pub mod index;
pub mod log;
pub mod segment;

pub use crate::command::{Command, CommandPointer};
pub use crate::error::{KvsError, Result};
pub use crate::index::Index;
pub use crate::log::replay;
pub use crate::engine::{choose_active, expect_value, Compaction, Engine, SIZE_THRESHOLD};
pub use crate::segment::{get_generation_list, logfile_path, parse_generation};
