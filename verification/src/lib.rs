//! Turns the interleaved, thread-tagged output of a parallel build tool into
//! the entries of a `compile_commands.json` database.
//!
//! The library reconstructs compiler invocations from a build log
//! ([`parser::get_raw_commands`]), extracts one database entry per compiled
//! source file ([`extract::CompileCommandsEntry::from_raw_command`]), and
//! merges new entries into a previously persisted set, keyed by absolute file
//! path ([`merge::merge_new_compile_commands`]). Reading the log and storing
//! the database are left to the caller.

pub mod extract;
pub mod merge;
pub mod parser;
pub mod raw;
pub mod text;

pub use extract::{CompileCommandsEntry, ResolveError};
pub use merge::merge_new_compile_commands;
pub use parser::{get_raw_commands, ParseError};
pub use raw::RawCommand;
