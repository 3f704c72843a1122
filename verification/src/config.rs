//! The store's configuration.
//!
//! Only one thing is configured: where the storage file lives.  Finding,
//! creating and reading the configuration file are the surrounding
//! program's business; the store only consumes the path.

use vstd::prelude::*;

verus! {

/// The configuration the store runs with.
#[derive(Debug)]
pub struct Config {
    /// Path of the storage file.
    pub file_path: String,
}

/// A configuration command: read the configuration, or change one of
/// its settings.
#[derive(Debug)]
pub enum ConfigCommand {
    Get,
    Put { command: SetConfigCommand },
}

/// A change to one configuration setting.
#[derive(Debug)]
pub enum SetConfigCommand {
    FilePath { value: String },
}

/// The configuration that a change leaves in force; writing it back to
/// the configuration file is the surrounding program's business.
pub fn apply_set_config(command: SetConfigCommand) -> (r: Config)
    ensures
        match command {
            SetConfigCommand::FilePath { value } => r.file_path@ == value@,
        },
{
    match command {
        SetConfigCommand::FilePath { value } => Config { file_path: value },
    }
}

} // verus!
