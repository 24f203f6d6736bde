//! Configuration data for the note store: where on disk the notes live.
//! Loading, saving and the first-run prompt are I/O and live in the
//! surrounding binary; this module only holds the resolved values.

use vstd::prelude::*;

verus! {

/// The resolved configuration: the directory that holds the note files.
pub struct Config {
    pub notes_dir: String,
}

/// Failures of the configuration round trip, carried as plain messages.
#[derive(Debug)]
pub enum ConfigError {
    Io(String),
    Parse(String),
    Serialize(String),
}

impl Config {
    /// Builds a configuration around an already resolved directory path.
    pub fn new(notes_dir: String) -> (c: Self)
        ensures
            c.notes_dir@ == notes_dir@,
    {
        Config { notes_dir }
    }
}

} // verus!
