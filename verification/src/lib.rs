//! A small note-taking library: an in-memory image of a notes directory,
//! with create / list / show / update / delete / search over line-oriented
//! note records. All store logic is verified; reading and writing the real
//! directory is left to the surrounding binary.

pub mod config;
pub mod laws;
pub mod note;
pub mod text;

use vstd::prelude::*;

verus! {

/// A parsed command invocation, as data. The surrounding binary owns the
/// actual argument parsing and converts into this type.
pub struct Cli {
    pub command: Commands,
}

/// The operations a single invocation can ask for.
pub enum Commands {
    New { title: String, content: Option<String> },
    List,
    Show { identifier: String },
    Delete { identifier: String },
    Search { keyword: String },
    Update { identifier: String, content: Option<String> },
    ClearConfig,
}

} // verus!
