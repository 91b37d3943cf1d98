//! The command surface of the note application, as plain data.  The
//! application around the library parses its arguments into these
//! values.

use vstd::prelude::*;

verus! {

/// The parsed command line: the notes database to open, and what to
/// do with it.
#[derive(Debug)]
pub struct Cli {
    /// Path to the notes database.
    pub database: String,
    /// The subcommand, if one was given.
    pub command: Option<Commands>,
}

/// The subcommands of the note application.
#[derive(Debug)]
pub enum Commands {
    /// List all notes.
    List,
    /// Add a new note.
    Add { title: String, content: String },
    /// Search notes and print the matches.
    Search { query: String },
}

} // verus!
