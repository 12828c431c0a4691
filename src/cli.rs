use vstd::prelude::*;

verus! {

/// A command of the note tool.
pub enum Command {
    /// Set up a new note collection.
    Init,
    /// Open a fleeting note: the named one, or today's.
    Fleet { name: Option<String> },
    /// Open or create the note with this name, which may hold a path.
    Note { name: String },
    /// List the notes, or the fleeting notes.
    List { fleet: bool },
    /// Rebuild the indexes.
    Index,
    /// Rebuild the link graph.
    Graph,
}

/// The tool's arguments: the base directory of the collection, an optional
/// configuration file, and the command.
pub struct CLI {
    pub basedir: String,
    pub cfg_file: Option<String>,
    pub command: Command,
}

} // verus!
