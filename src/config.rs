use vstd::prelude::*;

verus! {

/// Settings of a note collection.
pub struct Config {
    pub name: String,
    pub author: String,
    pub editor_cmd: String,
    pub editor_args: Vec<String>,
    pub indexes: bool,
    pub graph: bool,
}

impl Config {
    /// The settings written into a freshly initialised collection.
    pub fn default() -> (r: Config)
        ensures
            r.name@ == "My Zettelkasten"@,
            r.author@ == "Me"@,
            r.editor_cmd@ == "vim"@,
            r.editor_args@.len() == 0,
            r.indexes,
            r.graph,
    {
        Config {
            name: "My Zettelkasten".to_owned(),
            author: "Me".to_owned(),
            editor_cmd: "vim".to_owned(),
            editor_args: Vec::new(),
            indexes: true,
            graph: true,
        }
    }
}

} // verus!
