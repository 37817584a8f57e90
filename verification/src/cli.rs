//! The command surface, as plain data.
//!
//! The binary owns flag parsing; once parsed, an invocation is one of these
//! values, and which action it asks for is decided here.

use vstd::prelude::*;

verus! {

/// The `add` action: point a new or existing portal at `destination`,
/// under one or more names.
#[derive(Debug, Clone, PartialEq, Eq)]
pub struct CommandAdd {
    pub destination: String,
    pub names: Vec<String>,
}

/// The `goto` action: resolve a portal name back to its directory.
#[derive(Debug, Clone, PartialEq, Eq)]
pub struct CommandGoto {
    pub name: String,
}

/// The `remove` action: delete the whole portal entry carrying a name.
#[derive(Debug, Clone, PartialEq, Eq)]
pub struct CommandRemove {
    pub name: String,
}

/// One action of the tool.
#[derive(Debug, Clone, PartialEq, Eq)]
pub enum Commands {
    /// Create a new portal.
    Add(CommandAdd),
    /// Use one of your portals.
    Goto(CommandGoto),
    /// Tear one of your portals down.
    Remove(CommandRemove),
}

/// A parsed invocation: an explicit subcommand, or a bare name that stands
/// for `goto`.
#[derive(Debug, Clone, PartialEq, Eq)]
pub struct Args {
    pub subcommand: Option<Commands>,
    pub goto: Option<CommandGoto>,
}

impl Args {
    /// The action this invocation asks for: an explicit subcommand wins,
    /// a bare name falls back to `goto`, and nothing at all asks for
    /// nothing.
    pub fn command(self) -> (r: Option<Commands>)
        ensures
            self.subcommand is Some ==> r == self.subcommand,
            (self.subcommand is None && self.goto is Some) ==> r == Some(
                Commands::Goto(self.goto->Some_0),
            ),
            (self.subcommand is None && self.goto is None) ==> r is None,
    {
        match self.subcommand {
            Some(c) => Some(c),
            None => match self.goto {
                Some(g) => Some(Commands::Goto(g)),
                None => None,
            },
        }
    }
}

} // verus!
