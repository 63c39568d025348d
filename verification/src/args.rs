use vstd::prelude::*;

verus! {

/// The command-line arguments: which subcommand to run, if any.
pub struct Args {
    pub command: Option<Command>,
}

/// The subcommands the tool offers.
#[derive(Clone, Copy, PartialEq, Eq, Structural)]
pub enum Command {
    /// Print the garbage-collection roots, plainly or with decoration.
    Print { plain: bool },
}

} // verus!
