//! The bodies of the requests that a shell sends to the server.
use vstd::prelude::*;

verus! {

/// A command line typed in the shell with process id `pid`, to be checked.
#[derive(Debug, PartialEq, Eq)]
pub struct PostCommand {
    pub pid: usize,
    pub command: String,
}

/// The alias declarations (lines of `alias -L` output) of the shell with
/// process id `pid`.
#[derive(Debug, PartialEq, Eq)]
pub struct PostDeclarations {
    pub pid: usize,
    pub declarations: Vec<String>,
}

} // verus!
