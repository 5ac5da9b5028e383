//! What a live recording session is set up with.

use crate::text::{copy_text, views};
use vstd::prelude::*;

verus! {

/// How a session is recorded.
#[derive(Debug, PartialEq)]
pub struct CaptureOptions {
    /// The command to run, with its arguments.
    pub command: Vec<String>,
    pub cols: u16,
    pub rows: u16,
    /// The gap from which on a wait is recorded, in milliseconds.
    pub wait_threshold_ms: u64,
    /// What waits are rounded to, in milliseconds; zero for no rounding.
    pub wait_round_ms: u64,
}

/// The command to run: the one given, or a shell where none is.
pub open spec fn command_to_run(given: Seq<Seq<char>>) -> Seq<Seq<char>> {
    if given.len() == 0 {
        seq!["bash"@]
    } else {
        given
    }
}

/// Picks the command to run.
pub fn command_or_shell(given: Vec<String>) -> (r: Vec<String>)
    ensures
        views(r@) == command_to_run(views(given@)),
        r@.len() > 0,
{
    if given.len() > 0 {
        return given;
    }
    let mut command: Vec<String> = Vec::new();
    command.push(copy_text("bash"));
    proof {
        assert(views(command@) =~= seq!["bash"@]);
    }
    command
}

/// A command that is given is run as it is, with all its arguments; where none is, a shell is.
pub proof fn law_command_is_run_as_given(given: Seq<Seq<char>>)
    ensures
        given.len() > 0 ==> command_to_run(given) == given,
        command_to_run(Seq::empty()) == seq!["bash"@],
{
}

} // verus!
