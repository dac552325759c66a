//! The commands of the session loop.

use crate::text::{trim, trimmed};
use vstd::prelude::*;
use vstd::string::*;

verus! {

/// What one line of input asks for.
#[derive(Clone, Copy, Debug, PartialEq, Eq, Structural)]
pub enum Command {
    /// Run one work interval and its break.
    Start,
    /// Leave the loop.
    Quit,
    /// Anything else.
    Invalid,
}

/// The command that a line stands for: the line is trimmed and then compared,
/// letter for letter, with `start` and `quit`.
pub open spec fn command_of(line: Seq<char>) -> Command {
    let word = trimmed(line);
    if word == "start"@ {
        Command::Start
    } else if word == "quit"@ {
        Command::Quit
    } else {
        Command::Invalid
    }
}

/// Every line stands for exactly one command: `start` where the trimmed line
/// is that word, `quit` where it is that word, and `invalid` in every other
/// case.
pub proof fn lemma_dispatch_is_total(line: Seq<char>)
    ensures
        command_of(line) == Command::Start <==> trimmed(line) == "start"@,
        command_of(line) == Command::Quit <==> trimmed(line) == "quit"@,
        command_of(line) == Command::Invalid <==> trimmed(line) != "start"@ && trimmed(line)
            != "quit"@,
{
    reveal_strlit("start");
    reveal_strlit("quit");
    assert("start"@.len() != "quit"@.len());
}

impl Command {
    /// Reads the command that `line` stands for.
    pub fn parse(line: &str) -> (command: Command)
        ensures
            command == command_of(line@),
    {
        let word = trim(line);
        if word == String::from_str("start") {
            Command::Start
        } else if word == String::from_str("quit") {
            Command::Quit
        } else {
            Command::Invalid
        }
    }
}

} // verus!
