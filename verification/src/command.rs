//! Running a cleanup command in a directory.

use vstd::prelude::*;
use vstd::string::StringExecFns;
use crate::models::{Failure, FileInfo};
use crate::text::{split_words, texts, words};

verus! {

/// Something that can run a command line in a working directory, and waits
/// until it has ended.
pub trait CommandExecutor {
    fn execute_command(&self, work_dir: &FileInfo, command: &str) -> Result<(), Failure>;
}

/// A [`CommandExecutor`] that runs nothing and always reports success.
pub struct MockCommandExecutor;

impl CommandExecutor for MockCommandExecutor {
    fn execute_command(&self, _work_dir: &FileInfo, _command: &str) -> (result: Result<
        (),
        Failure,
    >)
        ensures
            result is Ok,
    {
        Ok(())
    }
}

/// A command line taken apart: the program to run, and its arguments.
#[derive(Debug)]
pub struct CommandLine {
    pub program: String,
    pub arguments: Vec<String>,
}

/// Takes a command line apart: the first word is the program, the others
/// are its arguments. A command line without a word names no program.
pub fn parse_command(command: &str) -> (parsed: Option<CommandLine>)
    ensures
        match parsed {
            Some(line) => words(command@).len() > 0 && line.program@ == words(command@)[0]
                && texts(line.arguments@) == words(command@).skip(1),
            None => words(command@).len() == 0,
        },
{
    let mut found = split_words(command);
    let ghost all = texts(found@);
    if found.len() == 0 {
        None
    } else {
        let program = found.remove(0);
        proof {
            assert(texts(found@) =~= all.skip(1));
        }
        Some(CommandLine { program, arguments: found })
    }
}

/// What is made of a command that ran and ended with a status other than 0.
#[derive(Debug, Clone, Copy, PartialEq, Eq, Structural)]
pub enum ExitPolicy {
    /// It counts as done all the same.
    Tolerate,
    /// It counts as failed.
    Reject,
}

/// Whether a command that ran and ended counts as done: one that ended with
/// status 0 always does, any other only where the policy tolerates it. A
/// command that was ended from outside has no status.
pub open spec fn counts_as_done(policy: ExitPolicy, status: Option<i32>) -> bool {
    policy == ExitPolicy::Tolerate || status == Some(0i32)
}

/// What is reported of a command that ran and ended with `status`.
pub fn judge_exit(policy: ExitPolicy, status: Option<i32>) -> (result: Result<(), Failure>)
    ensures
        result is Ok <==> counts_as_done(policy, status),
        result matches Err(failure) ==> failure@ == "Command ended with a failure status"@,
{
    let done = match policy {
        ExitPolicy::Tolerate => true,
        ExitPolicy::Reject => match status {
            Some(code) => code == 0,
            None => false,
        },
    };
    if done {
        Ok(())
    } else {
        Err(Failure::new(String::from_str("Command ended with a failure status")))
    }
}

} // verus!
