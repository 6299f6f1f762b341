//! How the tracer is started, and how a run ends.
//!
//! The tracer is a fixed executable. It is called with the flag that makes
//! it print, at the end of every line, the time the call took, followed by
//! the command to trace and that command's arguments, unchanged.

use vstd::prelude::*;

verus! {

/// The executable of the tracer.
pub const TRACER_PATH: &'static str = "/usr/bin/strace";

/// The exit status with which the child process ends when it could not
/// start the tracer.
pub const LAUNCH_FAILED_STATUS: i32 = 127;

/// Why a run ended without a report.
#[derive(Clone, Copy, Debug, PartialEq, Eq)]
pub enum RunError {
    /// The pipe or the child process could not be created.
    Resource,
    /// The tracer could not be found or executed.
    Launch,
}

/// The views of the strings of `v`.
pub open spec fn texts(v: Seq<String>) -> Seq<Seq<char>> {
    Seq::new(v.len(), |i: int| v[i]@)
}

/// The argument vector of the tracer for a command and its arguments.
pub open spec fn tracer_argv(command: Seq<char>, args: Seq<Seq<char>>) -> Seq<Seq<char>> {
    seq!["strace"@, "-T"@, command] + args
}

/// The exit code of the program for the way a run ended.
pub open spec fn exit_code_of(outcome: Result<(), RunError>) -> int {
    match outcome {
        Ok(_) => 0,
        Err(RunError::Resource) => 1,
        Err(RunError::Launch) => 2,
    }
}

/// How a run ended, from the exit status of the child, where it exited by
/// itself, and the number of bytes it wrote: a child that wrote nothing and
/// exited with [`LAUNCH_FAILED_STATUS`] did not start the tracer.
pub open spec fn outcome_of(status: Option<i32>, bytes_read: u64) -> Result<(), RunError> {
    if status == Some(LAUNCH_FAILED_STATUS) && bytes_read == 0 {
        Err(RunError::Launch)
    } else {
        Ok(())
    }
}

/// Builds the argument vector of the tracer: its name, the timing flag, the
/// command, and the command's arguments as they are. An empty command is
/// refused.
pub fn tracer_arguments(command: &str, args: &Vec<String>) -> (out: Option<Vec<String>>)
    ensures
        out is Some <==> command@.len() > 0,
        out matches Some(argv) ==> texts(argv@) == tracer_argv(command@, texts(args@)),
{
    if command.is_empty() {
        return None;
    }
    let mut argv: Vec<String> = Vec::new();
    argv.push("strace".to_owned());
    argv.push("-T".to_owned());
    argv.push(command.to_owned());
    let mut i: usize = 0;
    while i < args.len()
        invariant
            i <= args@.len(),
            argv@.len() == 3 + i,
            argv@[0]@ == "strace"@,
            argv@[1]@ == "-T"@,
            argv@[2]@ == command@,
            forall|j: int| 0 <= j < i ==> (#[trigger] argv@[3 + j])@ == args@[j]@,
        decreases args@.len() - i,
    {
        argv.push(args[i].clone());
        i += 1;
    }
    proof {
        let want = tracer_argv(command@, texts(args@));
        assert(want.len() == 3 + args@.len());
        assert forall|k: int| 0 <= k < want.len() implies texts(argv@)[k] == want[k] by {
            if k >= 3 {
                assert(argv@[3 + (k - 3)]@ == args@[k - 3]@);
                assert(want[k] == texts(args@)[k - 3]);
            }
        }
        assert(texts(argv@) =~= want);
    }
    Some(argv)
}

/// Tells how a run ended from what the supervisor saw of the child.
pub fn outcome(status: Option<i32>, bytes_read: u64) -> (out: Result<(), RunError>)
    ensures
        out == outcome_of(status, bytes_read),
{
    match status {
        Some(code) => {
            if code == LAUNCH_FAILED_STATUS && bytes_read == 0 {
                Err(RunError::Launch)
            } else {
                Ok(())
            }
        },
        None => Ok(()),
    }
}

/// The exit code of the program: 0 after a normal run, 1 where the pipe or
/// the process could not be made, 2 where the tracer could not be started.
pub fn exit_code(outcome: Result<(), RunError>) -> (code: i32)
    ensures
        code == exit_code_of(outcome),
{
    match outcome {
        Ok(_) => 0,
        Err(RunError::Resource) => 1,
        Err(RunError::Launch) => 2,
    }
}

} // verus!
