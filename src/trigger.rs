//! The command trigger's outcomes and the command line check made before
//! anything is watched.

use vstd::prelude::*;

verus! {

/// How one run of the configured command ended.
#[derive(PartialEq, Eq, Structural, Clone, Copy, Debug)]
pub enum Outcome {
    /// The executable could not be found or spawned.
    NotFound,
    /// The command ran; its exit code, if it exited on its own.
    Completed(Option<i32>),
}

/// Errors that end the whole run.
#[derive(PartialEq, Eq, Structural, Clone, Copy, Debug)]
pub enum Fatal {
    /// No command was configured.
    NoCommand,
    /// The command's executable could not be found.
    CommandNotFound,
}

impl Outcome {
    /// Only a missing executable ends the run; exit codes never do.
    pub fn is_fatal(&self) -> (r: bool)
        ensures
            r == (*self == Outcome::NotFound),
    {
        match self {
            Outcome::NotFound => true,
            Outcome::Completed(_) => false,
        }
    }

    /// The command ran and exited with code 0.
    pub fn succeeded(&self) -> (r: bool)
        ensures
            r == (*self == Outcome::Completed(Some(0))),
    {
        match self {
            Outcome::Completed(Some(code)) => *code == 0,
            _ => false,
        }
    }

    /// The error that ends the run after this outcome, if any.
    pub fn fatal_error(&self) -> (r: Option<Fatal>)
        ensures
            r == (if *self == Outcome::NotFound {
                Some(Fatal::CommandNotFound)
            } else {
                None::<Fatal>
            }),
    {
        match self {
            Outcome::NotFound => Some(Fatal::CommandNotFound),
            Outcome::Completed(_) => None,
        }
    }
}

/// An empty command line is refused before anything is watched.
pub fn check_command(argv: &Vec<String>) -> (r: Result<(), Fatal>)
    ensures
        r == (if argv@.len() == 0 {
            Err::<(), Fatal>(Fatal::NoCommand)
        } else {
            Ok(())
        }),
{
    if argv.len() == 0 {
        Err(Fatal::NoCommand)
    } else {
        Ok(())
    }
}

} // verus!
