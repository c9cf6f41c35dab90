//! The outcome record of running one operation against one instance, and
//! the uniform contract every execution target implements.

pub mod adapter;
pub mod remote;
pub mod target;

use vstd::prelude::*;

use crate::error::Error;
use crate::operation::Operation;
use crate::unit::{Definition, Instance};

verus! {

/// The immutable outcome of running one operation against one instance.
#[derive(Debug)]
pub struct Execution {
    pub unit_name: String,
    pub exit_code: i32,
    pub stdout: String,
    pub stderr: String,
}

impl Execution {
    /// An execution succeeded exactly when the process exited with code 0.
    pub fn success(&self) -> (r: bool)
        ensures
            r <==> self.exit_code == 0,
    {
        self.exit_code == 0
    }
}

pub type ExecutionResult = Result<Execution, Error>;

/// A pluggable execution target: local child processes, a remote session,
/// or a delegate program.  `execute` runs the operation to completion and
/// reports its full outcome; a non-zero exit is a normal `Execution`, an
/// `Err` means the operation could not be run at all (spawn or transport
/// trouble).  What an execution returns is discovered at run time, so the
/// contract promises nothing about the outcome: the callers state what they
/// do with every possible outcome.
pub trait Executor {
    /// One-time setup, called once before the first execution.
    fn init(&mut self) -> Result<(), Error>;

    /// Runs `operation` against the instance whose definition is given.
    fn execute(
        &mut self,
        unit: &Instance,
        definition: &Definition,
        operation: Operation,
    ) -> ExecutionResult;
}

} // verus!
