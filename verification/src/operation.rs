use vstd::prelude::*;

use crate::error::Error;
use crate::text::str_eq;

verus! {

/// The operations a unit understands.  `Check`, `Apply` and `Rollback` are
/// the top-level operations the engine accepts; `Deps` is invoked by the
/// resolver to discover dependency edges.
#[derive(Clone, Copy, Debug, PartialEq, Eq, Structural)]
pub enum Operation {
    Check,
    Apply,
    Rollback,
    Deps,
}

/// The operation named by a string, if any.
pub open spec fn spec_operation_of(s: Seq<char>) -> Option<Operation> {
    if s == "check"@ {
        Some(Operation::Check)
    } else if s == "apply"@ {
        Some(Operation::Apply)
    } else if s == "rollback"@ {
        Some(Operation::Rollback)
    } else if s == "deps"@ {
        Some(Operation::Deps)
    } else {
        None
    }
}

/// The canonical name of an operation, as handed to unit entry points.
pub open spec fn spec_operation_name(op: Operation) -> Seq<char> {
    match op {
        Operation::Check => "check"@,
        Operation::Apply => "apply"@,
        Operation::Rollback => "rollback"@,
        Operation::Deps => "deps"@,
    }
}

impl Operation {
    pub fn from_str(operation_name: &str) -> (r: Result<Operation, Error>)
        ensures
            match r {
                Ok(op) => spec_operation_of(operation_name@) == Some(op),
                Err(e) => {
                    &&& spec_operation_of(operation_name@) is None
                    &&& e.msg@ == "Unknown operation "@ + operation_name@
                },
            },
    {
        if str_eq(operation_name, "check") {
            Ok(Operation::Check)
        } else if str_eq(operation_name, "apply") {
            Ok(Operation::Apply)
        } else if str_eq(operation_name, "rollback") {
            Ok(Operation::Rollback)
        } else if str_eq(operation_name, "deps") {
            Ok(Operation::Deps)
        } else {
            let mut err_string = String::from_str("Unknown operation ");
            err_string.append(operation_name);
            Err(Error::new(err_string))
        }
    }

    pub fn to_str(&self) -> (r: &'static str)
        ensures
            r@ == spec_operation_name(*self),
    {
        match self {
            Operation::Check => "check",
            Operation::Apply => "apply",
            Operation::Rollback => "rollback",
            Operation::Deps => "deps",
        }
    }
}

/// Each operation's name maps back to that operation: `from_str` and
/// `to_str` are mutually inverse on the four recognized operations.
pub proof fn lemma_operation_name_roundtrip(op: Operation)
    ensures
        spec_operation_of(spec_operation_name(op)) == Some(op),
{
    reveal_strlit("check");
    reveal_strlit("apply");
    reveal_strlit("rollback");
    reveal_strlit("deps");
    assert("apply"@[0] != "check"@[0]);
    assert("rollback"@[0] != "check"@[0]);
    assert("rollback"@[0] != "apply"@[0]);
    assert("deps"@[0] != "check"@[0]);
    assert("deps"@[0] != "apply"@[0]);
    assert("deps"@[0] != "rollback"@[0]);
}

} // verus!
