//! Operations that a caller adds to the interpreter.

use vstd::prelude::*;

use crate::table::NameTable;

verus! {

/// The arguments an added operation is run on: the stack, the variables,
/// the command, and the command before it.
pub type OperationArgs = (Vec<i64>, NameTable<i64>, Vec<char>, Option<Vec<char>>);

/// The stack and the variables an added operation leaves.
pub type OperationResult = (Vec<i64>, NameTable<i64>);

/// An operation that a caller adds to the interpreter's instructions.
pub trait CustomOperation: Sized {
    /// Whether the operation may be run on `args`.
    spec fn accepts(&self, args: OperationArgs) -> bool;

    /// Whether running the operation on `args` may give `r`.
    spec fn produces(&self, args: OperationArgs, r: OperationResult) -> bool;

    /// Runs the operation.
    fn run(&self, args: OperationArgs) -> (r: OperationResult)
        requires
            self.accepts(args),
        ensures
            self.produces(args, r),
    ;
}

/// Every function or closure from stack, variables, command and previous
/// command to a new stack and new variables is an operation: it may be run
/// where its precondition holds and gives what its postcondition allows.
impl<F: Fn(Vec<i64>, NameTable<i64>, Vec<char>, Option<Vec<char>>) -> (Vec<i64>, NameTable<i64>)> CustomOperation for F {
    open spec fn accepts(&self, args: OperationArgs) -> bool {
        call_requires(*self, args)
    }

    open spec fn produces(&self, args: OperationArgs, r: OperationResult) -> bool {
        call_ensures(*self, args, r)
    }

    fn run(&self, args: OperationArgs) -> (r: OperationResult) {
        (self)(args.0, args.1, args.2, args.3)
    }
}

/// The operation type of an interpreter to which no operation is added. As
/// an operation it leaves the stack and the variables as they are.
pub struct NoCustomOperation;

impl CustomOperation for NoCustomOperation {
    open spec fn accepts(&self, args: OperationArgs) -> bool {
        true
    }

    open spec fn produces(&self, args: OperationArgs, r: OperationResult) -> bool {
        r == (args.0, args.1)
    }

    fn run(&self, args: OperationArgs) -> (r: OperationResult) {
        (args.0, args.1)
    }
}

} // verus!
