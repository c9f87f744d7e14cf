//! The ways in which planning or evaluating a query fails.

use vstd::prelude::*;

use crate::symbol::SourceSpan;

verus! {

/// A failure of planning or of evaluation, with the place in the query text
/// that caused it.
#[derive(Clone, Copy, Debug, PartialEq, Eq, Structural)]
pub enum EvalError {
    /// An expression names a binding that its input does not produce.
    UnboundVariable(SourceSpan),
    /// An operator was applied to the wrong number or kind of values.
    TypeMismatch(SourceSpan),
    /// A compiled expression does not leave its value on the stack.
    MalformedBytecode,
    /// A predicate produced something other than a boolean.
    PredicateType(SourceSpan),
    /// A spread unification produced something other than a list.
    BadSpreadUnification(SourceSpan),
    /// A time-travel scan over a relation whose last key column is not a
    /// validity.
    InvalidTimeTravelScanning(SourceSpan),
}

} // verus!
