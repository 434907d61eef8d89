use vstd::prelude::*;

verus! {

/// The failure taxonomy of a pipeline run. Every error is fatal to the
/// enclosing `execute` call: the engine performs no operator-level retry
/// and suppresses no partial results.
#[derive(Clone, Copy, Debug, PartialEq, Eq, Structural)]
pub enum EngineError {
    /// The external record supply could not be opened, or a record failed
    /// to parse against the declared schema.
    Source,
    /// A record's shape does not match what an operator requires: a column
    /// index out of range, or a field of the wrong type.
    Schema,
    /// A join key could not be extracted from a record.
    JoinKey,
    /// An operator failed during the run, such as an arithmetic overflow
    /// in a transform expression.
    Execution,
}

} // verus!
