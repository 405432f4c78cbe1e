//! The ways in which reading a database or checking a proof can fail.
use vstd::prelude::*;

verus! {

/// Why reading a database or checking a proof stopped. Each variant stands
/// for an input that a Metamath checker rejects. The `try_` functions answer
/// such an input with the error; the functions of the same name without
/// `try_` require inputs on which no error arises.
#[derive(Debug, Clone, Copy, PartialEq, Eq, Structural)]
pub enum MmError {
    /// A token was requested after the end of the input had been reported.
    ReadPastEnd,
    /// `$[` was not followed by a file name.
    IncludeNameMissing,
    /// `$[ name` was not followed by another token.
    IncludeEndMissing,
    /// `$[ name` was followed by a token other than `$]`.
    IncludeEndBracket,
    /// The file named by a `$[ name $]` inclusion could not be read.
    Include,
    /// The input ended inside a statement (before its `$.`).
    StatementEof,
    /// `$c` of a token that is already a constant of the innermost scope.
    ConstRedeclared,
    /// `$c` of a token that is a variable of the innermost scope.
    ConstIsVariable,
    /// `$v` of a token that is a constant of the innermost scope.
    VariableIsConst,
    /// `$v` of a token that is already a variable of the innermost scope.
    VariableRedeclared,
    /// `$f` whose variable is not an active variable.
    FloatVarUndeclared,
    /// `$f` whose type code is not an active constant.
    FloatTypeUndeclared,
    /// `$f` for a variable that already has one in the innermost scope.
    FloatRedeclared,
    /// A `$f`, `$a`, `$e` or `$p` statement without a label.
    LabelMissing,
    /// A `$f` statement whose length is not two.
    FloatLength,
    /// A `$p` statement without `$=`.
    ProofMissing,
    /// A proof step, or a statement referred to, is not known.
    UnknownLabel,
    /// An empty statement or an empty proof was given to the checker.
    EmptyStatement,
    /// A proof step needs more entries than the stack holds.
    StackUnderflow,
    /// A stack entry does not start with the type of a floating hypothesis.
    FloatMismatch,
    /// A variable of a disjoint-variable condition has no substitution.
    SubstitutionMissing,
    /// A disjoint-variable condition is violated.
    DisjointViolation,
    /// A stack entry does not match an essential hypothesis.
    HypothesisMismatch,
    /// The proof does not leave exactly one entry on the stack.
    StackSize,
    /// The proof proves another statement.
    WrongConclusion,
    /// A mandatory hypothesis of the theorem has no label in scope.
    HypothesisLabel,
    /// A compressed proof has no closing `)`.
    CompressedNoParen,
    /// A number of a compressed proof does not fit in 32 bits.
    CompressedOverflow,
    /// `Z` in a compressed proof before any step.
    CompressedNoStep,
    /// A compressed proof refers to a subproof that was not saved.
    CompressedBadReference,
}

} // verus!
