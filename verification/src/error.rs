//! Diagnostics and error values.
//!
//! Lexical and syntactic problems are collected as `Diag` records rather than
//! raised: the scanner and parser keep going and hand back everything they
//! found, and a non-empty diagnostic list gates whether interpretation is
//! attempted at all. Runtime problems are `RuntimeError` values that halt the
//! run the moment they occur.

use vstd::prelude::*;

verus! {

/// What a lexical or syntactic diagnostic reports.
#[derive(Clone, Copy, Debug, PartialEq, Eq, Structural)]
pub enum DiagKind {
    // Lexical diagnostics.
    UnexpectedCharacter,
    MalformedNumber,
    LoneColon,
    // Syntactic diagnostics: a required token was missing.
    ExpectedConstName,
    ExpectedEquAfterConstName,
    ExpectedConstValue,
    ExpectedSemicolonAfterConstDecl,
    ExpectedVarName,
    ExpectedVarNameAfterComma,
    ExpectedSemicolonAfterVarDecl,
    ExpectedProcedureName,
    ExpectedSemicolonAfterProcedureName,
    ExpectedSemicolonAfterProcedureBlock,
    ExpectedPrintVarName,
    ExpectedCallName,
    ExpectedEndToken,
    ExpectedThenToken,
    ExpectedDoToken,
    ExpectedComparisonOperator,
    ExpectedRightParen,
    ExpectedExpression,
    ExpectedProgramDot,
    // A syntactic diagnostic that does not discard the enclosing block.
    InvalidAssignmentTarget,
}

/// One collected diagnostic: where it was found and what was found.
///
/// `lexeme` is the source text of the offending token (empty for lexical
/// diagnostics, which carry only a line); `at_end` says the parser ran out
/// of input, so there is no offending token to show.
#[derive(Clone, Debug)]
pub struct Diag {
    pub line: usize,
    pub at_end: bool,
    pub lexeme: Vec<u8>,
    pub kind: DiagKind,
}

/// The mathematical value of a `Diag`.
pub struct DiagModel {
    pub line: usize,
    pub at_end: bool,
    pub lexeme: Seq<u8>,
    pub kind: DiagKind,
}

impl View for Diag {
    type V = DiagModel;

    open spec fn view(&self) -> DiagModel {
        DiagModel { line: self.line, at_end: self.at_end, lexeme: self.lexeme@, kind: self.kind }
    }
}

/// The internal signal that a production failed and the parser must
/// resynchronize; the diagnostic itself has already been recorded.
#[derive(Clone, Copy, Debug)]
pub struct ParseError;

/// The kinds of error that can halt a run.
#[derive(Clone, Copy, Debug, PartialEq, Eq, Structural)]
pub enum RuntimeErrorKind {
    /// A name was declared twice at one scope level.
    DoubleDeclaration,
    /// A variable was read or assigned that is declared nowhere in the chain.
    UnboundName,
    /// An assignment target turned out to denote a constant.
    ConstAssignment,
    /// A variable was read that is declared but has no value yet.
    UseOfUninitialized,
    /// A procedure was called that is defined nowhere in the chain.
    UndefinedProcedure,
    /// A value appeared where a boolean was expected, or the other way round.
    TypeMismatch,
    /// Division by zero, or an arithmetic result outside the value range.
    ArithmeticFault,
}

/// A typed runtime error: its kind and the name it concerns
/// (empty when no name is involved).
#[derive(Clone, Debug)]
pub struct RuntimeError {
    pub kind: RuntimeErrorKind,
    pub name: Vec<u8>,
}

/// The mathematical value of a `RuntimeError`.
pub struct RuntimeErrorModel {
    pub kind: RuntimeErrorKind,
    pub name: Seq<u8>,
}

impl View for RuntimeError {
    type V = RuntimeErrorModel;

    open spec fn view(&self) -> RuntimeErrorModel {
        RuntimeErrorModel { kind: self.kind, name: self.name@ }
    }
}

} // verus!
