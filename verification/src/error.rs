//! The single error type of a translation run. Every fault is fatal: it
//! propagates to the top of the pipeline and aborts the run.

use vstd::prelude::*;
use crate::lex::TokenType;

verus! {

/// Why a translation run was aborted. The variants fall in three tiers:
/// lexical (`Lex*`), syntactic (`Parse*`), and semantic (the last three).
#[derive(Debug)]
pub enum CompileError {
    /// `!` was not followed by `=`; holds the character that followed.
    LexExpectedNotEq(char),
    /// A character that may not stand inside a string literal, because the
    /// literal is spliced verbatim into a format string of the output.
    LexIllegalStringChar(char),
    /// A decimal point with no digit after it.
    LexMalformedNumber,
    /// A character that starts no token.
    LexUnknownChar(char),
    /// The parser required one kind of token and saw another: holds the
    /// expected kind, then the kind seen.
    ParseExpectedToken(TokenType, TokenType),
    /// A statement began with a token that starts no statement; holds the
    /// kind seen and its lexeme.
    ParseInvalidStatement(TokenType, String),
    /// A comparison held no comparison operator; holds the kind and lexeme
    /// seen where one was required.
    ParseExpectedComparison(TokenType, String),
    /// An expression needed a number or an identifier; holds the kind and
    /// lexeme seen.
    ParseExpectedPrimary(TokenType, String),
    /// `LABEL` declared a name that was already declared.
    DuplicateLabel(String),
    /// An identifier was read before any assignment or input gave it a value.
    UseBeforeAssignment(String),
    /// `GOTO` named a label that no `LABEL` declares.
    UndeclaredLabel(String),
}

} // verus!
