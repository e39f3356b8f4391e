//! The two kinds of failure: a token that the parser cannot take where it
//! stands, and an arena operation on a ref that is missing or of the wrong
//! kind.

use crate::compiler::lexer::{TokenKind, TokenType};
use vstd::prelude::*;

verus! {

/// A token that is not valid in the parser's current state. It carries the
/// kind of the offending token.
#[derive(Debug)]
pub struct UnexpectedTokenError {
    token_type: TokenType,
}

impl UnexpectedTokenError {
    /// The kind of the offending token.
    pub closed spec fn token(&self) -> TokenType {
        self.token_type
    }

    /// The error for a token of kind `token_type`.
    pub fn new(token_type: TokenType) -> (error: UnexpectedTokenError)
        ensures
            error.token() == token_type,
    {
        UnexpectedTokenError { token_type }
    }

    /// The kind of the offending token.
    pub fn token_type(&self) -> (token_type: &TokenType)
        ensures
            *token_type == self.token(),
    {
        &self.token_type
    }

    /// A short name of this kind of error.
    pub fn description(&self) -> (text: &'static str)
        ensures
            text@ == "Unexpected token"@,
    {
        "Unexpected token"
    }
}

/// An arena operation was aimed at a ref that does not exist, or at a node of
/// the wrong kind.
#[derive(Debug, Clone, Copy, PartialEq, Eq, Structural)]
pub enum StructuralViolation {
    /// The ref is out of the arena's range.
    NotFound,
    /// The node at the ref is a terminal where a non-terminal is needed.
    InvalidNodeKind,
}

/// A parse tree that is no program: why the syntax tree cannot be built.
#[derive(Debug, PartialEq, Eq)]
pub enum AstError {
    /// A node stands where only a list may stand.
    Invalid,
    /// A token of this kind may not stand where it stands.
    InvalidToken(TokenType),
    /// A list has no second child, or its second child is no token.
    Unexpected,
}

/// The mathematical value of an `AstError`.
pub enum AstErrorView {
    Invalid,
    InvalidToken(TokenKind),
    Unexpected,
}

impl View for AstError {
    type V = AstErrorView;

    open spec fn view(&self) -> AstErrorView {
        match self {
            AstError::Invalid => AstErrorView::Invalid,
            AstError::InvalidToken(token_type) => AstErrorView::InvalidToken(token_type@),
            AstError::Unexpected => AstErrorView::Unexpected,
        }
    }
}

/// Why a program has no syntax tree: a token that the parser rejected, or a
/// parse tree that is no program.
#[derive(Debug)]
pub enum ParseError {
    UnexpectedToken(UnexpectedTokenError),
    InvalidProgram(AstError),
}

/// The mathematical value of a `ParseError`.
pub enum ParseErrorView {
    UnexpectedToken(TokenKind),
    InvalidProgram(AstErrorView),
}

impl View for ParseError {
    type V = ParseErrorView;

    open spec fn view(&self) -> ParseErrorView {
        match self {
            ParseError::UnexpectedToken(error) => ParseErrorView::UnexpectedToken(error.token()@),
            ParseError::InvalidProgram(error) => ParseErrorView::InvalidProgram(error@),
        }
    }
}

} // verus!
