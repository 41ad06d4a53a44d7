//! The one error type of the front end.

use crate::token::{Token, TokenView};
use vstd::prelude::*;

verus! {

/// Which stage gave up.
#[derive(Debug, PartialEq, Eq, Clone, Copy)]
pub enum ErrorKind {
    /// The scanner met text that is no token.
    LexError,
    /// A line's indentation matches no enclosing block.
    IndentationError,
    /// The tokens do not follow the grammar.
    ParseError,
}

/// What stood where the error was raised.
#[derive(Debug, PartialEq)]
pub enum Found {
    Token(Token),
    /// An indentation marker of this depth.
    Depth(usize),
    /// The end of the input.
    End,
}

/// The value of a `Found`.
pub enum FoundView {
    Token(TokenView),
    Depth(nat),
    End,
}

impl View for Found {
    type V = FoundView;

    open spec fn view(&self) -> FoundView {
        match self {
            Found::Token(token) => FoundView::Token(token@),
            Found::Depth(depth) => FoundView::Depth(*depth as nat),
            Found::End => FoundView::End,
        }
    }
}

impl Clone for Found {
    fn clone(&self) -> (copy: Found)
        ensures
            copy@ == self@,
    {
        match self {
            Found::Token(token) => Found::Token(token.clone()),
            Found::Depth(depth) => Found::Depth(*depth),
            Found::End => Found::End,
        }
    }
}

/// What would have been accepted there.
#[derive(Debug, PartialEq, Eq, Clone, Copy)]
pub enum Expected {
    /// Any token.
    Token,
    /// An indentation marker of this depth, the nearest enclosing block.
    Depth(usize),
    /// A function or type declaration.
    Statement,
    /// A parameter name that the declaration does not hold yet.
    FreshParameter,
    /// `=>`.
    Arrow,
    /// `=`.
    Equal,
    Expression,
    Pattern,
    Type,
    Tag,
    /// A line break within a block, or the end of the block.
    Separator,
    /// The opening of a nested block.
    Indent,
    /// `)`.
    ClosingParenthesis,
    /// `,` or `]`.
    ClosingBracket,
    /// `,` or `}`.
    ClosingBrace,
}

/// A fatal error and the place it was raised at.
#[derive(Debug, PartialEq)]
pub struct ParseError {
    pub kind: ErrorKind,
    /// The offset, in characters, of the offending token's text.
    pub position: usize,
    pub found: Found,
    pub expected: Expected,
}

/// The value of a `ParseError`.
pub struct ParseErrorView {
    pub kind: ErrorKind,
    pub position: nat,
    pub found: FoundView,
    pub expected: Expected,
}

impl View for ParseError {
    type V = ParseErrorView;

    open spec fn view(&self) -> ParseErrorView {
        ParseErrorView {
            kind: self.kind,
            position: self.position as nat,
            found: self.found@,
            expected: self.expected,
        }
    }
}

impl Clone for ParseError {
    fn clone(&self) -> (copy: ParseError)
        ensures
            copy@ == self@,
    {
        ParseError {
            kind: self.kind,
            position: self.position,
            found: self.found.clone(),
            expected: self.expected,
        }
    }
}

} // verus!
