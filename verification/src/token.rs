//! The lexical vocabulary: raw tokens as the scanner yields them, and the
//! structural tokens that take the place of indentation markers.

use crate::integer::Integer;
use vstd::prelude::*;

verus! {

/// One lexical unit.
#[derive(Debug, PartialEq)]
pub enum Token {
    /// A letter followed by letters, digits and `_`.
    Identifier(String),
    /// Digits, a point, digits: the literal's text.
    Float(String),
    /// A digit followed by digits and `_` separators.
    Integer(Integer),
    /// A double-quoted, non-empty run of characters, quotes included.
    StringLiteral(String),
    /// A line break and the number of two-space groups that follow it.
    Indentation(usize),
    Match,
    Let,
    In,
    Tag,
    Equal,
    ColonColon,
    DotDot,
    StarStar,
    LargeArrowRight,
    SmallArrowRight,
    TagStart,
    /// Blank characters within a line; the scanner skips them.
    Whitespace,
    /// One character of ASCII punctuation.
    Symbol(char),
    /// One character that belongs to no other token.
    Unknown(char),
    /// The scanner gave up here.
    LexError,
    /// The next line continues the current block.
    Newline,
    /// The next line opens a nested block.
    Indent,
    /// The current block ends.
    Dedent,
    Error(String),
}

/// What a token is, with its payload as a mathematical value.
pub enum TokenView {
    Identifier(Seq<char>),
    Float(Seq<char>),
    Integer(nat),
    StringLiteral(Seq<char>),
    Indentation(nat),
    Match,
    Let,
    In,
    Tag,
    Equal,
    ColonColon,
    DotDot,
    StarStar,
    LargeArrowRight,
    SmallArrowRight,
    TagStart,
    Whitespace,
    Symbol(char),
    Unknown(char),
    LexError,
    Newline,
    Indent,
    Dedent,
    Error(Seq<char>),
}

impl View for Token {
    type V = TokenView;

    open spec fn view(&self) -> TokenView {
        match self {
            Token::Identifier(name) => TokenView::Identifier(name@),
            Token::Float(text) => TokenView::Float(text@),
            Token::Integer(number) => TokenView::Integer(number@),
            Token::StringLiteral(text) => TokenView::StringLiteral(text@),
            Token::Indentation(depth) => TokenView::Indentation(*depth as nat),
            Token::Match => TokenView::Match,
            Token::Let => TokenView::Let,
            Token::In => TokenView::In,
            Token::Tag => TokenView::Tag,
            Token::Equal => TokenView::Equal,
            Token::ColonColon => TokenView::ColonColon,
            Token::DotDot => TokenView::DotDot,
            Token::StarStar => TokenView::StarStar,
            Token::LargeArrowRight => TokenView::LargeArrowRight,
            Token::SmallArrowRight => TokenView::SmallArrowRight,
            Token::TagStart => TokenView::TagStart,
            Token::Whitespace => TokenView::Whitespace,
            Token::Symbol(c) => TokenView::Symbol(*c),
            Token::Unknown(c) => TokenView::Unknown(*c),
            Token::LexError => TokenView::LexError,
            Token::Newline => TokenView::Newline,
            Token::Indent => TokenView::Indent,
            Token::Dedent => TokenView::Dedent,
            Token::Error(message) => TokenView::Error(message@),
        }
    }
}

impl Clone for Token {
    fn clone(&self) -> (copy: Token)
        ensures
            copy@ == self@,
    {
        match self {
            Token::Identifier(name) => Token::Identifier(name.clone()),
            Token::Float(text) => Token::Float(text.clone()),
            Token::Integer(number) => Token::Integer(number.clone()),
            Token::StringLiteral(text) => Token::StringLiteral(text.clone()),
            Token::Indentation(depth) => Token::Indentation(*depth),
            Token::Match => Token::Match,
            Token::Let => Token::Let,
            Token::In => Token::In,
            Token::Tag => Token::Tag,
            Token::Equal => Token::Equal,
            Token::ColonColon => Token::ColonColon,
            Token::DotDot => Token::DotDot,
            Token::StarStar => Token::StarStar,
            Token::LargeArrowRight => Token::LargeArrowRight,
            Token::SmallArrowRight => Token::SmallArrowRight,
            Token::TagStart => Token::TagStart,
            Token::Whitespace => Token::Whitespace,
            Token::Symbol(c) => Token::Symbol(*c),
            Token::Unknown(c) => Token::Unknown(*c),
            Token::LexError => Token::LexError,
            Token::Newline => Token::Newline,
            Token::Indent => Token::Indent,
            Token::Dedent => Token::Dedent,
            Token::Error(message) => Token::Error(message.clone()),
        }
    }
}

/// A token and the offset, in characters, at which its text begins.
#[derive(Debug, PartialEq)]
pub struct Lexeme {
    pub token: Token,
    pub offset: usize,
}

/// The value of a `Lexeme`.
pub struct LexemeView {
    pub token: TokenView,
    pub offset: nat,
}

impl View for Lexeme {
    type V = LexemeView;

    open spec fn view(&self) -> LexemeView {
        LexemeView { token: self.token@, offset: self.offset as nat }
    }
}

impl Clone for Lexeme {
    fn clone(&self) -> (copy: Lexeme)
        ensures
            copy@ == self@,
    {
        Lexeme { token: self.token.clone(), offset: self.offset }
    }
}

/// The views of a run of lexemes, in order.
pub open spec fn lexeme_views(lexemes: Seq<Lexeme>) -> Seq<LexemeView> {
    Seq::new(lexemes.len(), |i: int| lexemes[i]@)
}

/// The tokens of a run of lexemes, without their offsets.
pub open spec fn token_views(lexemes: Seq<LexemeView>) -> Seq<TokenView> {
    Seq::new(lexemes.len(), |i: int| lexemes[i].token)
}

} // verus!
