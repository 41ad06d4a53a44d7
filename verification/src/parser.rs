//! The parser: structural tokens to the abstract syntax tree.

use crate::ast::{
    lemma_boxed_push, lemma_expressions_push, lemma_names_push, lemma_statements_push,
    lemma_tags_push, lemma_types_push, names_view, statements_view, Expression, ExpressionView,
    OpSymbol, Pattern, Statement, StatementView, Tag, TagView, Type, TypeView,
};
use crate::error::{ErrorKind, Expected, Found, FoundView, ParseError, ParseErrorView};
use crate::grammar::{
    arm, arms, ascription, atom, bindings, binary, block, block_items, bound, call, call_args,
    combined_tag, destructure, expr, function, is_primary, list_items, match_expr, operands,
    operator, pattern, precedence, program, right_operand_level, separated, simple_type,
    skip_newlines, starts_atom, starts_bound, starts_destructure, starts_pattern, statement,
    statements, tag, tag_assign, tag_group, tag_items, tag_operands, token_at, type_chain,
    type_expr, Failure, Outcome,
};
use crate::normalizer::{end_offset, normalize_prefix, normalize_tokens, normalized_prefix};
use crate::scanner::{scan, scan_text};
use crate::shape::{all_statements, lemma_program_is_well_formed};
use crate::token::{lexeme_views, token_views, Lexeme, LexemeView, Token, TokenView};
use vstd::prelude::*;

verus! {

/// Where parsing stopped, as an index into the tokens.
struct Fault {
    at: usize,
    expected: Expected,
}

impl View for Fault {
    type V = Failure;

    closed spec fn view(&self) -> Failure {
        Failure { at: self.at as int, expected: self.expected }
    }
}

/// The tokens of a stream as the grammar reads them.
spec fn grammar_tokens(ts: &Vec<Lexeme>) -> Seq<TokenView> {
    token_views(lexeme_views(ts@))
}

/// What a parsing function found is what the grammar gives there.
spec fn agrees<T: View>(found: Result<(T, usize), Fault>, outcome: Outcome<T::V>) -> bool {
    match found {
        Ok((node, next)) => outcome == Ok::<(T::V, int), Failure>((node@, next as int)),
        Err(fault) => outcome == Err::<(T::V, int), Failure>(fault@),
    }
}

/// A successful parse ends after the position it began at, within the tokens.
spec fn advances<T>(found: Result<(T, usize), Fault>, pos: usize, ts: &Vec<Lexeme>) -> bool {
    found matches Ok((_, next)) ==> pos < next <= ts.len()
}

fn peek(ts: &Vec<Lexeme>, pos: usize) -> (found: Option<&Token>)
    ensures
        match found {
            Some(token) => pos < ts.len() && token_at(grammar_tokens(ts), pos as int) == Some(
                token@,
            ),
            None => pos >= ts.len() && token_at(grammar_tokens(ts), pos as int) is None,
        },
{
    if pos < ts.len() {
        Some(&ts[pos].token)
    } else {
        None
    }
}

/// The tokens without a payload that the grammar asks for by name.
#[derive(Clone, Copy)]
enum Mark {
    Newline,
    Indent,
    Dedent,
    Equal,
    ColonColon,
    DotDot,
    LargeArrowRight,
    SmallArrowRight,
    In,
}

impl Mark {
    spec fn token(self) -> TokenView {
        match self {
            Mark::Newline => TokenView::Newline,
            Mark::Indent => TokenView::Indent,
            Mark::Dedent => TokenView::Dedent,
            Mark::Equal => TokenView::Equal,
            Mark::ColonColon => TokenView::ColonColon,
            Mark::DotDot => TokenView::DotDot,
            Mark::LargeArrowRight => TokenView::LargeArrowRight,
            Mark::SmallArrowRight => TokenView::SmallArrowRight,
            Mark::In => TokenView::In,
        }
    }
}

fn is_mark(ts: &Vec<Lexeme>, pos: usize, mark: Mark) -> (found: bool)
    ensures
        found == (token_at(grammar_tokens(ts), pos as int) == Some(mark.token())),
        found ==> pos < ts.len(),
{
    match peek(ts, pos) {
        Some(token) => match (token, mark) {
            (Token::Newline, Mark::Newline) => true,
            (Token::Indent, Mark::Indent) => true,
            (Token::Dedent, Mark::Dedent) => true,
            (Token::Equal, Mark::Equal) => true,
            (Token::ColonColon, Mark::ColonColon) => true,
            (Token::DotDot, Mark::DotDot) => true,
            (Token::LargeArrowRight, Mark::LargeArrowRight) => true,
            (Token::SmallArrowRight, Mark::SmallArrowRight) => true,
            (Token::In, Mark::In) => true,
            _ => false,
        },
        None => false,
    }
}

fn is_symbol(ts: &Vec<Lexeme>, pos: usize, symbol: char) -> (found: bool)
    ensures
        found == (token_at(grammar_tokens(ts), pos as int) == Some(TokenView::Symbol(symbol))),
        found ==> pos < ts.len(),
{
    match peek(ts, pos) {
        Some(Token::Symbol(c)) => *c == symbol,
        _ => false,
    }
}

fn operator_at(ts: &Vec<Lexeme>, pos: usize) -> (found: Option<OpSymbol>)
    ensures
        found == operator(token_at(grammar_tokens(ts), pos as int)),
        found is Some ==> pos < ts.len(),
{
    match peek(ts, pos) {
        Some(Token::Symbol(c)) => {
            let c = *c;
            if c == '+' {
                Some(OpSymbol::Plus)
            } else if c == '-' {
                Some(OpSymbol::Minus)
            } else if c == '*' {
                Some(OpSymbol::Star)
            } else if c == '/' {
                Some(OpSymbol::ForwardSlash)
            } else if c == '<' {
                Some(OpSymbol::LAngleBracket)
            } else if c == '>' {
                Some(OpSymbol::RAngleBracket)
            } else if c == '^' {
                Some(OpSymbol::Circumflex)
            } else {
                None
            }
        },
        _ => None,
    }
}

fn skip(ts: &Vec<Lexeme>, pos: usize) -> (item: usize)
    requires
        pos <= ts.len(),
    ensures
        item == skip_newlines(grammar_tokens(ts), pos as int),
        pos <= item <= ts.len(),
{
    let mut item = pos;
    while is_mark(ts, item, Mark::Newline)
        invariant
            pos <= item <= ts.len(),
            skip_newlines(grammar_tokens(ts), pos as int) == skip_newlines(
                grammar_tokens(ts),
                item as int,
            ),
        decreases ts.len() - item,
    {
        item += 1;
    }
    item
}

fn is_separated(ts: &Vec<Lexeme>, pos: usize, item: usize) -> (found: bool)
    requires
        pos <= item,
    ensures
        found == separated(grammar_tokens(ts), pos as int, item as int),
{
    pos < item || (pos > 0 && is_mark(ts, pos - 1, Mark::Dedent))
}

// Patterns

fn bound_at(ts: &Vec<Lexeme>, pos: usize) -> (found: Option<Pattern>)
    ensures
        found is Some == starts_bound(token_at(grammar_tokens(ts), pos as int)),
        found matches Some(pattern) ==> pattern@ == bound(token_at(grammar_tokens(ts), pos as int))
            && pos < ts.len(),
{
    match peek(ts, pos) {
        Some(Token::Symbol(c)) => if *c == '_' {
            Some(Pattern::Wildcard)
        } else {
            None
        },
        Some(Token::Integer(number)) => Some(Pattern::Integer(number.clone())),
        Some(Token::Identifier(name)) => Some(Pattern::Identifier(name.clone())),
        Some(Token::StringLiteral(text)) => Some(Pattern::StringLiteral(text.clone())),
        _ => None,
    }
}

fn boxed_bound(bound: Option<Pattern>) -> (boxed: Option<Box<Pattern>>)
    ensures
        match bound {
            Some(pattern) => boxed == Some(Box::new(pattern)),
            None => boxed is None,
        },
{
    match bound {
        Some(pattern) => Some(Box::new(pattern)),
        None => None,
    }
}

fn starts_pattern_at(ts: &Vec<Lexeme>, pos: usize) -> (found: bool)
    ensures
        found == starts_pattern(token_at(grammar_tokens(ts), pos as int)),
        found ==> pos < ts.len(),
{
    match peek(ts, pos) {
        Some(Token::Symbol(c)) => *c == '_',
        Some(Token::Integer(_)) => true,
        Some(Token::Identifier(_)) => true,
        Some(Token::StringLiteral(_)) => true,
        Some(Token::DotDot) => true,
        _ => false,
    }
}

fn parse_pattern(ts: &Vec<Lexeme>, pos: usize) -> (found: Result<(Pattern, usize), Fault>)
    ensures
        agrees(found, pattern(grammar_tokens(ts), pos as int)),
        advances(found, pos, ts),
{
    let first = bound_at(ts, pos);
    let dots = match first {
        Some(_) => pos + 1,
        None => pos,
    };
    if is_mark(ts, dots, Mark::DotDot) {
        let last = bound_at(ts, dots + 1);
        let next = match last {
            Some(_) => dots + 2,
            None => dots + 1,
        };
        Ok((Pattern::Range { start: boxed_bound(first), end: boxed_bound(last) }, next))
    } else {
        match first {
            Some(pattern) => Ok((pattern, pos + 1)),
            None => Err(Fault { at: pos, expected: Expected::Pattern }),
        }
    }
}

// Tags

fn name_is_primary(name: &String) -> (found: bool)
    ensures
        found == is_primary(name@),
{
    let text = name.as_str();
    if text.is_empty() {
        false
    } else {
        let first = text.get_char(0);
        'A' <= first && first <= 'Z'
    }
}

fn pair_of_tags(left: Tag, right: Tag) -> (args: Vec<Box<Tag>>)
    ensures
        Tag::models(args@) == seq![left@, right@],
{
    let mut args: Vec<Box<Tag>> = Vec::new();
    args.push(Box::new(left));
    args.push(Box::new(right));
    assert(Tag::models(args@) =~= seq![left@, right@]);
    args
}

fn parse_tag(ts: &Vec<Lexeme>, pos: usize) -> (found: Result<(Tag, usize), Fault>)
    ensures
        agrees(found, tag(grammar_tokens(ts), pos as int)),
        advances(found, pos, ts),
    decreases ts.len() - pos, 0int,
{
    match peek(ts, pos) {
        Some(Token::Identifier(name)) => {
            let node = if name_is_primary(name) {
                Tag::PrimaryIdentifier(name.clone())
            } else {
                Tag::Identifier(name.clone())
            };
            Ok((node, pos + 1))
        },
        Some(Token::TagStart) => parse_tag_group(ts, pos + 1),
        _ => Err(Fault { at: pos, expected: Expected::Tag }),
    }
}

fn parse_tag_group(ts: &Vec<Lexeme>, pos: usize) -> (found: Result<(Tag, usize), Fault>)
    requires
        pos <= ts.len(),
    ensures
        agrees(found, tag_group(grammar_tokens(ts), pos as int)),
        advances(found, pos, ts),
    decreases ts.len() - pos, 3int,
{
    if is_symbol(ts, pos, '}') {
        let node = Tag::Assign { pats: Vec::new() };
        assert(node@ == TagView::Assign { pats: Seq::empty() }) by {
            assert(Tag::models(Seq::empty()) =~= Seq::<TagView>::empty());
        }
        return Ok((node, pos + 1));
    }
    let ghost tv = grammar_tokens(ts);
    let mut done: Vec<Box<Tag>> = Vec::new();
    let mut at: usize = pos;
    proof {
        assert(Tag::models(done@) =~= Seq::<TagView>::empty());
    }
    loop
        invariant
            pos <= at <= ts.len(),
            tv == grammar_tokens(ts),
            tag_group(tv, pos as int) == tag_items(tv, at as int, Tag::models(done@)),
        decreases ts.len() - at,
    {
        let (item, next) = match parse_combined_tag(ts, at) {
            Ok(parsed) => parsed,
            Err(fault) => {
                return Err(fault);
            },
        };
        if is_symbol(ts, next, ',') {
            proof {
                lemma_tags_push(done@, Box::new(item));
            }
            done.push(Box::new(item));
            at = next + 1;
        } else if is_symbol(ts, next, '}') {
            if done.len() == 0 {
                return Ok((item, next + 1));
            } else {
                proof {
                    lemma_tags_push(done@, Box::new(item));
                }
                done.push(Box::new(item));
                return Ok((Tag::Assign { pats: done }, next + 1));
            }
        } else {
            return Err(Fault { at: next, expected: Expected::ClosingBrace });
        }
    }
}

fn parse_combined_tag(ts: &Vec<Lexeme>, pos: usize) -> (found: Result<(Tag, usize), Fault>)
    requires
        pos <= ts.len(),
    ensures
        agrees(found, combined_tag(grammar_tokens(ts), pos as int)),
        advances(found, pos, ts),
    decreases ts.len() - pos, 1int,
{
    let ghost tv = grammar_tokens(ts);
    let (first, next) = match parse_tag(ts, pos) {
        Ok(parsed) => parsed,
        Err(fault) => {
            return Err(fault);
        },
    };
    let mut left = first;
    let mut at = next;
    loop
        invariant
            pos < at <= ts.len(),
            tv == grammar_tokens(ts),
            combined_tag(tv, pos as int) == tag_operands(tv, at as int, left@),
        decreases ts.len() - at,
    {
        match operator_at(ts, at) {
            Some(op) => {
                let (right, next) = match parse_tag(ts, at + 1) {
                    Ok(parsed) => parsed,
                    Err(fault) => {
                        return Err(fault);
                    },
                };
                left = Tag::OpCall { op, args: pair_of_tags(left, right) };
                at = next;
            },
            None => {
                return Ok((left, at));
            },
        }
    }
}

// Types

fn parse_simple_type(ts: &Vec<Lexeme>, pos: usize) -> (found: Result<(Type, usize), Fault>)
    ensures
        agrees(found, simple_type(grammar_tokens(ts), pos as int)),
        advances(found, pos, ts),
    decreases ts.len() - pos, 0int,
{
    match peek(ts, pos) {
        Some(Token::Identifier(name)) => Ok((Type::Identifier(name.clone()), pos + 1)),
        Some(Token::Integer(number)) => Ok((Type::Nat(number.clone()), pos + 1)),
        Some(Token::TagStart) => match parse_tag_group(ts, pos + 1) {
            Ok((group, next)) => Ok((Type::Tag(group), next)),
            Err(fault) => Err(fault),
        },
        Some(Token::Symbol(c)) => if *c == '(' {
            match parse_type(ts, pos + 1) {
                Ok((inner, next)) => if is_symbol(ts, next, ')') {
                    Ok((inner, next + 1))
                } else {
                    Err(Fault { at: next, expected: Expected::ClosingParenthesis })
                },
                Err(fault) => Err(fault),
            }
        } else {
            Err(Fault { at: pos, expected: Expected::Type })
        },
        _ => Err(Fault { at: pos, expected: Expected::Type }),
    }
}

fn parse_type(ts: &Vec<Lexeme>, pos: usize) -> (found: Result<(Type, usize), Fault>)
    requires
        pos <= ts.len(),
    ensures
        agrees(found, type_expr(grammar_tokens(ts), pos as int)),
        advances(found, pos, ts),
    decreases ts.len() - pos, 2int,
{
    let ghost tv = grammar_tokens(ts);
    let mut done: Vec<Box<Type>> = Vec::new();
    let mut at: usize = pos;
    proof {
        assert(Type::models(done@) =~= Seq::<TypeView>::empty());
    }
    loop
        invariant
            pos <= at <= ts.len(),
            tv == grammar_tokens(ts),
            type_expr(tv, pos as int) == type_chain(tv, at as int, Type::models(done@)),
        decreases ts.len() - at,
    {
        let (item, next) = match parse_simple_type(ts, at) {
            Ok(parsed) => parsed,
            Err(fault) => {
                return Err(fault);
            },
        };
        if is_mark(ts, next, Mark::SmallArrowRight) {
            proof {
                lemma_types_push(done@, Box::new(item));
            }
            done.push(Box::new(item));
            at = next + 1;
        } else if done.len() == 0 {
            return Ok((item, next));
        } else {
            return Ok((Type::FnSig { args: done, ret: Box::new(item) }, next));
        }
    }
}

// Expressions

/// What a function that parses a block found is what the grammar gives.
spec fn agrees_block(
    found: Result<(Vec<Box<Expression>>, usize), Fault>,
    outcome: Outcome<Seq<ExpressionView>>,
) -> bool {
    match found {
        Ok((body, next)) => outcome == Ok::<(Seq<ExpressionView>, int), Failure>(
            (Expression::boxed_models(body@), next as int),
        ),
        Err(fault) => outcome == Err::<(Seq<ExpressionView>, int), Failure>(fault@),
    }
}

fn precedence_of(op: OpSymbol) -> (level: u8)
    ensures
        level == precedence(op),
{
    match op {
        OpSymbol::LAngleBracket | OpSymbol::RAngleBracket => 0,
        OpSymbol::Plus | OpSymbol::Minus => 1,
        OpSymbol::Star | OpSymbol::ForwardSlash => 2,
        OpSymbol::Circumflex => 3,
    }
}

fn right_operand_level_of(op: OpSymbol) -> (level: u8)
    ensures
        level == right_operand_level(op),
{
    match op {
        OpSymbol::Circumflex => 3,
        _ => precedence_of(op) + 1,
    }
}

fn starts_atom_at(ts: &Vec<Lexeme>, pos: usize) -> (found: bool)
    ensures
        found == starts_atom(token_at(grammar_tokens(ts), pos as int)),
        found ==> pos < ts.len(),
{
    match peek(ts, pos) {
        Some(Token::Integer(_)) => true,
        Some(Token::Identifier(_)) => true,
        Some(Token::StringLiteral(_)) => true,
        Some(Token::Symbol(c)) => *c == '(' || *c == '[',
        _ => false,
    }
}

fn starts_bound_at(ts: &Vec<Lexeme>, pos: usize) -> (found: bool)
    ensures
        found == starts_bound(token_at(grammar_tokens(ts), pos as int)),
        found ==> pos < ts.len(),
{
    match peek(ts, pos) {
        Some(Token::Symbol(c)) => *c == '_',
        Some(Token::Integer(_)) => true,
        Some(Token::Identifier(_)) => true,
        Some(Token::StringLiteral(_)) => true,
        _ => false,
    }
}

/// Where the pattern that begins at `pos` ends, if one begins there.
fn pattern_end(ts: &Vec<Lexeme>, pos: usize) -> (end: Option<usize>)
    ensures
        match end {
            Some(next) => pattern(grammar_tokens(ts), pos as int) matches Ok((_, n)) && n == next
                && pos < next <= ts.len(),
            None => pattern(grammar_tokens(ts), pos as int) is Err,
        },
{
    let first = starts_bound_at(ts, pos);
    let dots = if first {
        pos + 1
    } else {
        pos
    };
    if is_mark(ts, dots, Mark::DotDot) {
        if starts_bound_at(ts, dots + 1) {
            Some(dots + 2)
        } else {
            Some(dots + 1)
        }
    } else if first {
        Some(pos + 1)
    } else {
        None
    }
}

fn pair_of(left: Expression, right: Expression) -> (args: Vec<Box<Expression>>)
    ensures
        Expression::boxed_models(args@) == seq![left@, right@],
{
    let mut args: Vec<Box<Expression>> = Vec::new();
    args.push(Box::new(left));
    args.push(Box::new(right));
    assert(Expression::boxed_models(args@) =~= seq![left@, right@]);
    args
}

fn parse_atom(ts: &Vec<Lexeme>, pos: usize) -> (found: Result<(Expression, usize), Fault>)
    ensures
        agrees(found, atom(grammar_tokens(ts), pos as int)),
        advances(found, pos, ts),
    decreases ts.len() - pos, 0int,
{
    let ghost tv = grammar_tokens(ts);
    match peek(ts, pos) {
        Some(Token::Integer(number)) => Ok((Expression::Integer(number.clone()), pos + 1)),
        Some(Token::Identifier(name)) => Ok((Expression::Identifier(name.clone()), pos + 1)),
        Some(Token::StringLiteral(text)) => Ok((Expression::StringLiteral(text.clone()), pos + 1)),
        Some(Token::Symbol(c)) => if *c == '(' {
            match parse_expr(ts, pos + 1) {
                Ok((inner, next)) => if is_symbol(ts, next, ')') {
                    Ok((inner, next + 1))
                } else {
                    Err(Fault { at: next, expected: Expected::ClosingParenthesis })
                },
                Err(fault) => Err(fault),
            }
        } else if *c == '[' {
            let mut done: Vec<Box<Expression>> = Vec::new();
            proof {
                assert(Expression::boxed_models(done@) =~= Seq::<ExpressionView>::empty());
            }
            if is_symbol(ts, pos + 1, ']') {
                return Ok((Expression::List(done), pos + 2));
            }
            let mut at: usize = pos + 1;
            loop
                invariant
                    pos < at <= ts.len(),
                    tv == grammar_tokens(ts),
                    atom(tv, pos as int) == list_items(
                        tv,
                        at as int,
                        Expression::boxed_models(done@),
                    ),
                decreases ts.len() - at,
            {
                let (item, next) = match parse_expr(ts, at) {
                    Ok(parsed) => parsed,
                    Err(fault) => {
                        return Err(fault);
                    },
                };
                proof {
                    lemma_boxed_push(done@, Box::new(item));
                }
                done.push(Box::new(item));
                if is_symbol(ts, next, ',') {
                    at = next + 1;
                } else if is_symbol(ts, next, ']') {
                    return Ok((Expression::List(done), next + 1));
                } else {
                    return Err(Fault { at: next, expected: Expected::ClosingBracket });
                }
            }
        } else {
            Err(Fault { at: pos, expected: Expected::Expression })
        },
        _ => Err(Fault { at: pos, expected: Expected::Expression }),
    }
}

fn parse_call(ts: &Vec<Lexeme>, pos: usize) -> (found: Result<(Expression, usize), Fault>)
    ensures
        agrees(found, call(grammar_tokens(ts), pos as int)),
        advances(found, pos, ts),
    decreases ts.len() - pos, 2int,
{
    let ghost tv = grammar_tokens(ts);
    match peek(ts, pos) {
        Some(Token::Identifier(name)) => {
            let mut done: Vec<Expression> = Vec::new();
            proof {
                assert(Expression::models(done@) =~= Seq::<ExpressionView>::empty());
            }
            if is_symbol(ts, pos + 1, '(') && is_symbol(ts, pos + 2, ')') {
                Ok((Expression::FnCall { name: name.clone(), args: done }, pos + 3))
            } else if starts_atom_at(ts, pos + 1) {
                let mut at: usize = pos + 1;
                loop
                    invariant
                        pos < at <= ts.len(),
                        tv == grammar_tokens(ts),
                        call(tv, pos as int) == call_args(
                            tv,
                            at as int,
                            name@,
                            Expression::models(done@),
                        ),
                    decreases ts.len() - at,
                {
                    if starts_atom_at(ts, at) {
                        let (item, next) = match parse_atom(ts, at) {
                            Ok(parsed) => parsed,
                            Err(fault) => {
                                return Err(fault);
                            },
                        };
                        proof {
                            lemma_expressions_push(done@, item);
                        }
                        done.push(item);
                        at = next;
                    } else {
                        return Ok((Expression::FnCall { name: name.clone(), args: done }, at));
                    }
                }
            } else {
                Ok((Expression::Identifier(name.clone()), pos + 1))
            }
        },
        _ => parse_atom(ts, pos),
    }
}

fn parse_binary(ts: &Vec<Lexeme>, pos: usize, least: u8) -> (found: Result<
    (Expression, usize),
    Fault,
>)
    ensures
        agrees(found, binary(grammar_tokens(ts), pos as int, least as nat)),
        advances(found, pos, ts),
    decreases ts.len() - pos, 3int,
{
    let ghost tv = grammar_tokens(ts);
    let (first, next) = match parse_call(ts, pos) {
        Ok(parsed) => parsed,
        Err(fault) => {
            return Err(fault);
        },
    };
    let mut left = first;
    let mut at = next;
    loop
        invariant
            pos < at <= ts.len(),
            tv == grammar_tokens(ts),
            binary(tv, pos as int, least as nat) == operands(tv, at as int, least as nat, left@),
        decreases ts.len() - at,
    {
        match operator_at(ts, at) {
            Some(op) => {
                if precedence_of(op) >= least {
                    let (right, next) = match parse_binary(ts, at + 1, right_operand_level_of(op)) {
                        Ok(parsed) => parsed,
                        Err(fault) => {
                            return Err(fault);
                        },
                    };
                    left = Expression::OpCall { op, args: pair_of(left, right) };
                    at = next;
                } else {
                    return Ok((left, at));
                }
            },
            None => {
                return Ok((left, at));
            },
        }
    }
}

fn parse_ascription(ts: &Vec<Lexeme>, pos: usize) -> (found: Result<(Expression, usize), Fault>)
    ensures
        agrees(found, ascription(grammar_tokens(ts), pos as int)),
        advances(found, pos, ts),
    decreases ts.len() - pos, 4int,
{
    match parse_binary(ts, pos, 0) {
        Ok((inner, next)) => if is_mark(ts, next, Mark::ColonColon) {
            match parse_type(ts, next + 1) {
                Ok((ty, end)) => Ok((Expression::TypeDecl { ty, expr: Box::new(inner) }, end)),
                Err(fault) => Err(fault),
            }
        } else {
            Ok((inner, next))
        },
        Err(fault) => Err(fault),
    }
}

fn parse_destructure(ts: &Vec<Lexeme>, pos: usize) -> (found: Result<(Expression, usize), Fault>)
    ensures
        agrees(found, destructure(grammar_tokens(ts), pos as int)),
        advances(found, pos, ts),
    decreases ts.len() - pos, 4int,
{
    match parse_pattern(ts, pos) {
        Ok((pat, next)) => if is_mark(ts, next, Mark::Indent) {
            match parse_block_items(ts, next + 1) {
                Ok((body, end)) => Ok((Expression::Destructure { pat, body }, end)),
                Err(fault) => Err(fault),
            }
        } else {
            Err(Fault { at: next, expected: Expected::Indent })
        },
        Err(fault) => Err(fault),
    }
}

fn parse_tag_assign(ts: &Vec<Lexeme>, pos: usize) -> (found: Result<(Expression, usize), Fault>)
    ensures
        agrees(found, tag_assign(grammar_tokens(ts), pos as int)),
        advances(found, pos, ts),
{
    match parse_tag(ts, pos) {
        Ok((target, next)) => if is_mark(ts, next, Mark::Equal) {
            match parse_tag(ts, next + 1) {
                Ok((source, end)) => Ok((Expression::TagAssign { tag: target, expr: source }, end)),
                Err(fault) => Err(fault),
            }
        } else {
            Err(Fault { at: next, expected: Expected::Equal })
        },
        Err(fault) => Err(fault),
    }
}

fn starts_destructure_at(ts: &Vec<Lexeme>, pos: usize) -> (found: bool)
    ensures
        found == starts_destructure(grammar_tokens(ts), pos as int),
{
    match pattern_end(ts, pos) {
        Some(next) => is_mark(ts, next, Mark::Indent) || !starts_atom_at(ts, pos),
        None => false,
    }
}

fn parse_expr(ts: &Vec<Lexeme>, pos: usize) -> (found: Result<(Expression, usize), Fault>)
    ensures
        agrees(found, expr(grammar_tokens(ts), pos as int)),
        advances(found, pos, ts),
    decreases ts.len() - pos, 5int,
{
    match peek(ts, pos) {
        Some(Token::Let) => parse_bindings(ts, pos + 1),
        Some(Token::Match) => parse_match(ts, pos + 1),
        Some(Token::Tag) => parse_tag_assign(ts, pos + 1),
        _ => if starts_destructure_at(ts, pos) {
            parse_destructure(ts, pos)
        } else {
            parse_ascription(ts, pos)
        },
    }
}

fn parse_bindings(ts: &Vec<Lexeme>, pos: usize) -> (found: Result<(Expression, usize), Fault>)
    requires
        0 < pos <= ts.len(),
    ensures
        agrees(found, bindings(grammar_tokens(ts), pos as int, Seq::empty())),
        found matches Ok((_, next)) ==> pos <= next <= ts.len(),
    decreases ts.len() - pos, 6int,
{
    let ghost tv = grammar_tokens(ts);
    let mut done: Vec<Box<Expression>> = Vec::new();
    let mut at: usize = pos;
    proof {
        assert(Expression::boxed_models(done@) =~= Seq::<ExpressionView>::empty());
    }
    loop
        invariant
            pos <= at <= ts.len(),
            tv == grammar_tokens(ts),
            bindings(tv, pos as int, Seq::empty()) == bindings(
                tv,
                at as int,
                Expression::boxed_models(done@),
            ),
        decreases ts.len() - at,
    {
        let (pat, equal) = match parse_pattern(ts, at) {
            Ok(parsed) => parsed,
            Err(fault) => {
                return Err(fault);
            },
        };
        if !is_mark(ts, equal, Mark::Equal) {
            return Err(Fault { at: equal, expected: Expected::Equal });
        }
        let (value, next) = match parse_expr(ts, equal + 1) {
            Ok(parsed) => parsed,
            Err(fault) => {
                return Err(fault);
            },
        };
        let assign = Expression::ValueAssign { pat, expr: Box::new(value) };
        proof {
            lemma_boxed_push(done@, Box::new(assign));
        }
        done.push(Box::new(assign));
        if starts_pattern_at(ts, next) {
            at = next;
        } else if is_mark(ts, next, Mark::In) {
            match parse_block(ts, next + 1) {
                Ok((body, end)) => {
                    return Ok((Expression::ValueDecl { assigns: done, body: Some(body) }, end));
                },
                Err(fault) => {
                    return Err(fault);
                },
            }
        } else {
            return Ok((Expression::ValueDecl { assigns: done, body: None }, next));
        }
    }
}

fn parse_match(ts: &Vec<Lexeme>, pos: usize) -> (found: Result<(Expression, usize), Fault>)
    requires
        0 < pos <= ts.len(),
    ensures
        agrees(found, match_expr(grammar_tokens(ts), pos as int)),
        found matches Ok((_, next)) ==> pos <= next <= ts.len(),
    decreases ts.len() - pos, 6int,
{
    let ghost tv = grammar_tokens(ts);
    let (scrutinee, arrow) = match parse_expr(ts, pos) {
        Ok(parsed) => parsed,
        Err(fault) => {
            return Err(fault);
        },
    };
    if !is_mark(ts, arrow, Mark::LargeArrowRight) {
        return Err(Fault { at: arrow, expected: Expected::Arrow });
    }
    if !is_mark(ts, arrow + 1, Mark::Indent) {
        return Err(Fault { at: arrow + 1, expected: Expected::Indent });
    }
    let start: usize = arrow + 2;
    let mut done: Vec<Expression> = Vec::new();
    let mut at: usize = start;
    proof {
        assert(Expression::models(done@) =~= Seq::<ExpressionView>::empty());
    }
    loop
        invariant
            pos < start <= at <= ts.len(),
            tv == grammar_tokens(ts),
            arms(tv, start as int, Seq::empty()) == arms(tv, at as int, Expression::models(done@)),
            match_expr(tv, pos as int) == match arms(tv, start as int, Seq::empty()) {
                Err(failure) => Err(failure),
                Ok((args, end)) => Ok(
                    (ExpressionView::Match { expr: Box::new(scrutinee@), args }, end),
                ),
            },
        decreases ts.len() - at,
    {
        let item = skip(ts, at);
        if is_mark(ts, item, Mark::Dedent) && done.len() > 0 {
            return Ok((Expression::Match { expr: Box::new(scrutinee), args: done }, item + 1));
        }
        if done.len() > 0 && !is_separated(ts, at, item) {
            return Err(Fault { at: item, expected: Expected::Separator });
        }
        let (pat, arrow) = match parse_pattern(ts, item) {
            Ok(parsed) => parsed,
            Err(fault) => {
                return Err(fault);
            },
        };
        if !is_mark(ts, arrow, Mark::LargeArrowRight) {
            return Err(Fault { at: arrow, expected: Expected::Arrow });
        }
        let (body, next) = match parse_block(ts, arrow + 1) {
            Ok(parsed) => parsed,
            Err(fault) => {
                return Err(fault);
            },
        };
        let node = arm_of(pat, body);
        proof {
            lemma_expressions_push(done@, node);
        }
        done.push(node);
        at = next;
    }
}

fn arm_of(pat: Pattern, body: Vec<Box<Expression>>) -> (node: Expression)
    ensures
        node@ == arm(pat@, Expression::boxed_models(body@)),
{
    let mut body = body;
    if body.len() == 1 {
        match body.pop() {
            Some(only) => Expression::ValueAssign { pat, expr: only },
            None => Expression::Destructure { pat, body },
        }
    } else {
        Expression::Destructure { pat, body }
    }
}

fn parse_block(ts: &Vec<Lexeme>, pos: usize) -> (found: Result<
    (Vec<Box<Expression>>, usize),
    Fault,
>)
    requires
        pos <= ts.len(),
    ensures
        agrees_block(found, block(grammar_tokens(ts), pos as int)),
        advances(found, pos, ts),
    decreases ts.len() - pos, 7int,
{
    if is_mark(ts, pos, Mark::Indent) {
        parse_block_items(ts, pos + 1)
    } else {
        match parse_expr(ts, pos) {
            Ok((only, next)) => {
                let mut body: Vec<Box<Expression>> = Vec::new();
                body.push(Box::new(only));
                assert(Expression::boxed_models(body@) =~= seq![only@]);
                Ok((body, next))
            },
            Err(fault) => Err(fault),
        }
    }
}

fn parse_block_items(ts: &Vec<Lexeme>, pos: usize) -> (found: Result<
    (Vec<Box<Expression>>, usize),
    Fault,
>)
    requires
        0 < pos <= ts.len(),
    ensures
        agrees_block(found, block_items(grammar_tokens(ts), pos as int, Seq::empty())),
        found matches Ok((_, next)) ==> pos <= next <= ts.len(),
    decreases ts.len() - pos, 8int,
{
    let ghost tv = grammar_tokens(ts);
    let mut done: Vec<Box<Expression>> = Vec::new();
    let mut at: usize = pos;
    proof {
        assert(Expression::boxed_models(done@) =~= Seq::<ExpressionView>::empty());
    }
    loop
        invariant
            pos <= at <= ts.len(),
            tv == grammar_tokens(ts),
            block_items(tv, pos as int, Seq::empty()) == block_items(
                tv,
                at as int,
                Expression::boxed_models(done@),
            ),
        decreases ts.len() - at,
    {
        let item = skip(ts, at);
        if is_mark(ts, item, Mark::Dedent) && done.len() > 0 {
            return Ok((done, item + 1));
        }
        if done.len() > 0 && !is_separated(ts, at, item) {
            return Err(Fault { at: item, expected: Expected::Separator });
        }
        let (next_item, next) = match parse_expr(ts, item) {
            Ok(parsed) => parsed,
            Err(fault) => {
                return Err(fault);
            },
        };
        proof {
            lemma_boxed_push(done@, Box::new(next_item));
        }
        done.push(Box::new(next_item));
        at = next;
    }
}

// Statements

fn holds_name(names: &Vec<String>, name: &String) -> (found: bool)
    ensures
        found == names_view(names@).contains(name@),
{
    let mut i: usize = 0;
    while i < names.len()
        invariant
            i <= names.len(),
            forall|j: int| 0 <= j < i ==> names_view(names@)[j] != name@,
        decreases names.len() - i,
    {
        if names[i] == *name {
            assert(names_view(names@)[i as int] == name@);
            return true;
        }
        i += 1;
    }
    false
}

fn parse_function(ts: &Vec<Lexeme>, pos: usize, name: String) -> (found: Result<
    (Statement, usize),
    Fault,
>)
    requires
        0 < pos <= ts.len(),
    ensures
        agrees(found, function(grammar_tokens(ts), pos as int, name@, Seq::empty())),
        found matches Ok((_, next)) ==> pos < next <= ts.len(),
{
    let ghost tv = grammar_tokens(ts);
    let mut done: Vec<String> = Vec::new();
    let mut at: usize = pos;
    proof {
        assert(names_view(done@) =~= Seq::<Seq<char>>::empty());
    }
    loop
        invariant
            pos <= at <= ts.len(),
            tv == grammar_tokens(ts),
            function(tv, pos as int, name@, Seq::empty()) == function(
                tv,
                at as int,
                name@,
                names_view(done@),
            ),
        decreases ts.len() - at,
    {
        match peek(ts, at) {
            Some(Token::Identifier(parameter)) => {
                if holds_name(&done, parameter) {
                    return Err(Fault { at, expected: Expected::FreshParameter });
                }
                let parameter = parameter.clone();
                proof {
                    lemma_names_push(done@, parameter);
                }
                done.push(parameter);
                at += 1;
            },
            Some(Token::LargeArrowRight) => {
                match parse_block(ts, at + 1) {
                    Ok((body, next)) => {
                        return Ok((Statement::FnDecl { name, args: done, body }, next));
                    },
                    Err(fault) => {
                        return Err(fault);
                    },
                }
            },
            _ => {
                return Err(Fault { at, expected: Expected::Arrow });
            },
        }
    }
}

fn parse_statement(ts: &Vec<Lexeme>, pos: usize) -> (found: Result<(Statement, usize), Fault>)
    ensures
        agrees(found, statement(grammar_tokens(ts), pos as int)),
        advances(found, pos, ts),
{
    match peek(ts, pos) {
        Some(Token::Identifier(name)) => if is_mark(ts, pos + 1, Mark::ColonColon) {
            match parse_type(ts, pos + 2) {
                Ok((body, next)) => Ok((Statement::TypeDecl { name: name.clone(), body }, next)),
                Err(fault) => Err(fault),
            }
        } else {
            parse_function(ts, pos + 1, name.clone())
        },
        _ => Err(Fault { at: pos, expected: Expected::Statement }),
    }
}

/// The stage that a failure at a token is laid to: the scanner for the token
/// it gave up with, the normalizer for an error it left in the stream, the
/// parser for every other token.
pub open spec fn error_kind(token: TokenView) -> ErrorKind {
    match token {
        TokenView::LexError => ErrorKind::LexError,
        TokenView::Error(_) => ErrorKind::IndentationError,
        _ => ErrorKind::ParseError,
    }
}

/// The error for a failure of the grammar: at the offset of the offending
/// token, or of the last token where the input ended too early.
pub open spec fn error_at(lexemes: Seq<LexemeView>, failure: Failure) -> ParseErrorView {
    if 0 <= failure.at < lexemes.len() {
        ParseErrorView {
            kind: error_kind(lexemes[failure.at].token),
            position: lexemes[failure.at].offset,
            found: FoundView::Token(lexemes[failure.at].token),
            expected: failure.expected,
        }
    } else {
        ParseErrorView {
            kind: ErrorKind::ParseError,
            position: end_offset(lexemes),
            found: FoundView::End,
            expected: failure.expected,
        }
    }
}

/// The program that a structural token stream holds, or the first error.
pub open spec fn parse_lexemes(lexemes: Seq<LexemeView>) -> Result<
    Seq<StatementView>,
    ParseErrorView,
> {
    match program(token_views(lexemes)) {
        Ok(statements) => Ok(statements),
        Err(failure) => Err(error_at(lexemes, failure)),
    }
}

/// The program that a source text holds, or the first error in the order of
/// the text. The stages work as one stream: where the normalizer fails, the
/// parser has read the structural tokens before that place, and a token
/// among them that fits no production is the earlier error.
pub open spec fn parse_text(source: Seq<char>) -> Result<Seq<StatementView>, ParseErrorView> {
    let raw = scan_text(source);
    match normalize_tokens(raw) {
        Ok(lexemes) => parse_lexemes(lexemes),
        Err(error) => {
            let read = normalized_prefix(raw);
            match program(token_views(read)) {
                Err(failure) => if failure.at < read.len() {
                    Err(error_at(read, failure))
                } else {
                    Err(error)
                },
                Ok(_) => Err(error),
            }
        },
    }
}

/// What a parse returned, as mathematical values.
pub open spec fn outcome_view(found: Result<Vec<Statement>, ParseError>) -> Result<
    Seq<StatementView>,
    ParseErrorView,
> {
    match found {
        Ok(statements) => Ok(statements_view(statements@)),
        Err(error) => Err(error@),
    }
}

fn report(ts: &Vec<Lexeme>, fault: Fault) -> (error: ParseError)
    ensures
        error@ == error_at(lexeme_views(ts@), fault@),
{
    if fault.at < ts.len() {
        let lexeme = &ts[fault.at];
        let kind = match &lexeme.token {
            Token::LexError => ErrorKind::LexError,
            Token::Error(_) => ErrorKind::IndentationError,
            _ => ErrorKind::ParseError,
        };
        ParseError {
            kind,
            position: lexeme.offset,
            found: Found::Token(lexeme.token.clone()),
            expected: fault.expected,
        }
    } else {
        let position = if ts.len() == 0 {
            0
        } else {
            ts[ts.len() - 1].offset
        };
        ParseError {
            kind: ErrorKind::ParseError,
            position,
            found: Found::End,
            expected: fault.expected,
        }
    }
}

/// The statements of a token stream, or where the grammar fails.
fn parse_program(ts: &Vec<Lexeme>) -> (found: Result<Vec<Statement>, Fault>)
    ensures
        match found {
            Ok(statements) => program(grammar_tokens(ts)) == Ok::<Seq<StatementView>, Failure>(
                statements_view(statements@),
            ),
            Err(fault) => program(grammar_tokens(ts)) == Err::<Seq<StatementView>, Failure>(
                fault@,
            ),
        },
{
    let ghost tv = grammar_tokens(ts);
    let mut done: Vec<Statement> = Vec::new();
    let mut at: usize = 0;
    proof {
        assert(statements_view(done@) =~= Seq::<StatementView>::empty());
    }
    loop
        invariant
            at <= ts.len(),
            tv == grammar_tokens(ts),
            program(tv) == statements(tv, at as int, statements_view(done@)),
        decreases ts.len() - at,
    {
        let item = skip(ts, at);
        if item >= ts.len() {
            return Ok(done);
        }
        if done.len() > 0 && !is_separated(ts, at, item) {
            return Err(Fault { at: item, expected: Expected::Separator });
        }
        match parse_statement(ts, item) {
            Ok((next_item, next)) => {
                proof {
                    lemma_statements_push(done@, next_item);
                }
                done.push(next_item);
                at = next;
            },
            Err(fault) => {
                return Err(fault);
            },
        }
    }
}

/// Parses a structural token stream into the statements of a program.
/// A token that fits no production ends the parse with an error at that
/// token; nothing of the program is returned then.
pub fn parse_tokens(ts: &Vec<Lexeme>) -> (found: Result<Vec<Statement>, ParseError>)
    ensures
        outcome_view(found) == parse_lexemes(lexeme_views(ts@)),
        found matches Ok(statements) ==> all_statements(statements_view(statements@)),
{
    proof {
        lemma_program_is_well_formed(grammar_tokens(ts));
    }
    match parse_program(ts) {
        Ok(statements) => Ok(statements),
        Err(fault) => Err(report(ts, fault)),
    }
}

/// Parses a source text into the statements of a program: scans it,
/// resolves its indentation, and parses the tokens. Of several errors the
/// first in the order of the text is the one returned.
pub fn parse(source: &str) -> (found: Result<Vec<Statement>, ParseError>)
    ensures
        outcome_view(found) == parse_text(source@),
        found matches Ok(statements) ==> all_statements(statements_view(statements@)),
{
    let raw = scan(source);
    let (lexemes, stopped) = normalize_prefix(&raw);
    match stopped {
        None => parse_tokens(&lexemes),
        Some(error) => match parse_program(&lexemes) {
            Err(fault) => if fault.at < lexemes.len() {
                Err(report(&lexemes, fault))
            } else {
                Err(error)
            },
            Ok(_) => Err(error),
        },
    }
}

/// Parsing has no state of its own: what it returns is a function of the
/// source text, so two parses of one text give equal trees, or equal errors.
pub proof fn lemma_parse_is_a_function(
    source: Seq<char>,
    first: Result<Vec<Statement>, ParseError>,
    second: Result<Vec<Statement>, ParseError>,
)
    requires
        outcome_view(first) == parse_text(source),
        outcome_view(second) == parse_text(source),
    ensures
        outcome_view(first) == outcome_view(second),
{
}

/// A text without a token is the empty program, and no error.
pub proof fn lemma_empty_program(source: Seq<char>)
    requires
        scan_text(source).len() == 0,
    ensures
        parse_text(source) == Ok::<Seq<StatementView>, ParseErrorView>(Seq::empty()),
{
    let raw = scan_text(source);
    assert(normalize_tokens(raw) == Ok::<Seq<LexemeView>, ParseErrorView>(Seq::empty())) by {
        assert(crate::normalizer::stamp(crate::normalizer::dedents(0), end_offset(raw))
            =~= Seq::<LexemeView>::empty());
    }
    assert(token_views(Seq::<LexemeView>::empty()) =~= Seq::<TokenView>::empty());
}

} // verus!
