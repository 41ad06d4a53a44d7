//! The grammar, as functions from a token sequence and a position in it to
//! the node that begins there and the position after it.
//!
//! ```text
//! program     := statement*
//! statement   := identifier "::" type
//!              | identifier identifier* "=>" block
//! block       := Indent expr+ Dedent | expr
//! expr        := "let" (pattern "=" expr)+ ("in" block)?
//!              | "match" expr "=>" Indent (pattern "=>" block)+ Dedent
//!              | "tag" tag "=" tag
//!              | pattern Indent expr+ Dedent
//!              | binary ("::" type)?
//! binary      := call (operator binary)*
//! call        := identifier "(" ")" | identifier atom+ | atom
//! atom        := integer | identifier | string | "(" expr ")"
//!              | "[" (expr ("," expr)*)? "]"
//! pattern     := bound | bound? ".." bound?
//! bound       := "_" | integer | identifier | string
//! type        := simple ("->" simple)*
//! simple      := identifier | integer | "#{" group | "(" type ")"
//! tag         := identifier | "#{" group
//! group       := "}" | combined ("," combined)* "}"
//! combined    := tag (operator tag)*
//! ```
//!
//! Within a block, and between statements, a `Newline` separates one item
//! from the next; none is needed after an item that ends with a `Dedent`.
//! Parsing is predictive: the first token that fits no production is the
//! error, and nothing is retried.

use crate::ast::{ExpressionView, OpSymbol, PatternView, StatementView, TagView, TypeView};
use crate::error::Expected;
use crate::token::TokenView;
use vstd::prelude::*;

verus! {

/// Where the tokens stop following the grammar, and what would have fitted.
pub struct Failure {
    /// The index of the offending token; the number of tokens, at the end.
    pub at: int,
    pub expected: Expected,
}

/// A node and the index of the first token after it, or the failure.
pub type Outcome<T> = Result<(T, int), Failure>;

/// The failure at `at` for want of `expected`.
pub open spec fn fail<T>(at: int, expected: Expected) -> Outcome<T> {
    Err(Failure { at, expected })
}

/// The token at `pos`, if there is one.
pub open spec fn token_at(ts: Seq<TokenView>, pos: int) -> Option<TokenView> {
    if 0 <= pos < ts.len() {
        Some(ts[pos])
    } else {
        None
    }
}

/// The outcome, if it ends after `pos` and within the tokens. Every
/// production but an empty operator tail consumes a token, so this changes
/// no outcome that it is applied to.
pub open spec fn advancing<T>(ts: Seq<TokenView>, pos: int, outcome: Outcome<T>) -> Outcome<T> {
    match outcome {
        Ok((_, next)) => if pos < next <= ts.len() {
            outcome
        } else {
            fail(pos, Expected::Token)
        },
        Err(_) => outcome,
    }
}

/// The first position from `pos` on that holds no `Newline`.
pub open spec fn skip_newlines(ts: Seq<TokenView>, pos: int) -> int
    decreases ts.len() - pos,
{
    if token_at(ts, pos) == Some(TokenView::Newline) {
        skip_newlines(ts, pos + 1)
    } else {
        pos
    }
}

/// Skipping goes forward, stays within the tokens, and stops at a token
/// that is no `Newline`.
pub proof fn lemma_skip_newlines(ts: Seq<TokenView>, pos: int)
    ensures
        pos <= skip_newlines(ts, pos),
        pos <= ts.len() ==> skip_newlines(ts, pos) <= ts.len(),
        token_at(ts, skip_newlines(ts, pos)) != Some(TokenView::Newline),
    decreases ts.len() - pos,
{
    if token_at(ts, pos) == Some(TokenView::Newline) {
        lemma_skip_newlines(ts, pos + 1);
    }
}

/// Whether an item of a block, or a statement, may begin at `item`, where
/// `pos` is the position that the one before it ended at: after a `Newline`,
/// or right after the `Dedent` that ended the one before.
pub open spec fn separated(ts: Seq<TokenView>, pos: int, item: int) -> bool {
    pos < item || token_at(ts, pos - 1) == Some(TokenView::Dedent)
}

/// The operator that a token stands for.
pub open spec fn operator(token: Option<TokenView>) -> Option<OpSymbol> {
    match token {
        Some(TokenView::Symbol(c)) => if c == '+' {
            Some(OpSymbol::Plus)
        } else if c == '-' {
            Some(OpSymbol::Minus)
        } else if c == '*' {
            Some(OpSymbol::Star)
        } else if c == '/' {
            Some(OpSymbol::ForwardSlash)
        } else if c == '<' {
            Some(OpSymbol::LAngleBracket)
        } else if c == '>' {
            Some(OpSymbol::RAngleBracket)
        } else if c == '^' {
            Some(OpSymbol::Circumflex)
        } else {
            None
        },
        _ => None,
    }
}

/// How tightly an operator binds: comparison loosest, then the additive
/// operators, then the multiplicative ones, then exponentiation.
pub open spec fn precedence(op: OpSymbol) -> nat {
    match op {
        OpSymbol::LAngleBracket | OpSymbol::RAngleBracket => 0,
        OpSymbol::Plus | OpSymbol::Minus => 1,
        OpSymbol::Star | OpSymbol::ForwardSlash => 2,
        OpSymbol::Circumflex => 3,
    }
}

/// The least precedence that an operator admits in its right operand: its
/// own if it associates to the right, as exponentiation does, and the next
/// one if it associates to the left.
pub open spec fn right_operand_level(op: OpSymbol) -> nat {
    if op is Circumflex {
        precedence(op)
    } else {
        precedence(op) + 1
    }
}

// Patterns

/// Whether the token is a pattern by itself.
pub open spec fn starts_bound(token: Option<TokenView>) -> bool {
    match token {
        Some(TokenView::Symbol(c)) => c == '_',
        Some(TokenView::Integer(_)) => true,
        Some(TokenView::Identifier(_)) => true,
        Some(TokenView::StringLiteral(_)) => true,
        _ => false,
    }
}

/// Whether a pattern can begin with the token.
pub open spec fn starts_pattern(token: Option<TokenView>) -> bool {
    starts_bound(token) || token == Some(TokenView::DotDot)
}

/// The pattern that one token is, if `starts_bound` holds of it.
pub open spec fn bound(token: Option<TokenView>) -> PatternView {
    match token {
        Some(TokenView::Integer(number)) => PatternView::Integer(number),
        Some(TokenView::Identifier(name)) => PatternView::Identifier(name),
        Some(TokenView::StringLiteral(text)) => PatternView::StringLiteral(text),
        _ => PatternView::Wildcard,
    }
}

/// The bound of a range that the token is, if it is one.
pub open spec fn optional_bound(token: Option<TokenView>) -> Option<Box<PatternView>> {
    if starts_bound(token) {
        Some(Box::new(bound(token)))
    } else {
        None
    }
}

/// `pattern := bound | bound? ".." bound?`
pub open spec fn pattern(ts: Seq<TokenView>, pos: int) -> Outcome<PatternView> {
    let first = token_at(ts, pos);
    let dots = if starts_bound(first) {
        pos + 1
    } else {
        pos
    };
    if token_at(ts, dots) == Some(TokenView::DotDot) {
        let last = token_at(ts, dots + 1);
        Ok(
            (
                PatternView::Range { start: optional_bound(first), end: optional_bound(last) },
                if starts_bound(last) {
                    dots + 2
                } else {
                    dots + 1
                },
            ),
        )
    } else if starts_bound(first) {
        Ok((bound(first), pos + 1))
    } else {
        fail(pos, Expected::Pattern)
    }
}

// Tags

/// A name that begins with a capital letter is the root of a namespace.
pub open spec fn is_primary(name: Seq<char>) -> bool {
    name.len() > 0 && 'A' <= name[0] <= 'Z'
}

/// The tag that a name is.
pub open spec fn named_tag(name: Seq<char>) -> TagView {
    if is_primary(name) {
        TagView::PrimaryIdentifier(name)
    } else {
        TagView::Identifier(name)
    }
}

/// `tag := identifier | "#{" group`
pub open spec fn tag(ts: Seq<TokenView>, pos: int) -> Outcome<TagView>
    decreases ts.len() - pos, 0int,
{
    match token_at(ts, pos) {
        Some(TokenView::Identifier(name)) => Ok((named_tag(name), pos + 1)),
        Some(TokenView::TagStart) => tag_group(ts, pos + 1),
        _ => fail(pos, Expected::Tag),
    }
}

/// `group := "}" | combined ("," combined)* "}"`: no tag is the empty
/// group, one tag is itself, several are a group.
pub open spec fn tag_group(ts: Seq<TokenView>, pos: int) -> Outcome<TagView>
    decreases ts.len() - pos, 3int,
{
    if token_at(ts, pos) == Some(TokenView::Symbol('}')) {
        Ok((TagView::Assign { pats: Seq::empty() }, pos + 1))
    } else {
        tag_items(ts, pos, Seq::empty())
    }
}

/// The rest of a group after the tags in `done`.
pub open spec fn tag_items(ts: Seq<TokenView>, pos: int, done: Seq<TagView>) -> Outcome<TagView>
    decreases ts.len() - pos, 2int,
{
    match advancing(ts, pos, combined_tag(ts, pos)) {
        Err(failure) => Err(failure),
        Ok((item, next)) => if token_at(ts, next) == Some(TokenView::Symbol(',')) {
            tag_items(ts, next + 1, done.push(item))
        } else if token_at(ts, next) == Some(TokenView::Symbol('}')) {
            Ok(
                (
                    if done.len() == 0 {
                        item
                    } else {
                        TagView::Assign { pats: done.push(item) }
                    },
                    next + 1,
                ),
            )
        } else {
            fail(next, Expected::ClosingBrace)
        },
    }
}

/// `combined := tag (operator tag)*`: among tags every operator binds alike,
/// and to the left.
pub open spec fn combined_tag(ts: Seq<TokenView>, pos: int) -> Outcome<TagView>
    decreases ts.len() - pos, 1int,
{
    match advancing(ts, pos, tag(ts, pos)) {
        Err(failure) => Err(failure),
        Ok((first, next)) => tag_operands(ts, next, first),
    }
}

/// `left` with every operator and tag that follow it.
pub open spec fn tag_operands(ts: Seq<TokenView>, pos: int, left: TagView) -> Outcome<TagView>
    decreases ts.len() - pos, 1int,
{
    match operator(token_at(ts, pos)) {
        Some(op) => match advancing(ts, pos + 1, tag(ts, pos + 1)) {
            Err(failure) => Err(failure),
            Ok((right, next)) => tag_operands(
                ts,
                next,
                TagView::OpCall { op, args: seq![left, right] },
            ),
        },
        None => Ok((left, pos)),
    }
}

// Types

/// `simple := identifier | integer | "#{" group | "(" type ")"`
pub open spec fn simple_type(ts: Seq<TokenView>, pos: int) -> Outcome<TypeView>
    decreases ts.len() - pos, 0int,
{
    match token_at(ts, pos) {
        Some(TokenView::Identifier(name)) => Ok((TypeView::Identifier(name), pos + 1)),
        Some(TokenView::Integer(number)) => Ok((TypeView::Nat(number), pos + 1)),
        Some(TokenView::TagStart) => match tag_group(ts, pos + 1) {
            Err(failure) => Err(failure),
            Ok((group, next)) => Ok((TypeView::Tag(group), next)),
        },
        Some(TokenView::Symbol(c)) => if c == '(' {
            match advancing(ts, pos + 1, type_expr(ts, pos + 1)) {
                Err(failure) => Err(failure),
                Ok((inner, next)) => if token_at(ts, next) == Some(TokenView::Symbol(')')) {
                    Ok((inner, next + 1))
                } else {
                    fail(next, Expected::ClosingParenthesis)
                },
            }
        } else {
            fail(pos, Expected::Type)
        },
        _ => fail(pos, Expected::Type),
    }
}

/// `type := simple ("->" simple)*`: with an arrow, a function type whose
/// result is the last of the simple types and whose arguments are the others.
pub open spec fn type_expr(ts: Seq<TokenView>, pos: int) -> Outcome<TypeView>
    decreases ts.len() - pos, 2int,
{
    type_chain(ts, pos, Seq::empty())
}

/// The rest of a type after the simple types in `done` and their arrows.
pub open spec fn type_chain(ts: Seq<TokenView>, pos: int, done: Seq<TypeView>) -> Outcome<TypeView>
    decreases ts.len() - pos, 1int,
{
    match advancing(ts, pos, simple_type(ts, pos)) {
        Err(failure) => Err(failure),
        Ok((item, next)) => if token_at(ts, next) == Some(TokenView::SmallArrowRight) {
            type_chain(ts, next + 1, done.push(item))
        } else if done.len() == 0 {
            Ok((item, next))
        } else {
            Ok((TypeView::FnSig { args: done, ret: Box::new(item) }, next))
        },
    }
}

// Expressions

/// Whether an atom can begin with the token.
pub open spec fn starts_atom(token: Option<TokenView>) -> bool {
    match token {
        Some(TokenView::Integer(_)) => true,
        Some(TokenView::Identifier(_)) => true,
        Some(TokenView::StringLiteral(_)) => true,
        Some(TokenView::Symbol(c)) => c == '(' || c == '[',
        _ => false,
    }
}

/// The node of a match arm: the pattern with the one expression of its
/// block, or with the whole block where that holds several.
pub open spec fn arm(pat: PatternView, body: Seq<ExpressionView>) -> ExpressionView {
    if body.len() == 1 {
        ExpressionView::ValueAssign { pat, expr: Box::new(body[0]) }
    } else {
        ExpressionView::Destructure { pat, body }
    }
}

/// Whether a pattern followed by a nested block begins at `pos`, or a
/// pattern that no expression can begin with.
pub open spec fn starts_destructure(ts: Seq<TokenView>, pos: int) -> bool {
    match pattern(ts, pos) {
        Ok((_, next)) => token_at(ts, next) == Some(TokenView::Indent) || !starts_atom(
            token_at(ts, pos),
        ),
        Err(_) => false,
    }
}

/// `atom := integer | identifier | string | "(" expr ")" | "[" ... "]"`
pub open spec fn atom(ts: Seq<TokenView>, pos: int) -> Outcome<ExpressionView>
    decreases ts.len() - pos, 0int,
{
    match token_at(ts, pos) {
        Some(TokenView::Integer(number)) => Ok((ExpressionView::Integer(number), pos + 1)),
        Some(TokenView::Identifier(name)) => Ok((ExpressionView::Identifier(name), pos + 1)),
        Some(TokenView::StringLiteral(text)) => Ok((ExpressionView::StringLiteral(text), pos + 1)),
        Some(TokenView::Symbol(c)) => if c == '(' {
            match advancing(ts, pos + 1, expr(ts, pos + 1)) {
                Err(failure) => Err(failure),
                Ok((inner, next)) => if token_at(ts, next) == Some(TokenView::Symbol(')')) {
                    Ok((inner, next + 1))
                } else {
                    fail(next, Expected::ClosingParenthesis)
                },
            }
        } else if c == '[' {
            if token_at(ts, pos + 1) == Some(TokenView::Symbol(']')) {
                Ok((ExpressionView::List(Seq::empty()), pos + 2))
            } else {
                list_items(ts, pos + 1, Seq::empty())
            }
        } else {
            fail(pos, Expected::Expression)
        },
        _ => fail(pos, Expected::Expression),
    }
}

/// The rest of a list after the items in `done`.
pub open spec fn list_items(ts: Seq<TokenView>, pos: int, done: Seq<ExpressionView>) -> Outcome<
    ExpressionView,
>
    decreases ts.len() - pos, 9int,
{
    match advancing(ts, pos, expr(ts, pos)) {
        Err(failure) => Err(failure),
        Ok((item, next)) => if token_at(ts, next) == Some(TokenView::Symbol(',')) {
            list_items(ts, next + 1, done.push(item))
        } else if token_at(ts, next) == Some(TokenView::Symbol(']')) {
            Ok((ExpressionView::List(done.push(item)), next + 1))
        } else {
            fail(next, Expected::ClosingBracket)
        },
    }
}

/// `call := identifier "(" ")" | identifier atom+ | atom`: a name followed
/// by atoms is applied to all of them.
pub open spec fn call(ts: Seq<TokenView>, pos: int) -> Outcome<ExpressionView>
    decreases ts.len() - pos, 2int,
{
    match token_at(ts, pos) {
        Some(TokenView::Identifier(name)) => if token_at(ts, pos + 1) == Some(
            TokenView::Symbol('('),
        ) && token_at(ts, pos + 2) == Some(TokenView::Symbol(')')) {
            Ok((ExpressionView::FnCall { name, args: Seq::empty() }, pos + 3))
        } else if starts_atom(token_at(ts, pos + 1)) {
            call_args(ts, pos + 1, name, Seq::empty())
        } else {
            Ok((ExpressionView::Identifier(name), pos + 1))
        },
        _ => atom(ts, pos),
    }
}

/// The call of `name` with the arguments in `done` and every atom that
/// follows.
pub open spec fn call_args(
    ts: Seq<TokenView>,
    pos: int,
    name: Seq<char>,
    done: Seq<ExpressionView>,
) -> Outcome<ExpressionView>
    decreases ts.len() - pos, 1int,
{
    if starts_atom(token_at(ts, pos)) {
        match advancing(ts, pos, atom(ts, pos)) {
            Err(failure) => Err(failure),
            Ok((item, next)) => call_args(ts, next, name, done.push(item)),
        }
    } else {
        Ok((ExpressionView::FnCall { name, args: done }, pos))
    }
}

/// `binary := call (operator binary)*`, by precedence climbing: the operand
/// that begins at `pos` with every operator of at least the precedence
/// `least` that follows it.
pub open spec fn binary(ts: Seq<TokenView>, pos: int, least: nat) -> Outcome<ExpressionView>
    decreases ts.len() - pos, 3int,
{
    match advancing(ts, pos, call(ts, pos)) {
        Err(failure) => Err(failure),
        Ok((first, next)) => operands(ts, next, least, first),
    }
}

/// `left` with every operator of at least the precedence `least`, and its
/// right operand, that follow it.
pub open spec fn operands(
    ts: Seq<TokenView>,
    pos: int,
    least: nat,
    left: ExpressionView,
) -> Outcome<ExpressionView>
    decreases ts.len() - pos, 3int,
{
    match operator(token_at(ts, pos)) {
        Some(op) => if precedence(op) >= least {
            match advancing(ts, pos + 1, binary(ts, pos + 1, right_operand_level(op))) {
                Err(failure) => Err(failure),
                Ok((right, next)) => operands(
                    ts,
                    next,
                    least,
                    ExpressionView::OpCall { op, args: seq![left, right] },
                ),
            }
        } else {
            Ok((left, pos))
        },
        None => Ok((left, pos)),
    }
}

/// `binary ("::" type)?`
pub open spec fn ascription(ts: Seq<TokenView>, pos: int) -> Outcome<ExpressionView>
    decreases ts.len() - pos, 4int,
{
    match binary(ts, pos, 0) {
        Err(failure) => Err(failure),
        Ok((inner, next)) => if token_at(ts, next) == Some(TokenView::ColonColon) {
            match type_expr(ts, next + 1) {
                Err(failure) => Err(failure),
                Ok((ty, end)) => Ok((ExpressionView::TypeDecl { ty, expr: Box::new(inner) }, end)),
            }
        } else {
            Ok((inner, next))
        },
    }
}

/// `pattern Indent expr+ Dedent`
pub open spec fn destructure(ts: Seq<TokenView>, pos: int) -> Outcome<ExpressionView>
    decreases ts.len() - pos, 4int,
{
    match pattern(ts, pos) {
        Err(failure) => Err(failure),
        Ok((pat, next)) => if token_at(ts, next) == Some(TokenView::Indent) {
            match block_items(ts, next + 1, Seq::empty()) {
                Err(failure) => Err(failure),
                Ok((body, end)) => Ok((ExpressionView::Destructure { pat, body }, end)),
            }
        } else {
            fail(next, Expected::Indent)
        },
    }
}

/// `"tag" tag "=" tag`, from after the keyword.
pub open spec fn tag_assign(ts: Seq<TokenView>, pos: int) -> Outcome<ExpressionView> {
    match tag(ts, pos) {
        Err(failure) => Err(failure),
        Ok((target, next)) => if token_at(ts, next) == Some(TokenView::Equal) {
            match tag(ts, next + 1) {
                Err(failure) => Err(failure),
                Ok((source, end)) => Ok(
                    (ExpressionView::TagAssign { tag: target, expr: source }, end),
                ),
            }
        } else {
            fail(next, Expected::Equal)
        },
    }
}

/// `expr`: the first token decides between a group of bindings, a match and
/// a tag binding; without a keyword, a pattern before a nested block makes a
/// guarded block, and everything else is an operand with its operators.
pub open spec fn expr(ts: Seq<TokenView>, pos: int) -> Outcome<ExpressionView>
    decreases ts.len() - pos, 5int,
{
    match token_at(ts, pos) {
        Some(TokenView::Let) => bindings(ts, pos + 1, Seq::empty()),
        Some(TokenView::Match) => match_expr(ts, pos + 1),
        Some(TokenView::Tag) => tag_assign(ts, pos + 1),
        _ => if starts_destructure(ts, pos) {
            destructure(ts, pos)
        } else {
            ascription(ts, pos)
        },
    }
}

/// `(pattern "=" expr)+ ("in" block)?`, from after `let`: another binding
/// follows wherever a pattern can begin.
pub open spec fn bindings(ts: Seq<TokenView>, pos: int, done: Seq<ExpressionView>) -> Outcome<
    ExpressionView,
>
    decreases ts.len() - pos, 6int,
{
    match pattern(ts, pos) {
        Err(failure) => Err(failure),
        Ok((pat, equal)) => if token_at(ts, equal) == Some(TokenView::Equal) {
            match advancing(ts, equal + 1, expr(ts, equal + 1)) {
                Err(failure) => Err(failure),
                Ok((value, next)) => {
                    let assigns = done.push(
                        ExpressionView::ValueAssign { pat, expr: Box::new(value) },
                    );
                    if starts_pattern(token_at(ts, next)) {
                        bindings(ts, next, assigns)
                    } else if token_at(ts, next) == Some(TokenView::In) {
                        match block(ts, next + 1) {
                            Err(failure) => Err(failure),
                            Ok((body, end)) => Ok(
                                (ExpressionView::ValueDecl { assigns, body: Some(body) }, end),
                            ),
                        }
                    } else {
                        Ok((ExpressionView::ValueDecl { assigns, body: None }, next))
                    }
                },
            }
        } else {
            fail(equal, Expected::Equal)
        },
    }
}

/// `"match" expr "=>" Indent (pattern "=>" block)+ Dedent`, from after the
/// keyword.
pub open spec fn match_expr(ts: Seq<TokenView>, pos: int) -> Outcome<ExpressionView>
    decreases ts.len() - pos, 6int,
{
    match advancing(ts, pos, expr(ts, pos)) {
        Err(failure) => Err(failure),
        Ok((scrutinee, arrow)) => if token_at(ts, arrow) != Some(TokenView::LargeArrowRight) {
            fail(arrow, Expected::Arrow)
        } else if token_at(ts, arrow + 1) != Some(TokenView::Indent) {
            fail(arrow + 1, Expected::Indent)
        } else {
            match arms(ts, arrow + 2, Seq::empty()) {
                Err(failure) => Err(failure),
                Ok((args, end)) => Ok(
                    (ExpressionView::Match { expr: Box::new(scrutinee), args }, end),
                ),
            }
        },
    }
}

/// The arms of a match up to the `Dedent` that ends them, in order.
pub open spec fn arms(ts: Seq<TokenView>, pos: int, done: Seq<ExpressionView>) -> Outcome<
    Seq<ExpressionView>,
>
    decreases ts.len() - pos, 8int,
{
    let item = skip_newlines(ts, pos);
    proof {
        lemma_skip_newlines(ts, pos);
    }
    if token_at(ts, item) == Some(TokenView::Dedent) && done.len() > 0 {
        Ok((done, item + 1))
    } else if done.len() > 0 && !separated(ts, pos, item) {
        fail(item, Expected::Separator)
    } else {
        match pattern(ts, item) {
            Err(failure) => Err(failure),
            Ok((pat, arrow)) => if token_at(ts, arrow) == Some(TokenView::LargeArrowRight) {
                match advancing(ts, arrow + 1, block(ts, arrow + 1)) {
                    Err(failure) => Err(failure),
                    Ok((body, next)) => arms(ts, next, done.push(arm(pat, body))),
                }
            } else {
                fail(arrow, Expected::Arrow)
            },
        }
    }
}

/// `block := Indent expr+ Dedent | expr`
pub open spec fn block(ts: Seq<TokenView>, pos: int) -> Outcome<Seq<ExpressionView>>
    decreases ts.len() - pos, 7int,
{
    if token_at(ts, pos) == Some(TokenView::Indent) {
        block_items(ts, pos + 1, Seq::empty())
    } else {
        match expr(ts, pos) {
            Err(failure) => Err(failure),
            Ok((only, next)) => Ok((seq![only], next)),
        }
    }
}

/// The expressions of a nested block up to the `Dedent` that ends it.
pub open spec fn block_items(ts: Seq<TokenView>, pos: int, done: Seq<ExpressionView>) -> Outcome<
    Seq<ExpressionView>,
>
    decreases ts.len() - pos, 8int,
{
    let item = skip_newlines(ts, pos);
    proof {
        lemma_skip_newlines(ts, pos);
    }
    if token_at(ts, item) == Some(TokenView::Dedent) && done.len() > 0 {
        Ok((done, item + 1))
    } else if done.len() > 0 && !separated(ts, pos, item) {
        fail(item, Expected::Separator)
    } else {
        match advancing(ts, item, expr(ts, item)) {
            Err(failure) => Err(failure),
            Ok((next_item, next)) => block_items(ts, next, done.push(next_item)),
        }
    }
}

// Statements

/// `identifier* "=>" block`, from after the function's name: the parameters,
/// no name twice, and the body.
pub open spec fn function(
    ts: Seq<TokenView>,
    pos: int,
    name: Seq<char>,
    done: Seq<Seq<char>>,
) -> Outcome<StatementView>
    decreases ts.len() - pos,
{
    match token_at(ts, pos) {
        Some(TokenView::Identifier(parameter)) => if done.contains(parameter) {
            fail(pos, Expected::FreshParameter)
        } else {
            function(ts, pos + 1, name, done.push(parameter))
        },
        Some(TokenView::LargeArrowRight) => match block(ts, pos + 1) {
            Err(failure) => Err(failure),
            Ok((body, next)) => Ok((StatementView::FnDecl { name, args: done, body }, next)),
        },
        _ => fail(pos, Expected::Arrow),
    }
}

/// `statement := identifier "::" type | identifier identifier* "=>" block`
pub open spec fn statement(ts: Seq<TokenView>, pos: int) -> Outcome<StatementView> {
    match token_at(ts, pos) {
        Some(TokenView::Identifier(name)) => if token_at(ts, pos + 1) == Some(
            TokenView::ColonColon,
        ) {
            match type_expr(ts, pos + 2) {
                Err(failure) => Err(failure),
                Ok((body, next)) => Ok((StatementView::TypeDecl { name, body }, next)),
            }
        } else {
            function(ts, pos + 1, name, Seq::empty())
        },
        _ => fail(pos, Expected::Statement),
    }
}

/// `program := statement*`, from `pos` on, after the statements in `done`.
pub open spec fn statements(ts: Seq<TokenView>, pos: int, done: Seq<StatementView>) -> Result<
    Seq<StatementView>,
    Failure,
>
    decreases ts.len() - pos,
{
    let item = skip_newlines(ts, pos);
    if item >= ts.len() {
        Ok(done)
    } else if done.len() > 0 && !separated(ts, pos, item) {
        Err(Failure { at: item, expected: Expected::Separator })
    } else {
        match advancing(ts, item, statement(ts, item)) {
            Err(failure) => Err(failure),
            Ok((next_item, next)) => {
                proof {
                    lemma_skip_newlines(ts, pos);
                }
                statements(ts, next, done.push(next_item))
            },
        }
    }
}

/// The statements of a whole token sequence.
pub open spec fn program(ts: Seq<TokenView>) -> Result<Seq<StatementView>, Failure> {
    statements(ts, 0, Seq::empty())
}

} // verus!
