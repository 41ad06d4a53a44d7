//! What holds of every node that the grammar yields: it has the shape that
//! its kind asks for, and it spans at least one token.

use crate::ast::{
    all_well_formed, ExpressionView, OpSymbol, StatementView, TagView, TypeView,
};
use crate::grammar::{
    advancing, arm, arms, ascription, atom, bindings, binary, block, block_items, call, call_args,
    combined_tag, destructure, expr, function, lemma_skip_newlines, list_items, match_expr,
    operands, operator, pattern, precedence, program, right_operand_level, simple_type,
    skip_newlines, statement, statements, tag, tag_assign, tag_group, tag_items, tag_operands,
    token_at, type_chain, type_expr, Failure, Outcome,
};
use crate::token::TokenView;
use vstd::prelude::*;

verus! {

/// A success ends after `pos` and within the tokens.
pub open spec fn spans<T>(ts: Seq<TokenView>, pos: int, outcome: Outcome<T>) -> bool {
    outcome matches Ok((_, next)) ==> pos < next <= ts.len()
}

/// A success ends at or after `pos`, and within the tokens if `pos` is.
pub open spec fn continues<T>(ts: Seq<TokenView>, pos: int, outcome: Outcome<T>) -> bool {
    outcome matches Ok((_, next)) ==> pos <= next && (pos <= ts.len() ==> next <= ts.len())
}

/// The guard that the grammar puts on an outcome before it goes on from
/// its end changes none that spans a token.
pub proof fn lemma_advancing<T>(ts: Seq<TokenView>, pos: int, outcome: Outcome<T>)
    requires
        spans(ts, pos, outcome),
    ensures
        advancing(ts, pos, outcome) == outcome,
{
}

/// Every tag of the run has its shape.
pub open spec fn all_tags(tags: Seq<TagView>) -> bool {
    forall|i: int| 0 <= i < tags.len() ==> (#[trigger] tags[i]).well_formed()
}

/// Every type of the run has its shape.
pub open spec fn all_types(types: Seq<TypeView>) -> bool {
    forall|i: int| 0 <= i < types.len() ==> (#[trigger] types[i]).well_formed()
}

/// Every expression of the run has its shape and is a match arm.
pub open spec fn all_arms(arms: Seq<ExpressionView>) -> bool {
    forall|i: int| 0 <= i < arms.len() ==> (#[trigger] arms[i]).well_formed() && arms[i].is_arm()
}

/// Every expression of the run has its shape and is a binding.
pub open spec fn all_bindings(assigns: Seq<ExpressionView>) -> bool {
    forall|i: int|
        0 <= i < assigns.len() ==> (#[trigger] assigns[i]).well_formed()
            && assigns[i] is ValueAssign
}

/// A pattern spans at least one token.
pub proof fn lemma_pattern(ts: Seq<TokenView>, pos: int)
    ensures
        spans(ts, pos, pattern(ts, pos)),
{
}

// Tags

/// A tag spans at least one token and has its shape.
pub proof fn lemma_tag(ts: Seq<TokenView>, pos: int)
    ensures
        spans(ts, pos, tag(ts, pos)),
        tag(ts, pos) matches Ok((node, _)) ==> node.well_formed(),
    decreases ts.len() - pos, 0int,
{
    if token_at(ts, pos) == Some(TokenView::TagStart) {
        lemma_tag_group(ts, pos + 1);
    }
}

proof fn lemma_tag_group(ts: Seq<TokenView>, pos: int)
    ensures
        spans(ts, pos, tag_group(ts, pos)),
        tag_group(ts, pos) matches Ok((node, _)) ==> node.well_formed(),
    decreases ts.len() - pos, 3int,
{
    if token_at(ts, pos) != Some(TokenView::Symbol('}')) {
        lemma_tag_items(ts, pos, Seq::empty());
    }
}

proof fn lemma_tag_items(ts: Seq<TokenView>, pos: int, done: Seq<TagView>)
    requires
        all_tags(done),
    ensures
        spans(ts, pos, tag_items(ts, pos, done)),
        tag_items(ts, pos, done) matches Ok((node, _)) ==> node.well_formed(),
    decreases ts.len() - pos, 2int,
{
    lemma_combined_tag(ts, pos);
    if let Ok((item, next)) = combined_tag(ts, pos) {
        if token_at(ts, next) == Some(TokenView::Symbol(',')) {
            lemma_tag_items(ts, next + 1, done.push(item));
        }
    }
}

proof fn lemma_combined_tag(ts: Seq<TokenView>, pos: int)
    ensures
        spans(ts, pos, combined_tag(ts, pos)),
        combined_tag(ts, pos) matches Ok((node, _)) ==> node.well_formed(),
    decreases ts.len() - pos, 1int,
{
    lemma_tag(ts, pos);
    if let Ok((first, next)) = tag(ts, pos) {
        lemma_tag_operands(ts, next, first);
    }
}

proof fn lemma_tag_operands(ts: Seq<TokenView>, pos: int, left: TagView)
    requires
        left.well_formed(),
    ensures
        continues(ts, pos, tag_operands(ts, pos, left)),
        tag_operands(ts, pos, left) matches Ok((node, _)) ==> node.well_formed(),
    decreases ts.len() - pos, 1int,
{
    if let Some(op) = operator(token_at(ts, pos)) {
        lemma_tag(ts, pos + 1);
        if let Ok((right, next)) = tag(ts, pos + 1) {
            lemma_tag_operands(ts, next, TagView::OpCall { op, args: seq![left, right] });
        }
    }
}

// Types

proof fn lemma_simple_type(ts: Seq<TokenView>, pos: int)
    ensures
        spans(ts, pos, simple_type(ts, pos)),
        simple_type(ts, pos) matches Ok((node, _)) ==> node.well_formed(),
    decreases ts.len() - pos, 0int,
{
    match token_at(ts, pos) {
        Some(TokenView::TagStart) => {
            lemma_tag_group(ts, pos + 1);
        },
        Some(TokenView::Symbol(c)) => {
            if c == '(' {
                lemma_type_chain(ts, pos + 1, Seq::empty());
            }
        },
        _ => {},
    }
}

proof fn lemma_type_chain(ts: Seq<TokenView>, pos: int, done: Seq<TypeView>)
    requires
        all_types(done),
    ensures
        spans(ts, pos, type_chain(ts, pos, done)),
        type_chain(ts, pos, done) matches Ok((node, _)) ==> node.well_formed(),
    decreases ts.len() - pos, 1int,
{
    lemma_simple_type(ts, pos);
    if let Ok((item, next)) = simple_type(ts, pos) {
        if token_at(ts, next) == Some(TokenView::SmallArrowRight) {
            lemma_type_chain(ts, next + 1, done.push(item));
        }
    }
}

/// A type spans at least one token and has its shape.
pub proof fn lemma_type_expr(ts: Seq<TokenView>, pos: int)
    ensures
        spans(ts, pos, type_expr(ts, pos)),
        type_expr(ts, pos) matches Ok((node, _)) ==> node.well_formed(),
{
    lemma_type_chain(ts, pos, Seq::empty());
}

// Expressions

proof fn lemma_atom(ts: Seq<TokenView>, pos: int)
    ensures
        spans(ts, pos, atom(ts, pos)),
        atom(ts, pos) matches Ok((node, _)) ==> node.well_formed(),
    decreases ts.len() - pos, 0int,
{
    match token_at(ts, pos) {
        Some(TokenView::Symbol(c)) => {
            if c == '(' {
                lemma_expr(ts, pos + 1);
            } else if c == '[' {
                if token_at(ts, pos + 1) != Some(TokenView::Symbol(']')) {
                    lemma_list_items(ts, pos + 1, Seq::empty());
                }
            }
        },
        _ => {},
    }
}

proof fn lemma_list_items(ts: Seq<TokenView>, pos: int, done: Seq<ExpressionView>)
    requires
        all_well_formed(done),
    ensures
        spans(ts, pos, list_items(ts, pos, done)),
        list_items(ts, pos, done) matches Ok((node, _)) ==> node.well_formed(),
    decreases ts.len() - pos, 9int,
{
    lemma_expr(ts, pos);
    if let Ok((item, next)) = expr(ts, pos) {
        if token_at(ts, next) == Some(TokenView::Symbol(',')) {
            lemma_list_items(ts, next + 1, done.push(item));
        }
    }
}

proof fn lemma_call(ts: Seq<TokenView>, pos: int)
    ensures
        spans(ts, pos, call(ts, pos)),
        call(ts, pos) matches Ok((node, _)) ==> node.well_formed(),
    decreases ts.len() - pos, 2int,
{
    match token_at(ts, pos) {
        Some(TokenView::Identifier(name)) => {
            lemma_call_args(ts, pos + 1, name, Seq::empty());
        },
        _ => {
            lemma_atom(ts, pos);
        },
    }
}

proof fn lemma_call_args(
    ts: Seq<TokenView>,
    pos: int,
    name: Seq<char>,
    done: Seq<ExpressionView>,
)
    requires
        all_well_formed(done),
    ensures
        continues(ts, pos, call_args(ts, pos, name, done)),
        call_args(ts, pos, name, done) matches Ok((node, _)) ==> node.well_formed(),
    decreases ts.len() - pos, 1int,
{
    lemma_atom(ts, pos);
    if let Ok((item, next)) = atom(ts, pos) {
        lemma_call_args(ts, next, name, done.push(item));
    }
}

proof fn lemma_binary(ts: Seq<TokenView>, pos: int, least: nat)
    ensures
        spans(ts, pos, binary(ts, pos, least)),
        binary(ts, pos, least) matches Ok((node, _)) ==> node.well_formed(),
    decreases ts.len() - pos, 3int,
{
    lemma_call(ts, pos);
    if let Ok((first, next)) = call(ts, pos) {
        lemma_operands(ts, next, least, first);
    }
}

proof fn lemma_operands(ts: Seq<TokenView>, pos: int, least: nat, left: ExpressionView)
    requires
        left.well_formed(),
    ensures
        continues(ts, pos, operands(ts, pos, least, left)),
        operands(ts, pos, least, left) matches Ok((node, _)) ==> node.well_formed(),
    decreases ts.len() - pos, 3int,
{
    if let Some(op) = operator(token_at(ts, pos)) {
        let level = right_operand_level(op);
        lemma_binary(ts, pos + 1, level);
        if let Ok((right, next)) = binary(ts, pos + 1, level) {
            lemma_operands(ts, next, least, ExpressionView::OpCall { op, args: seq![left, right] });
        }
    }
}

proof fn lemma_ascription(ts: Seq<TokenView>, pos: int)
    ensures
        spans(ts, pos, ascription(ts, pos)),
        ascription(ts, pos) matches Ok((node, _)) ==> node.well_formed(),
    decreases ts.len() - pos, 4int,
{
    lemma_binary(ts, pos, 0);
    if let Ok((inner, next)) = binary(ts, pos, 0) {
        lemma_type_expr(ts, next + 1);
    }
}

proof fn lemma_destructure(ts: Seq<TokenView>, pos: int)
    ensures
        spans(ts, pos, destructure(ts, pos)),
        destructure(ts, pos) matches Ok((node, _)) ==> node.well_formed(),
    decreases ts.len() - pos, 4int,
{
    if let Ok((pat, next)) = pattern(ts, pos) {
        if token_at(ts, next) == Some(TokenView::Indent) {
            lemma_block_items(ts, next + 1, Seq::empty());
        }
    }
}

proof fn lemma_tag_assign(ts: Seq<TokenView>, pos: int)
    ensures
        spans(ts, pos, tag_assign(ts, pos)),
        tag_assign(ts, pos) matches Ok((node, _)) ==> node.well_formed(),
{
    lemma_tag(ts, pos);
    if let Ok((target, next)) = tag(ts, pos) {
        lemma_tag(ts, next + 1);
    }
}

/// An expression spans at least one token and has the shape of its kind.
pub proof fn lemma_expr(ts: Seq<TokenView>, pos: int)
    ensures
        spans(ts, pos, expr(ts, pos)),
        expr(ts, pos) matches Ok((node, _)) ==> node.well_formed(),
    decreases ts.len() - pos, 5int,
{
    match token_at(ts, pos) {
        Some(TokenView::Let) => {
            lemma_bindings(ts, pos + 1, Seq::empty());
        },
        Some(TokenView::Match) => {
            lemma_match_expr(ts, pos + 1);
        },
        Some(TokenView::Tag) => {
            lemma_tag_assign(ts, pos + 1);
        },
        _ => {
            lemma_destructure(ts, pos);
            lemma_ascription(ts, pos);
        },
    }
}

proof fn lemma_bindings(ts: Seq<TokenView>, pos: int, done: Seq<ExpressionView>)
    requires
        all_bindings(done),
    ensures
        spans(ts, pos, bindings(ts, pos, done)),
        bindings(ts, pos, done) matches Ok((node, _)) ==> node.well_formed(),
    decreases ts.len() - pos, 6int,
{
    if let Ok((pat, equal)) = pattern(ts, pos) {
        if token_at(ts, equal) == Some(TokenView::Equal) {
            lemma_expr(ts, equal + 1);
            if let Ok((value, next)) = expr(ts, equal + 1) {
                let assigns = done.push(ExpressionView::ValueAssign { pat, expr: Box::new(value) });
                assert(all_bindings(assigns));
                if crate::grammar::starts_pattern(token_at(ts, next)) {
                    lemma_bindings(ts, next, assigns);
                } else if token_at(ts, next) == Some(TokenView::In) {
                    lemma_block(ts, next + 1);
                }
            }
        }
    }
}

proof fn lemma_match_expr(ts: Seq<TokenView>, pos: int)
    ensures
        spans(ts, pos, match_expr(ts, pos)),
        match_expr(ts, pos) matches Ok((node, _)) ==> node.well_formed(),
    decreases ts.len() - pos, 6int,
{
    lemma_expr(ts, pos);
    if let Ok((scrutinee, arrow)) = expr(ts, pos) {
        if token_at(ts, arrow) == Some(TokenView::LargeArrowRight) && token_at(ts, arrow + 1)
            == Some(TokenView::Indent) {
            lemma_arms(ts, arrow + 2, Seq::empty());
        }
    }
}

proof fn lemma_arms(ts: Seq<TokenView>, pos: int, done: Seq<ExpressionView>)
    requires
        all_arms(done),
    ensures
        spans(ts, pos, arms(ts, pos, done)),
        arms(ts, pos, done) matches Ok((nodes, _)) ==> nodes.len() > 0 && all_arms(nodes),
    decreases ts.len() - pos, 8int,
{
    let item = skip_newlines(ts, pos);
    lemma_skip_newlines(ts, pos);
    if let Ok((pat, arrow)) = pattern(ts, item) {
        if token_at(ts, arrow) == Some(TokenView::LargeArrowRight) {
            lemma_block(ts, arrow + 1);
            if let Ok((body, next)) = block(ts, arrow + 1) {
                let node = arm(pat, body);
                assert(node.well_formed() && node.is_arm());
                assert(all_arms(done.push(node)));
                lemma_arms(ts, next, done.push(node));
            }
        }
    }
}

/// A block holds at least one expression.
pub proof fn lemma_block(ts: Seq<TokenView>, pos: int)
    ensures
        spans(ts, pos, block(ts, pos)),
        block(ts, pos) matches Ok((nodes, _)) ==> nodes.len() > 0 && all_well_formed(nodes),
    decreases ts.len() - pos, 7int,
{
    if token_at(ts, pos) == Some(TokenView::Indent) {
        lemma_block_items(ts, pos + 1, Seq::empty());
    } else {
        lemma_expr(ts, pos);
    }
}

proof fn lemma_block_items(ts: Seq<TokenView>, pos: int, done: Seq<ExpressionView>)
    requires
        all_well_formed(done),
    ensures
        spans(ts, pos, block_items(ts, pos, done)),
        block_items(ts, pos, done) matches Ok((nodes, _)) ==> nodes.len() > 0 && all_well_formed(
            nodes,
        ),
    decreases ts.len() - pos, 8int,
{
    let item = skip_newlines(ts, pos);
    lemma_skip_newlines(ts, pos);
    lemma_expr(ts, item);
    if let Ok((next_item, next)) = expr(ts, item) {
        assert(all_well_formed(done.push(next_item)));
        lemma_block_items(ts, next, done.push(next_item));
    }
}

// Statements

proof fn lemma_function(ts: Seq<TokenView>, pos: int, name: Seq<char>, done: Seq<Seq<char>>)
    requires
        done.no_duplicates(),
    ensures
        spans(ts, pos, function(ts, pos, name, done)),
        function(ts, pos, name, done) matches Ok((node, _)) ==> node.well_formed(),
    decreases ts.len() - pos,
{
    match token_at(ts, pos) {
        Some(TokenView::Identifier(parameter)) => {
            if !done.contains(parameter) {
                let more = done.push(parameter);
                assert forall|i: int, j: int|
                    0 <= i < more.len() && 0 <= j < more.len() && i != j implies more[i]
                    != more[j] by {
                    if i < done.len() {
                        assert(done.contains(more[i]));
                    }
                    if j < done.len() {
                        assert(done.contains(more[j]));
                    }
                }
                lemma_function(ts, pos + 1, name, more);
            }
        },
        Some(TokenView::LargeArrowRight) => {
            lemma_block(ts, pos + 1);
        },
        _ => {},
    }
}

/// A statement spans at least one token and has the shape of its kind.
pub proof fn lemma_statement(ts: Seq<TokenView>, pos: int)
    ensures
        spans(ts, pos, statement(ts, pos)),
        statement(ts, pos) matches Ok((node, _)) ==> node.well_formed(),
{
    match token_at(ts, pos) {
        Some(TokenView::Identifier(name)) => {
            lemma_type_expr(ts, pos + 2);
            lemma_function(ts, pos + 1, name, Seq::empty());
        },
        _ => {},
    }
}

/// Every statement of the run has its shape.
pub open spec fn all_statements(statements: Seq<StatementView>) -> bool {
    forall|i: int| 0 <= i < statements.len() ==> (#[trigger] statements[i]).well_formed()
}

proof fn lemma_statements(ts: Seq<TokenView>, pos: int, done: Seq<StatementView>)
    requires
        all_statements(done),
    ensures
        statements(ts, pos, done) matches Ok(nodes) ==> all_statements(nodes),
    decreases ts.len() - pos,
{
    let item = skip_newlines(ts, pos);
    lemma_skip_newlines(ts, pos);
    lemma_statement(ts, item);
    if let Ok((next_item, next)) = statement(ts, item) {
        assert(all_statements(done.push(next_item)));
        if item < ts.len() {
            lemma_statements(ts, next, done.push(next_item));
        }
    }
}

/// Every statement of a program that parses has the shape of its kind, and
/// so has every node below it: a function names no parameter twice and has
/// a body, an operator has two operands, a match has arms, no block is empty.
pub proof fn lemma_program_is_well_formed(ts: Seq<TokenView>)
    ensures
        program(ts) matches Ok(nodes) ==> all_statements(nodes),
{
    lemma_statements(ts, 0, Seq::empty());
}

/// A number by itself is an operand.
proof fn lemma_number_is_an_operand(ts: Seq<TokenView>, pos: int, x: nat)
    requires
        token_at(ts, pos) == Some(TokenView::Integer(x)),
    ensures
        call(ts, pos) == Ok::<(ExpressionView, int), Failure>(
            (ExpressionView::Integer(x), pos + 1),
        ),
{
    assert(atom(ts, pos) == Ok::<(ExpressionView, int), Failure>(
        (ExpressionView::Integer(x), pos + 1),
    ));
}

/// An operand is followed by its operators.
proof fn lemma_binary_begins(
    ts: Seq<TokenView>,
    pos: int,
    least: nat,
    first: ExpressionView,
    next: int,
)
    requires
        call(ts, pos) == Ok::<(ExpressionView, int), Failure>((first, next)),
        pos < next <= ts.len(),
    ensures
        binary(ts, pos, least) == operands(ts, next, least, first),
{
}

/// Operators end where no operator stands, or one that binds too loosely.
proof fn lemma_operands_end(ts: Seq<TokenView>, pos: int, least: nat, left: ExpressionView)
    requires
        match operator(token_at(ts, pos)) {
            Some(op) => precedence(op) < least,
            None => true,
        },
    ensures
        operands(ts, pos, least, left) == Ok::<(ExpressionView, int), Failure>((left, pos)),
{
}

/// An operator that binds tightly enough takes the operand after it.
proof fn lemma_operands_go_on(
    ts: Seq<TokenView>,
    pos: int,
    least: nat,
    left: ExpressionView,
    op: OpSymbol,
    right: ExpressionView,
    next: int,
)
    requires
        operator(token_at(ts, pos)) == Some(op),
        precedence(op) >= least,
        binary(ts, pos + 1, right_operand_level(op)) == Ok::<(ExpressionView, int), Failure>(
            (right, next),
        ),
        pos + 1 < next <= ts.len(),
    ensures
        operands(ts, pos, least, left) == operands(
            ts,
            next,
            least,
            ExpressionView::OpCall { op, args: seq![left, right] },
        ),
{
}

/// Of two operators in a row, the second takes the operand between them if
/// it binds tighter than the first, or as tightly where both are the
/// exponentiation; else the first takes it, and its result is the left
/// operand of the second.
pub proof fn lemma_precedence(
    ts: Seq<TokenView>,
    x: nat,
    first: OpSymbol,
    y: nat,
    second: OpSymbol,
    z: nat,
)
    requires
        ts.len() == 5,
        ts[0] == TokenView::Integer(x),
        operator(Some(ts[1])) == Some(first),
        ts[2] == TokenView::Integer(y),
        operator(Some(ts[3])) == Some(second),
        ts[4] == TokenView::Integer(z),
    ensures
        binary(ts, 0, 0) == Ok::<(ExpressionView, int), Failure>(
            (
                if precedence(second) >= right_operand_level(first) {
                    ExpressionView::OpCall {
                        op: first,
                        args: seq![
                            ExpressionView::Integer(x),
                            ExpressionView::OpCall {
                                op: second,
                                args: seq![ExpressionView::Integer(y), ExpressionView::Integer(z)],
                            },
                        ],
                    }
                } else {
                    ExpressionView::OpCall {
                        op: second,
                        args: seq![
                            ExpressionView::OpCall {
                                op: first,
                                args: seq![ExpressionView::Integer(x), ExpressionView::Integer(y)],
                            },
                            ExpressionView::Integer(z),
                        ],
                    }
                },
                5,
            ),
        ),
{
    let nx = ExpressionView::Integer(x);
    let ny = ExpressionView::Integer(y);
    let nz = ExpressionView::Integer(z);
    let level = right_operand_level(first);
    lemma_number_is_an_operand(ts, 0, x);
    lemma_number_is_an_operand(ts, 2, y);
    lemma_number_is_an_operand(ts, 4, z);
    lemma_binary_begins(ts, 0, 0, nx, 1);
    lemma_binary_begins(ts, 2, level, ny, 3);
    if precedence(second) >= level {
        let inner = ExpressionView::OpCall { op: second, args: seq![ny, nz] };
        lemma_binary_begins(ts, 4, right_operand_level(second), nz, 5);
        lemma_operands_end(ts, 5, right_operand_level(second), nz);
        lemma_operands_go_on(ts, 3, level, ny, second, nz, 5);
        lemma_operands_end(ts, 5, level, inner);
        lemma_operands_go_on(ts, 1, 0, nx, first, inner, 5);
        lemma_operands_end(ts, 5, 0, ExpressionView::OpCall { op: first, args: seq![nx, inner] });
    } else {
        let inner = ExpressionView::OpCall { op: first, args: seq![nx, ny] };
        lemma_operands_end(ts, 3, level, ny);
        lemma_operands_go_on(ts, 1, 0, nx, first, ny, 3);
        lemma_binary_begins(ts, 4, right_operand_level(second), nz, 5);
        lemma_operands_end(ts, 5, right_operand_level(second), nz);
        lemma_operands_go_on(ts, 3, 0, inner, second, nz, 5);
        lemma_operands_end(ts, 5, 0, ExpressionView::OpCall { op: second, args: seq![inner, nz] });
    }
}

} // verus!
