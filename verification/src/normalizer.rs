//! The indentation normalizer: raw tokens to structural tokens.
//!
//! A stack of indentation depths, `[0]` at the start, decides what each
//! indentation marker turns into: a `Newline` at the depth of the current
//! block, an `Indent` below it, one `Dedent` for every block that a shallower
//! line closes. Every other token passes through unchanged.

use crate::error::{ErrorKind, Expected, Found, FoundView, ParseError, ParseErrorView};
use crate::scanner::{is_raw, lemma_scan_is_raw, scan_text};
use crate::token::{lexeme_views, Lexeme, LexemeView, Token, TokenView};
use vstd::prelude::*;

verus! {

/// A stack of depths as the normalizer keeps it: the outermost block at the
/// bottom, each nested block strictly deeper than the one around it.
pub open spec fn is_depth_stack(stack: Seq<nat>) -> bool {
    &&& stack.len() > 0
    &&& stack[0] == 0
    &&& forall|i: int, j: int| 0 <= i < j < stack.len() ==> stack[i] < stack[j]
}

/// The stack after every block deeper than `depth` has been closed.
pub open spec fn unwind(stack: Seq<nat>, depth: nat) -> Seq<nat>
    decreases stack.len(),
{
    if stack.len() > 0 && stack.last() > depth {
        unwind(stack.drop_last(), depth)
    } else {
        stack
    }
}

/// That many `Dedent` tokens.
pub open spec fn dedents(count: nat) -> Seq<TokenView> {
    Seq::new(count, |i: int| TokenView::Dedent)
}

/// What one marker of the given depth does to the stack, and the tokens that
/// stand for it; or, where it returns to a depth that no open block has, the
/// depth of the innermost block that is not deeper.
pub open spec fn resolve_marker(stack: Seq<nat>, depth: nat) -> Result<
    (Seq<nat>, Seq<TokenView>),
    nat,
>
    recommends
        is_depth_stack(stack),
{
    if depth == stack.last() {
        Ok((stack, seq![TokenView::Newline]))
    } else if depth > stack.last() {
        Ok((stack.push(depth), seq![TokenView::Indent]))
    } else {
        let rest = unwind(stack, depth);
        if rest.last() == depth {
            Ok((rest, dedents((stack.len() - rest.len()) as nat)))
        } else {
            Err(rest.last())
        }
    }
}

/// What a marker turns into.
#[derive(Debug, PartialEq, Eq, Clone, Copy)]
pub enum Layout {
    /// One `Newline`.
    Newline,
    /// One `Indent`.
    Indent,
    /// This many `Dedent` tokens, at least one.
    Dedent(usize),
}

impl View for Layout {
    type V = Seq<TokenView>;

    open spec fn view(&self) -> Seq<TokenView> {
        match self {
            Layout::Newline => seq![TokenView::Newline],
            Layout::Indent => seq![TokenView::Indent],
            Layout::Dedent(count) => dedents(*count as nat),
        }
    }
}

/// The normalizer's state: the depths of the blocks that are open.
pub struct Normalizer {
    stack: Vec<usize>,
}

impl View for Normalizer {
    type V = Seq<nat>;

    closed spec fn view(&self) -> Seq<nat> {
        Seq::new(self.stack@.len(), |i: int| self.stack@[i] as nat)
    }
}

proof fn lemma_unwind_prefix(stack: Seq<nat>, depth: nat, keep: int)
    requires
        0 <= keep <= stack.len(),
        forall|i: int| keep <= i < stack.len() ==> stack[i] > depth,
    ensures
        unwind(stack, depth) == unwind(stack.take(keep), depth),
    decreases stack.len() - keep,
{
    if keep < stack.len() {
        assert(stack.drop_last().take(keep) =~= stack.take(keep));
        lemma_unwind_prefix(stack.drop_last(), depth, keep);
    } else {
        assert(stack.take(keep) =~= stack);
    }
}

impl Normalizer {
    /// The stack is in order, with depth 0 at its bottom.
    pub open spec fn wf(&self) -> bool {
        is_depth_stack(self@)
    }

    /// No block is open but the outermost.
    pub fn new() -> (normalizer: Normalizer)
        ensures
            normalizer@ == seq![0nat],
            normalizer.wf(),
    {
        let mut stack: Vec<usize> = Vec::new();
        stack.push(0);
        let normalizer = Normalizer { stack };
        assert(normalizer@ =~= seq![0nat]);
        normalizer
    }

    /// Resolves one indentation marker. On an error the stack stays as it is.
    pub fn resolve(&mut self, depth: usize) -> (result: Result<Layout, usize>)
        requires
            old(self).wf(),
        ensures
            final(self).wf(),
            match resolve_marker(old(self)@, depth as nat) {
                Ok((stack, tokens)) => result is Ok && final(self)@ == stack && result->Ok_0@
                    == tokens,
                Err(expected) => result == Err::<Layout, usize>(expected as usize) && final(self)@
                    == old(self)@,
            },
    {
        let ghost before = self@;
        let top = self.stack[self.stack.len() - 1];
        assert(before.last() == top);
        if depth == top {
            Ok(Layout::Newline)
        } else if depth > top {
            self.stack.push(depth);
            assert(self@ =~= before.push(depth as nat));
            Ok(Layout::Indent)
        } else {
            let mut keep: usize = self.stack.len();
            while keep > 0 && self.stack[keep - 1] > depth
                invariant
                    keep <= self.stack.len(),
                    self@ == before,
                    is_depth_stack(before),
                    forall|i: int| keep <= i < before.len() ==> before[i] > depth,
                decreases keep,
            {
                keep -= 1;
            }
            proof {
                assert(before[0] == 0);
                lemma_unwind_prefix(before, depth as nat, keep as int);
                assert(unwind(before.take(keep as int), depth as nat) == before.take(keep as int));
                assert(before.take(keep as int).last() == before[keep - 1]);
            }
            if self.stack[keep - 1] == depth {
                let closed = self.stack.len() - keep;
                self.stack.truncate(keep);
                assert(self@ =~= before.take(keep as int));
                Ok(Layout::Dedent(closed))
            } else {
                Err(self.stack[keep - 1])
            }
        }
    }

    /// Closes every block that is still open, and says how many they were.
    pub fn finish(&mut self) -> (closed: usize)
        requires
            old(self).wf(),
        ensures
            final(self)@ == seq![0nat],
            final(self).wf(),
            closed == old(self)@.len() - 1,
    {
        let closed = self.stack.len() - 1;
        let ghost before = self@;
        self.stack.truncate(1);
        assert(self@ =~= seq![0nat]) by {
            assert(before[0] == 0);
        }
        closed
    }
}

/// The tokens, each at the same offset.
pub open spec fn stamp(tokens: Seq<TokenView>, offset: nat) -> Seq<LexemeView> {
    Seq::new(tokens.len(), |i: int| LexemeView { token: tokens[i], offset })
}

/// The offset that the closing tokens at the end of the input are given:
/// that of the last raw token.
pub open spec fn end_offset(raw: Seq<LexemeView>) -> nat {
    if raw.len() == 0 {
        0
    } else {
        raw.last().offset
    }
}

/// The result with the lexemes in `head` before it, if it is one.
pub open spec fn prepend(
    head: Seq<LexemeView>,
    rest: Result<Seq<LexemeView>, ParseErrorView>,
) -> Result<Seq<LexemeView>, ParseErrorView> {
    match rest {
        Ok(tail) => Ok(head + tail),
        Err(error) => Err(error),
    }
}

/// The error for a marker that returns to a depth no open block has.
pub open spec fn indentation_error(
    marker: LexemeView,
    depth: nat,
    expected: nat,
) -> ParseErrorView {
    ParseErrorView {
        kind: ErrorKind::IndentationError,
        position: marker.offset,
        found: FoundView::Depth(depth),
        expected: Expected::Depth(expected as usize),
    }
}

/// The error for a token at which the scanner gave up.
pub open spec fn lex_error(lexeme: LexemeView) -> ParseErrorView {
    ParseErrorView {
        kind: ErrorKind::LexError,
        position: lexeme.offset,
        found: FoundView::Token(lexeme.token),
        expected: Expected::Token,
    }
}

/// The structural tokens for the raw tokens from index `i` on, with `stack`
/// the blocks open there. At the end of the input every open block is closed.
pub open spec fn normalize_from(raw: Seq<LexemeView>, i: int, stack: Seq<nat>) -> Result<
    Seq<LexemeView>,
    ParseErrorView,
>
    decreases raw.len() - i,
{
    if !(0 <= i < raw.len()) {
        Ok(stamp(dedents((stack.len() - 1) as nat), end_offset(raw)))
    } else {
        match raw[i].token {
            TokenView::Indentation(depth) => match resolve_marker(stack, depth) {
                Ok((next, tokens)) => prepend(
                    stamp(tokens, raw[i].offset),
                    normalize_from(raw, i + 1, next),
                ),
                Err(expected) => Err(indentation_error(raw[i], depth, expected)),
            },
            TokenView::LexError => Err(lex_error(raw[i])),
            _ => prepend(seq![raw[i]], normalize_from(raw, i + 1, stack)),
        }
    }
}

/// The structural tokens that come before the first error, from index `i`
/// on; all of them, where there is no error.
pub open spec fn prefix_from(raw: Seq<LexemeView>, i: int, stack: Seq<nat>) -> Seq<LexemeView>
    decreases raw.len() - i,
{
    if !(0 <= i < raw.len()) {
        stamp(dedents((stack.len() - 1) as nat), end_offset(raw))
    } else {
        match raw[i].token {
            TokenView::Indentation(depth) => match resolve_marker(stack, depth) {
                Ok((next, tokens)) => stamp(tokens, raw[i].offset) + prefix_from(raw, i + 1, next),
                Err(_) => Seq::empty(),
            },
            TokenView::LexError => Seq::empty(),
            _ => seq![raw[i]] + prefix_from(raw, i + 1, stack),
        }
    }
}

/// The structural tokens that a reader of the stream sees before the
/// normalizer fails; the whole stream, where it does not fail.
pub open spec fn normalized_prefix(raw: Seq<LexemeView>) -> Seq<LexemeView> {
    prefix_from(raw, 0, seq![0nat])
}

/// The structural token stream of a raw token stream.
pub open spec fn normalize_tokens(raw: Seq<LexemeView>) -> Result<Seq<LexemeView>, ParseErrorView> {
    normalize_from(raw, 0, seq![0nat])
}

fn push_layout(out: &mut Vec<Lexeme>, layout: Layout, offset: usize)
    ensures
        lexeme_views(final(out)@) == lexeme_views(old(out)@) + stamp(layout@, offset as nat),
{
    let ghost before = lexeme_views(out@);
    match layout {
        Layout::Newline => {
            out.push(Lexeme { token: Token::Newline, offset });
            assert(lexeme_views(out@) =~= before + stamp(layout@, offset as nat));
        },
        Layout::Indent => {
            out.push(Lexeme { token: Token::Indent, offset });
            assert(lexeme_views(out@) =~= before + stamp(layout@, offset as nat));
        },
        Layout::Dedent(count) => {
            let mut pushed: usize = 0;
            assert(lexeme_views(out@) =~= before + stamp(dedents(0), offset as nat));
            while pushed < count
                invariant
                    pushed <= count,
                    lexeme_views(out@) == before + stamp(dedents(pushed as nat), offset as nat),
                decreases count - pushed,
            {
                let ghost sofar = lexeme_views(out@);
                out.push(Lexeme { token: Token::Dedent, offset });
                pushed += 1;
                assert(lexeme_views(out@) =~= sofar.push(
                    LexemeView { token: TokenView::Dedent, offset: offset as nat },
                ));
                assert(lexeme_views(out@) =~= before + stamp(
                    dedents(pushed as nat),
                    offset as nat,
                ));
            }
        },
    }
}

/// The structural tokens of a raw token stream up to the first error, and
/// that error: what one who reads the structural tokens in order sees. With
/// no error, the tokens are the whole stream, the open blocks closed at its
/// end.
pub fn normalize_prefix(raw: &Vec<Lexeme>) -> (result: (Vec<Lexeme>, Option<ParseError>))
    ensures
        lexeme_views(result.0@) == normalized_prefix(lexeme_views(raw@)),
        match result.1 {
            None => normalize_tokens(lexeme_views(raw@)) == Ok::<Seq<LexemeView>, ParseErrorView>(
                lexeme_views(result.0@),
            ),
            Some(error) => normalize_tokens(lexeme_views(raw@)) == Err::<
                Seq<LexemeView>,
                ParseErrorView,
            >(error@),
        },
{
    let ghost input = lexeme_views(raw@);
    let mut normalizer = Normalizer::new();
    let mut out: Vec<Lexeme> = Vec::new();
    let mut i: usize = 0;
    assert(lexeme_views(out@) =~= Seq::<LexemeView>::empty());
    assert(forall|tail: Seq<LexemeView>| Seq::<LexemeView>::empty() + tail =~= tail);
    assert(forall|head: Seq<LexemeView>| head + Seq::<LexemeView>::empty() =~= head);
    while i < raw.len()
        invariant
            i <= raw.len(),
            input == lexeme_views(raw@),
            normalizer.wf(),
            normalize_tokens(input) == prepend(
                lexeme_views(out@),
                normalize_from(input, i as int, normalizer@),
            ),
            normalized_prefix(input) == lexeme_views(out@) + prefix_from(
                input,
                i as int,
                normalizer@,
            ),
            forall|head: Seq<LexemeView>| head + Seq::<LexemeView>::empty() =~= head,
        decreases raw.len() - i,
    {
        let ghost before = lexeme_views(out@);
        let ghost stack = normalizer@;
        let ghost rest = normalize_from(input, i + 1, stack);
        let ghost seen = prefix_from(input, i + 1, stack);
        let offset = raw[i].offset;
        assert(input[i as int] == raw@[i as int]@);
        match &raw[i].token {
            Token::Indentation(depth) => {
                match normalizer.resolve(*depth) {
                    Ok(layout) => {
                        push_layout(&mut out, layout, offset);
                        let ghost step = stamp(layout@, offset as nat);
                        let ghost rest = normalize_from(input, i + 1, normalizer@);
                        let ghost seen = prefix_from(input, i + 1, normalizer@);
                        assert(prepend(before, prepend(step, rest)) == prepend(before + step, rest))
                            by {
                            if let Ok(tail) = rest {
                                assert(before + (step + tail) =~= (before + step) + tail);
                            }
                        }
                        assert(before + (step + seen) =~= (before + step) + seen);
                    },
                    Err(expected) => {
                        let error = ParseError {
                            kind: ErrorKind::IndentationError,
                            position: offset,
                            found: Found::Depth(*depth),
                            expected: Expected::Depth(expected),
                        };
                        return (out, Some(error));
                    },
                }
            },
            Token::LexError => {
                let error = ParseError {
                    kind: ErrorKind::LexError,
                    position: offset,
                    found: Found::Token(Token::LexError),
                    expected: Expected::Token,
                };
                return (out, Some(error));
            },
            _ => {
                out.push(raw[i].clone());
                let ghost step = seq![input[i as int]];
                assert(lexeme_views(out@) =~= before + step);
                assert(prepend(before, prepend(step, rest)) == prepend(before + step, rest)) by {
                    if let Ok(tail) = rest {
                        assert(before + (step + tail) =~= (before + step) + tail);
                    }
                }
                assert(before + (step + seen) =~= (before + step) + seen);
            },
        }
        i += 1;
    }
    let offset = if raw.len() == 0 {
        0
    } else {
        raw[raw.len() - 1].offset
    };
    assert(offset == end_offset(input));
    let closed = normalizer.finish();
    push_layout(&mut out, Layout::Dedent(closed), offset);
    (out, None)
}

/// Rewrites every indentation marker of a raw token stream into the
/// structural tokens that stand for it, and closes the blocks still open at
/// the end. Fails at the first marker that returns to a depth no open block
/// has, and at a token at which the scanner gave up.
pub fn normalize(raw: &Vec<Lexeme>) -> (result: Result<Vec<Lexeme>, ParseError>)
    ensures
        match result {
            Ok(tokens) => normalize_tokens(lexeme_views(raw@)) == Ok::<
                Seq<LexemeView>,
                ParseErrorView,
            >(lexeme_views(tokens@)),
            Err(error) => normalize_tokens(lexeme_views(raw@)) == Err::<
                Seq<LexemeView>,
                ParseErrorView,
            >(error@),
        },
{
    match normalize_prefix(raw) {
        (tokens, None) => Ok(tokens),
        (_, Some(error)) => Err(error),
    }
}

/// How many of the lexemes hold the given token.
pub open spec fn count_of(lexemes: Seq<LexemeView>, token: TokenView) -> nat
    decreases lexemes.len(),
{
    if lexemes.len() == 0 {
        0
    } else {
        count_of(lexemes.drop_last(), token) + if lexemes.last().token == token {
            1nat
        } else {
            0nat
        }
    }
}

proof fn lemma_count_concat(a: Seq<LexemeView>, b: Seq<LexemeView>, token: TokenView)
    ensures
        count_of(a + b, token) == count_of(a, token) + count_of(b, token),
    decreases b.len(),
{
    if b.len() == 0 {
        assert(a + b =~= a);
    } else {
        assert((a + b).drop_last() =~= a + b.drop_last());
        lemma_count_concat(a, b.drop_last(), token);
    }
}

proof fn lemma_count_single(lexeme: LexemeView, token: TokenView)
    ensures
        count_of(seq![lexeme], token) == if lexeme.token == token {
            1nat
        } else {
            0nat
        },
{
    assert(seq![lexeme].drop_last() =~= Seq::<LexemeView>::empty());
    reveal_with_fuel(count_of, 2);
}

proof fn lemma_count_dedents(count: nat, offset: nat)
    ensures
        count_of(stamp(dedents(count), offset), TokenView::Dedent) == count,
        count_of(stamp(dedents(count), offset), TokenView::Indent) == 0,
    decreases count,
{
    if count > 0 {
        assert(stamp(dedents(count), offset).drop_last() =~= stamp(
            dedents((count - 1) as nat),
            offset,
        ));
        lemma_count_dedents((count - 1) as nat, offset);
    }
}

/// Unwinding keeps a prefix of the stack: the blocks that are not deeper
/// than the marker.
pub proof fn lemma_unwind(stack: Seq<nat>, depth: nat)
    requires
        is_depth_stack(stack),
    ensures
        ({
            let rest = unwind(stack, depth);
            &&& 0 < rest.len() <= stack.len()
            &&& rest == stack.take(rest.len() as int)
            &&& rest.last() <= depth
            &&& forall|i: int| rest.len() <= i < stack.len() ==> stack[i] > depth
            &&& is_depth_stack(rest)
        }),
    decreases stack.len(),
{
    if stack.last() > depth {
        let shorter = stack.drop_last();
        assert(stack.len() >= 2) by {
            if stack.len() == 1 {
                assert(stack.last() == stack[0]);
            }
        }
        assert(shorter[0] == stack[0]);
        assert(is_depth_stack(shorter)) by {
            assert forall|i: int, j: int| 0 <= i < j < shorter.len() implies shorter[i]
                < shorter[j] by {
                assert(shorter[i] == stack[i] && shorter[j] == stack[j]);
            }
        }
        lemma_unwind(shorter, depth);
        let rest = unwind(shorter, depth);
        assert(shorter.take(rest.len() as int) =~= stack.take(rest.len() as int));
        assert forall|i: int| rest.len() <= i < stack.len() implies stack[i] > depth by {
            if i < shorter.len() {
                assert(shorter[i] == stack[i]);
            }
        }
    } else {
        assert(stack.take(stack.len() as int) =~= stack);
    }
}

/// A marker is refused exactly if it returns to a depth that no open block
/// has; it is never taken for the nearest depth that one has.
pub proof fn lemma_untracked_depth(stack: Seq<nat>, depth: nat)
    requires
        is_depth_stack(stack),
    ensures
        resolve_marker(stack, depth) is Err <==> depth < stack.last() && !stack.contains(depth),
        resolve_marker(stack, depth) matches Ok((next, tokens)) ==> is_depth_stack(next),
{
    lemma_unwind(stack, depth);
    let rest = unwind(stack, depth);
    if depth == stack.last() {
        assert(stack[stack.len() - 1] == depth);
    } else if depth > stack.last() {
        let next = stack.push(depth);
        assert forall|i: int, j: int| 0 <= i < j < next.len() implies next[i] < next[j] by {
            if j == stack.len() {
                assert(stack[i] <= stack.last());
            }
        }
    } else if rest.last() == depth {
        assert(stack[rest.len() - 1] == depth);
    } else {
        if stack.contains(depth) {
            let j = choose|j: int| 0 <= j < stack.len() && stack[j] == depth;
            assert(j < rest.len());
            assert(rest[j] == stack[j]);
            assert(j < rest.len() - 1 ==> rest[j] < rest[rest.len() - 1]);
        }
    }
}

proof fn lemma_balance_from(raw: Seq<LexemeView>, i: int, stack: Seq<nat>)
    requires
        0 <= i <= raw.len(),
        is_depth_stack(stack),
        normalize_from(raw, i, stack) is Ok,
    ensures
        ({
            let out = normalize_from(raw, i, stack)->Ok_0;
            count_of(out, TokenView::Indent) + stack.len() - 1 - count_of(
                raw.skip(i),
                TokenView::Indent,
            ) == count_of(out, TokenView::Dedent) - count_of(raw.skip(i), TokenView::Dedent)
        }),
    decreases raw.len() - i,
{
    let out = normalize_from(raw, i, stack)->Ok_0;
    if i == raw.len() {
        lemma_count_dedents((stack.len() - 1) as nat, end_offset(raw));
        assert(raw.skip(i) =~= Seq::<LexemeView>::empty());
    } else {
        let here = seq![raw[i]];
        assert(raw.skip(i) =~= here + raw.skip(i + 1));
        lemma_count_concat(here, raw.skip(i + 1), TokenView::Indent);
        lemma_count_concat(here, raw.skip(i + 1), TokenView::Dedent);
        lemma_count_single(raw[i], TokenView::Indent);
        lemma_count_single(raw[i], TokenView::Dedent);
        match raw[i].token {
            TokenView::Indentation(depth) => {
                lemma_untracked_depth(stack, depth);
                lemma_unwind(stack, depth);
                let (next, tokens) = resolve_marker(stack, depth)->Ok_0;
                let step = stamp(tokens, raw[i].offset);
                let tail = normalize_from(raw, i + 1, next)->Ok_0;
                lemma_balance_from(raw, i + 1, next);
                lemma_count_concat(step, tail, TokenView::Indent);
                lemma_count_concat(step, tail, TokenView::Dedent);
                if depth == stack.last() {
                    assert(step =~= seq![
                        LexemeView { token: TokenView::Newline, offset: raw[i].offset },
                    ]);
                    lemma_count_single(step[0], TokenView::Indent);
                    lemma_count_single(step[0], TokenView::Dedent);
                } else if depth > stack.last() {
                    assert(step =~= seq![
                        LexemeView { token: TokenView::Indent, offset: raw[i].offset },
                    ]);
                    lemma_count_single(step[0], TokenView::Indent);
                    lemma_count_single(step[0], TokenView::Dedent);
                } else {
                    lemma_count_dedents((stack.len() - next.len()) as nat, raw[i].offset);
                }
            },
            TokenView::LexError => {},
            _ => {
                let tail = normalize_from(raw, i + 1, stack)->Ok_0;
                lemma_balance_from(raw, i + 1, stack);
                lemma_count_concat(here, tail, TokenView::Indent);
                lemma_count_concat(here, tail, TokenView::Dedent);
            },
        }
    }
}

/// The normalizer inserts as many `Indent` tokens as `Dedent` tokens: every
/// block that it opens it also closes. A raw stream from the scanner holds
/// neither, so what comes out of it holds as many of the one as of the other.
pub proof fn lemma_indents_balance_dedents(raw: Seq<LexemeView>)
    requires
        normalize_tokens(raw) is Ok,
    ensures
        ({
            let out = normalize_tokens(raw)->Ok_0;
            count_of(out, TokenView::Indent) - count_of(raw, TokenView::Indent) == count_of(
                out,
                TokenView::Dedent,
            ) - count_of(raw, TokenView::Dedent)
        }),
{
    assert(raw.skip(0) =~= raw);
    lemma_balance_from(raw, 0, seq![0nat]);
}

/// A raw stream without indentation: every marker, if there is one, has
/// depth 0, and the scanner gave up nowhere.
pub open spec fn is_flat(raw: Seq<LexemeView>) -> bool {
    forall|i: int|
        0 <= i < raw.len() ==> match (#[trigger] raw[i]).token {
            TokenView::Indentation(depth) => depth == 0,
            TokenView::LexError => false,
            _ => true,
        }
}

/// The stream with a `Newline` in the place of every marker.
pub open spec fn with_newlines(raw: Seq<LexemeView>) -> Seq<LexemeView> {
    Seq::new(
        raw.len(),
        |i: int|
            if raw[i].token is Indentation {
                LexemeView { token: TokenView::Newline, offset: raw[i].offset }
            } else {
                raw[i]
            },
    )
}

proof fn lemma_flat_from(raw: Seq<LexemeView>, i: int)
    requires
        0 <= i <= raw.len(),
        is_flat(raw),
    ensures
        normalize_from(raw, i, seq![0nat]) == Ok::<Seq<LexemeView>, ParseErrorView>(
            with_newlines(raw).skip(i),
        ),
    decreases raw.len() - i,
{
    let flat = with_newlines(raw);
    if i == raw.len() {
        assert(stamp(dedents(0), end_offset(raw)) =~= flat.skip(i));
    } else {
        lemma_flat_from(raw, i + 1);
        assert(raw[i].token !is LexError);
        match raw[i].token {
            TokenView::Indentation(depth) => {
                assert(depth == 0);
                assert(stamp(seq![TokenView::Newline], raw[i].offset) + flat.skip(i + 1)
                    =~= flat.skip(i));
            },
            _ => {
                assert(seq![raw[i]] + flat.skip(i + 1) =~= flat.skip(i));
            },
        }
    }
}

/// Where no line is indented, the normalizer opens and closes no block: it
/// puts a `Newline` in the place of every marker and changes nothing else.
pub proof fn lemma_flat_text_has_no_blocks(raw: Seq<LexemeView>)
    requires
        is_flat(raw),
    ensures
        normalize_tokens(raw) == Ok::<Seq<LexemeView>, ParseErrorView>(with_newlines(raw)),
        count_of(with_newlines(raw), TokenView::Indent) == count_of(raw, TokenView::Indent),
        count_of(with_newlines(raw), TokenView::Dedent) == count_of(raw, TokenView::Dedent),
{
    lemma_flat_from(raw, 0);
    assert(with_newlines(raw).skip(0) =~= with_newlines(raw));
    lemma_indents_balance_dedents(raw);
    lemma_same_count(raw, TokenView::Indent);
    lemma_same_count(raw, TokenView::Dedent);
}

/// A source text in which no line is indented has no blocks: its structural
/// tokens are its raw tokens with a `Newline` for every line break.
pub proof fn lemma_flat_source_has_no_blocks(source: Seq<char>)
    requires
        forall|i: int|
            0 <= i < scan_text(source).len() ==> ((#[trigger] scan_text(source)[i]).token
                matches TokenView::Indentation(depth) ==> depth == 0),
    ensures
        normalize_tokens(scan_text(source)) == Ok::<Seq<LexemeView>, ParseErrorView>(
            with_newlines(scan_text(source)),
        ),
        count_of(with_newlines(scan_text(source)), TokenView::Indent) == 0,
        count_of(with_newlines(scan_text(source)), TokenView::Dedent) == 0,
{
    let raw = scan_text(source);
    lemma_scan_is_raw(source, 0);
    assert(is_flat(raw)) by {
        assert forall|i: int| 0 <= i < raw.len() implies match (#[trigger] raw[i]).token {
            TokenView::Indentation(depth) => depth == 0,
            TokenView::LexError => false,
            _ => true,
        } by {
            assert(is_raw(raw[i].token));
        }
    }
    lemma_flat_text_has_no_blocks(raw);
    lemma_count_absent(raw, TokenView::Indent);
    lemma_count_absent(raw, TokenView::Dedent);
}

proof fn lemma_same_count(raw: Seq<LexemeView>, token: TokenView)
    requires
        token is Indent || token is Dedent,
    ensures
        count_of(with_newlines(raw), token) == count_of(raw, token),
    decreases raw.len(),
{
    if raw.len() > 0 {
        assert(with_newlines(raw).drop_last() =~= with_newlines(raw.drop_last()));
        lemma_same_count(raw.drop_last(), token);
    }
}

proof fn lemma_count_absent(lexemes: Seq<LexemeView>, token: TokenView)
    requires
        forall|i: int| 0 <= i < lexemes.len() ==> (#[trigger] lexemes[i]).token != token,
    ensures
        count_of(lexemes, token) == 0,
    decreases lexemes.len(),
{
    if lexemes.len() > 0 {
        let shorter = lexemes.drop_last();
        assert forall|i: int| 0 <= i < shorter.len() implies (#[trigger] shorter[i]).token
            != token by {
            assert(shorter[i] == lexemes[i]);
        }
        lemma_count_absent(shorter, token);
        assert(lexemes.last() == lexemes[lexemes.len() - 1]);
    }
}

/// In the structural tokens of a source text every `Indent` has its
/// `Dedent`: there are as many of the one as of the other.
pub proof fn lemma_blocks_balance(source: Seq<char>)
    requires
        normalize_tokens(scan_text(source)) is Ok,
    ensures
        ({
            let out = normalize_tokens(scan_text(source))->Ok_0;
            count_of(out, TokenView::Indent) == count_of(out, TokenView::Dedent)
        }),
{
    let raw = scan_text(source);
    lemma_scan_is_raw(source, 0);
    lemma_count_absent(raw, TokenView::Indent);
    lemma_count_absent(raw, TokenView::Dedent);
    lemma_indents_balance_dedents(raw);
}

/// A token that has to do with the layout of the text: a marker, or one of
/// the tokens that stand for markers.
pub open spec fn is_layout(token: TokenView) -> bool {
    token is Indentation || token is Newline || token is Indent || token is Dedent
}

/// The lexemes that have nothing to do with layout, in order.
pub open spec fn content(lexemes: Seq<LexemeView>) -> Seq<LexemeView>
    decreases lexemes.len(),
{
    if lexemes.len() == 0 {
        Seq::empty()
    } else if is_layout(lexemes.last().token) {
        content(lexemes.drop_last())
    } else {
        content(lexemes.drop_last()).push(lexemes.last())
    }
}

proof fn lemma_content_concat(a: Seq<LexemeView>, b: Seq<LexemeView>)
    ensures
        content(a + b) == content(a) + content(b),
    decreases b.len(),
{
    if b.len() == 0 {
        assert(a + b =~= a);
        assert(content(a) + content(b) =~= content(a));
    } else {
        assert((a + b).drop_last() =~= a + b.drop_last());
        lemma_content_concat(a, b.drop_last());
        if !is_layout(b.last().token) {
            assert((content(a) + content(b.drop_last())).push(b.last()) =~= content(a) + content(
                b.drop_last(),
            ).push(b.last()));
        }
    }
}

proof fn lemma_content_of_layout(lexemes: Seq<LexemeView>)
    requires
        forall|i: int| 0 <= i < lexemes.len() ==> is_layout((#[trigger] lexemes[i]).token),
    ensures
        content(lexemes) == Seq::<LexemeView>::empty(),
    decreases lexemes.len(),
{
    if lexemes.len() > 0 {
        let shorter = lexemes.drop_last();
        assert forall|i: int| 0 <= i < shorter.len() implies is_layout(
            (#[trigger] shorter[i]).token,
        ) by {
            assert(shorter[i] == lexemes[i]);
        }
        lemma_content_of_layout(shorter);
        assert(is_layout(lexemes[lexemes.len() - 1].token));
    }
}

proof fn lemma_content_single(lexeme: LexemeView)
    ensures
        content(seq![lexeme]) == if is_layout(lexeme.token) {
            Seq::<LexemeView>::empty()
        } else {
            seq![lexeme]
        },
{
    assert(seq![lexeme].drop_last() =~= Seq::<LexemeView>::empty());
    reveal_with_fuel(content, 2);
    assert(Seq::<LexemeView>::empty().push(lexeme) =~= seq![lexeme]);
}

proof fn lemma_passes_from(raw: Seq<LexemeView>, i: int, stack: Seq<nat>)
    requires
        0 <= i <= raw.len(),
        normalize_from(raw, i, stack) is Ok,
    ensures
        ({
            let out = normalize_from(raw, i, stack)->Ok_0;
            &&& content(out) == content(raw.skip(i))
            &&& forall|k: int| 0 <= k < out.len() ==> (#[trigger] out[k]).token !is Indentation
        }),
    decreases raw.len() - i,
{
    let out = normalize_from(raw, i, stack)->Ok_0;
    if i == raw.len() {
        lemma_content_of_layout(out);
        assert(raw.skip(i) =~= Seq::<LexemeView>::empty());
    } else {
        let here = seq![raw[i]];
        assert(raw.skip(i) =~= here + raw.skip(i + 1));
        lemma_content_concat(here, raw.skip(i + 1));
        lemma_content_single(raw[i]);
        match raw[i].token {
            TokenView::Indentation(depth) => {
                let (next, tokens) = resolve_marker(stack, depth)->Ok_0;
                let step = stamp(tokens, raw[i].offset);
                let tail = normalize_from(raw, i + 1, next)->Ok_0;
                lemma_passes_from(raw, i + 1, next);
                lemma_content_concat(step, tail);
                lemma_content_of_layout(step);
                assert(content(step) + content(tail) =~= content(tail));
                assert(Seq::<LexemeView>::empty() + content(raw.skip(i + 1)) =~= content(
                    raw.skip(i + 1),
                ));
                assert forall|k: int| 0 <= k < out.len() implies (#[trigger] out[k]).token
                    !is Indentation by {
                    if k >= step.len() {
                        assert(out[k] == tail[k - step.len()]);
                    }
                }
            },
            TokenView::LexError => {},
            _ => {
                let tail = normalize_from(raw, i + 1, stack)->Ok_0;
                lemma_passes_from(raw, i + 1, stack);
                lemma_content_concat(here, tail);
                assert forall|k: int| 0 <= k < out.len() implies (#[trigger] out[k]).token
                    !is Indentation by {
                    if k >= 1 {
                        assert(out[k] == tail[k - 1]);
                    }
                }
            },
        }
    }
}

/// No marker reaches the parser, and nothing else is lost on the way: but
/// for the tokens of layout, what comes out of the normalizer is what went
/// in, in the same order and at the same offsets.
pub proof fn lemma_only_layout_changes(raw: Seq<LexemeView>)
    requires
        normalize_tokens(raw) is Ok,
    ensures
        ({
            let out = normalize_tokens(raw)->Ok_0;
            &&& content(out) == content(raw)
            &&& forall|k: int| 0 <= k < out.len() ==> (#[trigger] out[k]).token !is Indentation
        }),
{
    assert(raw.skip(0) =~= raw);
    lemma_passes_from(raw, 0, seq![0nat]);
}

} // verus!
