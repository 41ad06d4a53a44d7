//! The scanner: source text to raw tokens.

use crate::integer::{decimal_value, is_decimal_literal, is_digit, Integer};
use crate::token::{lexeme_views, Lexeme, LexemeView, Token, TokenView};
use vstd::prelude::*;

verus! {

/// `String::push` appends one character to the end of the string.
pub assume_specification[ String::push ](text: &mut String, c: char)
    ensures
        final(text)@ == old(text)@.push(c),
;

/// The characters of a text, one element each.
pub fn characters(source: &str) -> (chars: Vec<char>)
    ensures
        chars@ == source@,
{
    let mut chars: Vec<char> = Vec::new();
    for c in it: source.chars()
        invariant
            chars@ == it.seq().take(it.index() as int),
            it.seq() == source@,
    {
        chars.push(c);
    }
    chars
}

/// The text between two offsets.
fn slice_text(chars: &Vec<char>, from: usize, to: usize) -> (text: String)
    requires
        from <= to <= chars.len(),
    ensures
        text@ == chars@.subrange(from as int, to as int),
{
    let mut text = String::new();
    let mut i: usize = from;
    while i < to
        invariant
            from <= i <= to <= chars.len(),
            text@ == chars@.subrange(from as int, i as int),
        decreases to - i,
    {
        text.push(chars[i]);
        i += 1;
        assert(chars@.subrange(from as int, i as int) == chars@.subrange(from as int, i - 1).push(
            chars@[i - 1],
        ));
    }
    text
}

/// Blank space within a line: every character of Unicode's white space but
/// the line feed.
pub open spec fn is_space(c: char) -> bool {
    let code = c as u32;
    ||| code == 0x09
    ||| code == 0x0b
    ||| code == 0x0c
    ||| code == 0x0d
    ||| code == 0x20
    ||| code == 0x85
    ||| code == 0xa0
    ||| code == 0x1680
    ||| 0x2000 <= code <= 0x200a
    ||| code == 0x2028
    ||| code == 0x2029
    ||| code == 0x202f
    ||| code == 0x205f
    ||| code == 0x3000
}

fn test_space(c: char) -> (b: bool)
    ensures
        b == is_space(c),
{
    let code: u32 = c as u32;
    code == 0x09 || code == 0x0b || code == 0x0c || code == 0x0d || code == 0x20 || code == 0x85
        || code == 0xa0 || code == 0x1680 || (0x2000 <= code && code <= 0x200a) || code == 0x2028
        || code == 0x2029 || code == 0x202f || code == 0x205f || code == 0x3000
}

/// An ASCII letter.
pub open spec fn is_letter(c: char) -> bool {
    ('a' <= c <= 'z') || ('A' <= c <= 'Z')
}

/// ASCII punctuation: every printable ASCII character but letters, digits
/// and the space.
pub open spec fn is_punctuation(c: char) -> bool {
    ('!' <= c <= '/') || (':' <= c <= '@') || ('[' <= c <= '`') || ('{' <= c <= '~')
}

/// The classes of characters that a lexeme may run over.
#[derive(Clone, Copy)]
pub enum CharClass {
    /// `0` to `9`.
    Digit,
    /// A digit or the separator `_`.
    Numeral,
    /// A letter, a digit or `_`.
    Word,
    /// Anything but a double quote.
    Unquoted,
}

impl CharClass {
    /// Whether the character is of the class.
    pub open spec fn holds(self, c: char) -> bool {
        match self {
            CharClass::Digit => is_digit(c),
            CharClass::Numeral => is_digit(c) || c == '_',
            CharClass::Word => is_letter(c) || is_digit(c) || c == '_',
            CharClass::Unquoted => c != '"',
        }
    }

    fn test(self, c: char) -> (b: bool)
        ensures
            b == self.holds(c),
    {
        match self {
            CharClass::Digit => '0' <= c && c <= '9',
            CharClass::Numeral => ('0' <= c && c <= '9') || c == '_',
            CharClass::Word => ('a' <= c && c <= 'z') || ('A' <= c && c <= 'Z') || ('0' <= c
                && c <= '9') || c == '_',
            CharClass::Unquoted => c != '"',
        }
    }
}

/// Where the longest run of characters of one class that starts at `pos`
/// ends: the offset of the first character outside the class, or the end of
/// the text.
pub open spec fn run_end(src: Seq<char>, pos: int, class: CharClass) -> int
    decreases src.len() - pos,
{
    if 0 <= pos < src.len() && class.holds(src[pos]) {
        run_end(src, pos + 1, class)
    } else {
        pos
    }
}

/// A run ends where it is said to end exactly if every character before that
/// offset is of the class and the one at it, if any, is not.
pub proof fn lemma_run_end(src: Seq<char>, pos: int, class: CharClass, end: int)
    requires
        0 <= pos <= end <= src.len(),
        forall|i: int| pos <= i < end ==> class.holds(#[trigger] src[i]),
        end < src.len() ==> !class.holds(src[end]),
    ensures
        run_end(src, pos, class) == end,
    decreases end - pos,
{
    if pos < end {
        lemma_run_end(src, pos + 1, class, end);
    }
}

/// A run ends within the text, holds only characters of its class, and
/// stops at one that is not.
pub proof fn lemma_run_holds(src: Seq<char>, pos: int, class: CharClass)
    requires
        0 <= pos <= src.len(),
    ensures
        pos <= run_end(src, pos, class) <= src.len(),
        forall|i: int| pos <= i < run_end(src, pos, class) ==> class.holds(#[trigger] src[i]),
        run_end(src, pos, class) < src.len() ==> !class.holds(src[run_end(src, pos, class)]),
    decreases src.len() - pos,
{
    if pos < src.len() && class.holds(src[pos]) {
        lemma_run_holds(src, pos + 1, class);
    }
}

fn scan_run(chars: &Vec<char>, pos: usize, class: CharClass) -> (end: usize)
    requires
        pos <= chars.len(),
    ensures
        end == run_end(chars@, pos as int, class),
        pos <= end <= chars.len(),
{
    let mut end: usize = pos;
    while end < chars.len() && class.test(chars[end])
        invariant
            pos <= end <= chars.len(),
            forall|i: int| pos <= i < end ==> class.holds(#[trigger] chars@[i]),
        decreases chars.len() - end,
    {
        end += 1;
    }
    proof {
        lemma_run_end(chars@, pos as int, class, end as int);
    }
    end
}

/// Where the two-space groups that start at `pos` end.
pub open spec fn indent_end(src: Seq<char>, pos: int) -> int
    decreases src.len() - pos,
{
    if 0 <= pos && pos + 1 < src.len() && src[pos] == ' ' && src[pos + 1] == ' ' {
        indent_end(src, pos + 2)
    } else {
        pos
    }
}

/// Indentation ends within the text, after a whole number of groups.
pub proof fn lemma_indent_end(src: Seq<char>, pos: int)
    requires
        0 <= pos <= src.len(),
    ensures
        pos <= indent_end(src, pos) <= src.len(),
        (indent_end(src, pos) - pos) % 2 == 0,
    decreases src.len() - pos,
{
    if pos + 1 < src.len() && src[pos] == ' ' && src[pos + 1] == ' ' {
        lemma_indent_end(src, pos + 2);
    }
}

fn scan_indent(chars: &Vec<char>, pos: usize) -> (end: usize)
    requires
        pos <= chars.len(),
    ensures
        end == indent_end(chars@, pos as int),
        pos <= end <= chars.len(),
        (end - pos) % 2 == 0,
{
    let mut end: usize = pos;
    while chars.len() - end >= 2 && chars[end] == ' ' && chars[end + 1] == ' '
        invariant
            pos <= end <= chars.len(),
            (end - pos) % 2 == 0,
            indent_end(chars@, pos as int) == indent_end(chars@, end as int),
        decreases chars.len() - end,
    {
        end += 2;
    }
    end
}

/// The token that a word is: a keyword, or else an identifier.
pub open spec fn word_token(text: Seq<char>) -> TokenView {
    if text == seq!['m', 'a', 't', 'c', 'h'] {
        TokenView::Match
    } else if text == seq!['l', 'e', 't'] {
        TokenView::Let
    } else if text == seq!['i', 'n'] {
        TokenView::In
    } else if text == seq!['t', 'a', 'g'] {
        TokenView::Tag
    } else {
        TokenView::Identifier(text)
    }
}

/// The token that two characters spell together, if they spell one.
pub open spec fn pair_token(a: char, b: char) -> Option<TokenView> {
    if a == ':' && b == ':' {
        Some(TokenView::ColonColon)
    } else if a == '.' && b == '.' {
        Some(TokenView::DotDot)
    } else if a == '*' && b == '*' {
        Some(TokenView::StarStar)
    } else if a == '=' && b == '>' {
        Some(TokenView::LargeArrowRight)
    } else if a == '-' && b == '>' {
        Some(TokenView::SmallArrowRight)
    } else if a == '#' && b == '{' {
        Some(TokenView::TagStart)
    } else {
        None
    }
}

/// What the scanner finds at one offset: a token, or blank space to skip,
/// and the offset at which the text of it ends.
pub struct Scanned {
    pub token: Option<TokenView>,
    pub end: int,
}

/// The lexeme that begins at `pos`. Of the rules that match there the one
/// with the longest text decides; a keyword goes before an identifier, a
/// fixed symbol before single punctuation.
pub open spec fn lexeme_at(src: Seq<char>, pos: int) -> Scanned
    recommends
        0 <= pos < src.len(),
{
    let c = src[pos];
    if c == '\n' {
        let end = indent_end(src, pos + 1);
        Scanned { token: Some(TokenView::Indentation(((end - pos - 1) / 2) as nat)), end }
    } else if is_letter(c) {
        let end = run_end(src, pos, CharClass::Word);
        Scanned { token: Some(word_token(src.subrange(pos, end))), end }
    } else if is_digit(c) {
        let point = run_end(src, pos, CharClass::Digit);
        if point + 1 < src.len() && src[point] == '.' && is_digit(src[point + 1]) {
            let end = run_end(src, point + 1, CharClass::Digit);
            Scanned { token: Some(TokenView::Float(src.subrange(pos, end))), end }
        } else {
            let end = run_end(src, pos, CharClass::Numeral);
            Scanned {
                token: Some(TokenView::Integer(decimal_value(src.subrange(pos, end)))),
                end,
            }
        }
    } else if c == '"' {
        let quote = run_end(src, pos + 1, CharClass::Unquoted);
        if pos + 1 < quote < src.len() {
            Scanned {
                token: Some(TokenView::StringLiteral(src.subrange(pos, quote + 1))),
                end: quote + 1,
            }
        } else {
            Scanned { token: Some(TokenView::Symbol(c)), end: pos + 1 }
        }
    } else if pos + 1 < src.len() && pair_token(c, src[pos + 1]) is Some {
        Scanned { token: pair_token(c, src[pos + 1]), end: pos + 2 }
    } else if c == '=' {
        Scanned { token: Some(TokenView::Equal), end: pos + 1 }
    } else if is_space(c) {
        Scanned { token: None, end: pos + 1 }
    } else if is_punctuation(c) {
        Scanned { token: Some(TokenView::Symbol(c)), end: pos + 1 }
    } else {
        Scanned { token: Some(TokenView::Unknown(c)), end: pos + 1 }
    }
}

/// Every lexeme holds at least one character and ends within the text.
pub proof fn lemma_lexeme_advances(src: Seq<char>, pos: int)
    requires
        0 <= pos < src.len(),
    ensures
        pos < lexeme_at(src, pos).end <= src.len(),
{
    lemma_indent_end(src, pos + 1);
    lemma_run_holds(src, pos, CharClass::Word);
    lemma_run_holds(src, pos, CharClass::Digit);
    lemma_run_holds(src, pos, CharClass::Numeral);
    lemma_run_holds(src, pos + 1, CharClass::Unquoted);
    let point = run_end(src, pos, CharClass::Digit);
    if point + 1 < src.len() {
        lemma_run_holds(src, point + 1, CharClass::Digit);
    }
}

/// The lexemes of the text from `pos` on, each with the offset it begins at.
pub open spec fn scan_from(src: Seq<char>, pos: int) -> Seq<LexemeView>
    decreases src.len() - pos,
{
    if 0 <= pos < src.len() {
        let found = lexeme_at(src, pos);
        proof {
            lemma_lexeme_advances(src, pos);
        }
        match found.token {
            Some(token) => seq![LexemeView { token, offset: pos as nat }] + scan_from(
                src,
                found.end,
            ),
            None => scan_from(src, found.end),
        }
    } else {
        Seq::empty()
    }
}

/// The raw tokens of a text, in order.
pub open spec fn scan_text(src: Seq<char>) -> Seq<LexemeView> {
    scan_from(src, 0)
}

/// A run is the same run in any slice of the text that holds it.
proof fn lemma_run_within(src: Seq<char>, from: int, pos: int, class: CharClass, cut: int)
    requires
        0 <= from <= pos <= src.len(),
        run_end(src, pos, class) <= cut <= src.len(),
    ensures
        run_end(src.subrange(from, cut), pos - from, class) == run_end(src, pos, class) - from,
{
    let end = run_end(src, pos, class);
    let text = src.subrange(from, cut);
    lemma_run_holds(src, pos, class);
    assert forall|i: int| pos - from <= i < end - from implies class.holds(#[trigger] text[i]) by {
        assert(text[i] == src[i + from]);
    }
    if end - from < text.len() {
        assert(text[end - from] == src[end]);
    }
    lemma_run_end(text, pos - from, class, end - from);
}

/// Indentation is the same in the slice of the text that ends with it.
proof fn lemma_indent_within(src: Seq<char>, from: int, pos: int)
    requires
        0 <= from <= pos <= src.len(),
    ensures
        indent_end(src.subrange(from, indent_end(src, pos)), pos - from) == indent_end(src, pos)
            - from,
    decreases src.len() - pos,
{
    lemma_indent_end(src, pos);
    let end = indent_end(src, pos);
    let text = src.subrange(from, end);
    if pos + 1 < src.len() && src[pos] == ' ' && src[pos + 1] == ' ' {
        lemma_indent_end(src, pos + 2);
        lemma_indent_within(src, from, pos + 2);
        assert(text[pos - from] == src[pos]);
        assert(text[pos - from + 1] == src[pos + 1]);
    }
}

/// Scanning the text of one token by itself gives that token again, and
/// nothing else: no token depends on what stands before or after it.
pub proof fn lemma_rescan_token(src: Seq<char>, pos: int)
    requires
        0 <= pos < src.len(),
        lexeme_at(src, pos).token is Some,
    ensures
        ({
            let found = lexeme_at(src, pos);
            let text = src.subrange(pos, found.end);
            &&& lexeme_at(text, 0) == Scanned { token: found.token, end: found.end - pos }
            &&& scan_text(text) == seq![LexemeView { token: found.token->0, offset: 0 }]
        }),
{
    let found = lexeme_at(src, pos);
    let text = src.subrange(pos, found.end);
    let c = src[pos];
    lemma_lexeme_advances(src, pos);
    assert(text[0] == c);
    assert(text.subrange(0, text.len() as int) =~= text);
    if c == '\n' {
        lemma_indent_within(src, pos, pos + 1);
    } else if is_letter(c) {
        lemma_run_within(src, pos, pos, CharClass::Word, found.end);
    } else if is_digit(c) {
        let point = run_end(src, pos, CharClass::Digit);
        lemma_run_holds(src, pos, CharClass::Digit);
        lemma_run_holds(src, pos, CharClass::Numeral);
        if point + 1 < src.len() && src[point] == '.' && is_digit(src[point + 1]) {
            lemma_run_holds(src, point + 1, CharClass::Digit);
            lemma_run_within(src, pos, pos, CharClass::Digit, found.end);
            lemma_run_within(src, pos, point + 1, CharClass::Digit, found.end);
            assert(text[point - pos] == src[point]);
            assert(text[point - pos + 1] == src[point + 1]);
        } else {
            let end = found.end;
            if point > end {
                assert(CharClass::Numeral.holds(src[end]));
            }
            lemma_run_within(src, pos, pos, CharClass::Digit, end);
            lemma_run_within(src, pos, pos, CharClass::Numeral, end);
            if point < end {
                assert(text[point - pos] == src[point]);
                assert(CharClass::Numeral.holds(src[point]));
            }
        }
    } else if c == '"' {
        let quote = run_end(src, pos + 1, CharClass::Unquoted);
        lemma_run_holds(src, pos + 1, CharClass::Unquoted);
        if pos + 1 < quote < src.len() {
            lemma_run_within(src, pos, pos + 1, CharClass::Unquoted, quote + 1);
        } else {
            lemma_run_end(text, 1, CharClass::Unquoted, 1);
        }
    } else if pos + 1 < src.len() && pair_token(c, src[pos + 1]) is Some {
        assert(text[1] == src[pos + 1]);
    } else {
    }
    assert(lexeme_at(text, 0) == Scanned { token: found.token, end: found.end - pos });
    lemma_lexeme_advances(text, 0);
    assert(scan_from(text, text.len() as int) =~= Seq::<LexemeView>::empty());
    assert(scan_text(text) =~= seq![LexemeView { token: found.token->0, offset: 0 }]);
}

/// Every lexeme of a scan begins within the text, and is the one that the
/// scanner finds at its offset.
proof fn lemma_scan_holds_lexemes(src: Seq<char>, pos: int)
    ensures
        forall|i: int|
            0 <= i < scan_from(src, pos).len() ==> {
                let lexeme = #[trigger] scan_from(src, pos)[i];
                pos <= lexeme.offset < src.len() && lexeme_at(src, lexeme.offset as int).token
                    == Some(lexeme.token)
            },
    decreases src.len() - pos,
{
    if 0 <= pos < src.len() {
        let found = lexeme_at(src, pos);
        lemma_lexeme_advances(src, pos);
        lemma_scan_holds_lexemes(src, found.end);
        let rest = scan_from(src, found.end);
        match found.token {
            Some(token) => {
                let all = seq![LexemeView { token, offset: pos as nat }] + rest;
                assert forall|i: int| 0 <= i < all.len() implies {
                    let lexeme = #[trigger] all[i];
                    pos <= lexeme.offset < src.len() && lexeme_at(
                        src,
                        lexeme.offset as int,
                    ).token == Some(lexeme.token)
                } by {
                    if i > 0 {
                        assert(all[i] == rest[i - 1]);
                    }
                }
            },
            None => {},
        }
    }
}

/// Every token of a text, scanned again from its own text alone, is the
/// same token: its kind and its payload are those of its text.
pub proof fn lemma_token_scans_alone(src: Seq<char>, i: int)
    requires
        0 <= i < scan_text(src).len(),
    ensures
        ({
            let lexeme = scan_text(src)[i];
            let end = lexeme_at(src, lexeme.offset as int).end;
            scan_text(src.subrange(lexeme.offset as int, end)) == seq![
                LexemeView { token: lexeme.token, offset: 0 },
            ]
        }),
{
    lemma_scan_holds_lexemes(src, 0);
    lemma_rescan_token(src, scan_text(src)[i].offset as int);
}

/// A token as the scanner yields it: not one of those that only the
/// normalizer puts into a stream, and not the one for a failed scan.
pub open spec fn is_raw(token: TokenView) -> bool {
    !(token is Newline || token is Indent || token is Dedent || token is Error || token
        is Whitespace || token is LexError)
}

/// The scanner never gives up, and yields raw tokens only.
pub proof fn lemma_scan_is_raw(src: Seq<char>, pos: int)
    ensures
        forall|i: int|
            0 <= i < scan_from(src, pos).len() ==> is_raw(
                (#[trigger] scan_from(src, pos)[i]).token,
            ),
    decreases src.len() - pos,
{
    if 0 <= pos < src.len() {
        let found = lexeme_at(src, pos);
        lemma_lexeme_advances(src, pos);
        lemma_scan_is_raw(src, found.end);
        let rest = scan_from(src, found.end);
        match found.token {
            Some(token) => {
                assert(is_raw(token));
                let all = seq![LexemeView { token, offset: pos as nat }] + rest;
                assert forall|i: int| 0 <= i < all.len() implies is_raw(
                    (#[trigger] all[i]).token,
                ) by {
                    if i > 0 {
                        assert(all[i] == rest[i - 1]);
                    }
                }
            },
            None => {},
        }
    }
}

/// The keyword that a word is, if it is one.
fn keyword(chars: &Vec<char>, from: usize, to: usize) -> (found: Option<Token>)
    requires
        from <= to <= chars.len(),
    ensures
        match found {
            Some(token) => token@ == word_token(chars@.subrange(from as int, to as int)),
            None => word_token(chars@.subrange(from as int, to as int)) == TokenView::Identifier(
                chars@.subrange(from as int, to as int),
            ),
        },
{
    let ghost text = chars@.subrange(from as int, to as int);
    let n = to - from;
    proof {
        assert(seq!['m', 'a', 't', 'c', 'h'].len() == 5);
        assert(seq!['l', 'e', 't'].len() == 3);
        assert(seq!['i', 'n'].len() == 2);
        assert(seq!['t', 'a', 'g'].len() == 3);
        assert(seq!['l', 'e', 't'][0] == 'l' && seq!['t', 'a', 'g'][0] == 't');
        assert(text.len() == n);
    }
    if n == 5 && chars[from] == 'm' && chars[from + 1] == 'a' && chars[from + 2] == 't'
        && chars[from + 3] == 'c' && chars[from + 4] == 'h' {
        assert(text =~= seq!['m', 'a', 't', 'c', 'h']);
        Some(Token::Match)
    } else if n == 3 && chars[from] == 'l' && chars[from + 1] == 'e' && chars[from + 2] == 't' {
        assert(text =~= seq!['l', 'e', 't']);
        Some(Token::Let)
    } else if n == 2 && chars[from] == 'i' && chars[from + 1] == 'n' {
        assert(text =~= seq!['i', 'n']);
        Some(Token::In)
    } else if n == 3 && chars[from] == 't' && chars[from + 1] == 'a' && chars[from + 2] == 'g' {
        assert(text =~= seq!['t', 'a', 'g']);
        Some(Token::Tag)
    } else {
        proof {
            let m = seq!['m', 'a', 't', 'c', 'h'];
            let l = seq!['l', 'e', 't'];
            let i = seq!['i', 'n'];
            let t = seq!['t', 'a', 'g'];
            if text == m {
                assert(text[0] == m[0] && text[1] == m[1] && text[2] == m[2] && text[3] == m[3]
                    && text[4] == m[4]);
            }
            if text == l {
                assert(text[0] == l[0] && text[1] == l[1] && text[2] == l[2]);
            }
            if text == i {
                assert(text[0] == i[0] && text[1] == i[1]);
            }
            if text == t {
                assert(text[0] == t[0] && text[1] == t[1] && text[2] == t[2]);
            }
        }
        None
    }
}

/// The token that two characters spell together, if they spell one.
fn pair(a: char, b: char) -> (found: Option<Token>)
    ensures
        match found {
            Some(token) => pair_token(a, b) == Some(token@),
            None => pair_token(a, b) is None,
        },
{
    if a == ':' && b == ':' {
        Some(Token::ColonColon)
    } else if a == '.' && b == '.' {
        Some(Token::DotDot)
    } else if a == '*' && b == '*' {
        Some(Token::StarStar)
    } else if a == '=' && b == '>' {
        Some(Token::LargeArrowRight)
    } else if a == '-' && b == '>' {
        Some(Token::SmallArrowRight)
    } else if a == '#' && b == '{' {
        Some(Token::TagStart)
    } else {
        None
    }
}

/// Scans the lexeme that begins at `pos`: its token, unless it is blank
/// space, and the offset at which it ends.
pub fn next_lexeme(chars: &Vec<char>, pos: usize) -> (found: (Option<Token>, usize))
    requires
        pos < chars.len(),
    ensures
        found.1 == lexeme_at(chars@, pos as int).end,
        pos < found.1 <= chars.len(),
        match found.0 {
            Some(token) => lexeme_at(chars@, pos as int).token == Some(token@),
            None => lexeme_at(chars@, pos as int).token is None,
        },
{
    let c = chars[pos];
    proof {
        lemma_lexeme_advances(chars@, pos as int);
    }
    if c == '\n' {
        let end = scan_indent(chars, pos + 1);
        (Some(Token::Indentation((end - pos - 1) / 2)), end)
    } else if ('a' <= c && c <= 'z') || ('A' <= c && c <= 'Z') {
        let end = scan_run(chars, pos, CharClass::Word);
        let token = match keyword(chars, pos, end) {
            Some(token) => token,
            None => Token::Identifier(slice_text(chars, pos, end)),
        };
        (Some(token), end)
    } else if '0' <= c && c <= '9' {
        let point = scan_run(chars, pos, CharClass::Digit);
        if chars.len() - point > 1 && chars[point] == '.' && '0' <= chars[point + 1] && chars[point
            + 1] <= '9' {
            let end = scan_run(chars, point + 1, CharClass::Digit);
            (Some(Token::Float(slice_text(chars, pos, end))), end)
        } else {
            let end = scan_run(chars, pos, CharClass::Numeral);
            let text = slice_text(chars, pos, end);
            proof {
                lemma_run_holds(chars@, pos as int, CharClass::Numeral);
                assert(is_decimal_literal(text@));
            }
            match Integer::from_decimal(text.as_str()) {
                Some(number) => (Some(Token::Integer(number)), end),
                None => (Some(Token::LexError), end),
            }
        }
    } else if c == '"' {
        let quote = scan_run(chars, pos + 1, CharClass::Unquoted);
        if pos + 1 < quote && quote < chars.len() {
            (Some(Token::StringLiteral(slice_text(chars, pos, quote + 1))), quote + 1)
        } else {
            (Some(Token::Symbol(c)), pos + 1)
        }
    } else {
        let paired = if chars.len() - pos > 1 {
            pair(c, chars[pos + 1])
        } else {
            None
        };
        match paired {
            Some(token) => (Some(token), pos + 2),
            None => {
                if c == '=' {
                    (Some(Token::Equal), pos + 1)
                } else if test_space(c) {
                    (None, pos + 1)
                } else if ('!' <= c && c <= '/') || (':' <= c && c <= '@') || ('[' <= c && c
                    <= '`') || ('{' <= c && c <= '~') {
                    (Some(Token::Symbol(c)), pos + 1)
                } else {
                    (Some(Token::Unknown(c)), pos + 1)
                }
            },
        }
    }
}

/// Scans a text into its raw tokens, each with the offset it begins at.
/// Blank space within a line is skipped; every line break yields an
/// indentation marker. A `LexError` token would be the last one; there is no
/// text for which the scanner yields it.
pub fn scan(source: &str) -> (lexemes: Vec<Lexeme>)
    ensures
        lexeme_views(lexemes@) == scan_text(source@),
{
    let chars = characters(source);
    let mut lexemes: Vec<Lexeme> = Vec::new();
    let mut pos: usize = 0;
    while pos < chars.len()
        invariant
            pos <= chars.len(),
            chars@ == source@,
            scan_text(source@) == lexeme_views(lexemes@) + scan_from(chars@, pos as int),
        decreases chars.len() - pos,
    {
        let (token, end) = next_lexeme(&chars, pos);
        let ghost before = lexeme_views(lexemes@);
        match token {
            Some(token) => {
                let failed = matches!(token, Token::LexError);
                lexemes.push(Lexeme { token, offset: pos });
                assert(lexeme_views(lexemes@) =~= before + seq![
                    LexemeView { token: token@, offset: pos as nat },
                ]);
                if failed {
                    proof {
                        lemma_scan_is_raw(chars@, pos as int);
                        assert(scan_from(chars@, pos as int)[0].token == token@);
                    }
                    return lexemes;
                }
            },
            None => {},
        }
        assert(before + scan_from(chars@, pos as int) =~= lexeme_views(lexemes@) + scan_from(
            chars@,
            end as int,
        ));
        pos = end;
    }
    assert(lexeme_views(lexemes@) + Seq::<LexemeView>::empty() =~= lexeme_views(lexemes@));
    lexemes
}

impl Token {
    /// The raw tokens of a text, in order.
    pub fn lexer(source: &str) -> (tokens: Vec<Token>)
        ensures
            tokens@.len() == scan_text(source@).len(),
            forall|i: int|
                0 <= i < tokens@.len() ==> (#[trigger] tokens@[i])@ == scan_text(source@)[i].token,
    {
        let lexemes = scan(source);
        let mut tokens: Vec<Token> = Vec::new();
        let mut i: usize = 0;
        while i < lexemes.len()
            invariant
                i <= lexemes.len(),
                tokens@.len() == i,
                forall|j: int| 0 <= j < i ==> (#[trigger] tokens@[j])@ == lexemes@[j]@.token,
            decreases lexemes.len() - i,
        {
            tokens.push(lexemes[i].token.clone());
            i += 1;
        }
        tokens
    }
}

} // verus!
