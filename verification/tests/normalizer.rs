use parser::token::Token::{Dedent, Indent, Indentation, LexError, Newline};
use parser::{
    normalize, normalize_prefix, scan, ErrorKind, Expected, Found, Integer, Layout, Lexeme,
    Normalizer, ParseError, Token,
};

fn ident(name: &str) -> Token {
    Token::Identifier(String::from(name))
}

fn at(offset: usize, token: Token) -> Lexeme {
    Lexeme { token, offset }
}

fn tokens(lexemes: Vec<Lexeme>) -> Vec<Token> {
    lexemes.into_iter().map(|lexeme| lexeme.token).collect()
}

fn structure(source: &str) -> Result<Vec<Token>, ParseError> {
    normalize(&scan(source)).map(tokens)
}

fn count(stream: &[Token], token: &Token) -> usize {
    stream.iter().filter(|t| *t == token).count()
}

#[test]
fn a_block_of_two_lines() {
    assert_eq!(
        structure("a\n  b\n  c\nd"),
        Ok(vec![ident("a"), Indent, ident("b"), Newline, ident("c"), Dedent, ident("d")])
    );
}

#[test]
fn an_empty_stream_stays_empty() {
    assert_eq!(normalize(&vec![]), Ok(vec![]));
    assert_eq!(structure(""), Ok(vec![]));
}

#[test]
fn same_depth_gives_one_newline_per_marker() {
    assert_eq!(structure("a\nb"), Ok(vec![ident("a"), Newline, ident("b")]));
    assert_eq!(
        structure("a\n\n\nb\n"),
        Ok(vec![ident("a"), Newline, Newline, Newline, ident("b"), Newline])
    );
}

#[test]
fn flat_text_has_no_blocks() {
    let raw = scan("a\nb c\n\n1 + 2\n");
    let out = normalize(&raw).unwrap();
    assert_eq!(out.len(), raw.len());
    for (before, after) in raw.iter().zip(out.iter()) {
        assert_eq!(before.offset, after.offset);
        match before.token {
            Indentation(depth) => {
                assert_eq!(depth, 0);
                assert_eq!(after.token, Newline);
            }
            _ => assert_eq!(before.token, after.token),
        }
    }
    let stream = tokens(out);
    assert_eq!(count(&stream, &Indent), 0);
    assert_eq!(count(&stream, &Dedent), 0);
}

#[test]
fn a_jump_of_several_levels_is_one_indent() {
    assert_eq!(
        structure("a\n        b\nc"),
        Ok(vec![ident("a"), Indent, ident("b"), Dedent, ident("c")])
    );
}

#[test]
fn a_dedent_closes_every_deeper_block() {
    assert_eq!(
        structure("a\n  b\n    c\n      d\ne"),
        Ok(vec![
            ident("a"),
            Indent,
            ident("b"),
            Indent,
            ident("c"),
            Indent,
            ident("d"),
            Dedent,
            Dedent,
            Dedent,
            ident("e"),
        ])
    );
    assert_eq!(
        structure("a\n  b\n    c\n  d"),
        Ok(vec![
            ident("a"),
            Indent,
            ident("b"),
            Indent,
            ident("c"),
            Dedent,
            ident("d"),
            Dedent,
        ])
    );
}

#[test]
fn open_blocks_are_closed_at_the_end() {
    assert_eq!(
        structure("a\n  b\n    c"),
        Ok(vec![ident("a"), Indent, ident("b"), Indent, ident("c"), Dedent, Dedent])
    );
    assert_eq!(
        normalize(&scan("a\n  b\n    c")).unwrap()[5..],
        [at(10, Dedent), at(10, Dedent)]
    );
}

#[test]
fn structural_tokens_stand_at_their_marker() {
    assert_eq!(
        normalize(&scan("a\n  b\nc")),
        Ok(vec![
            at(0, ident("a")),
            at(1, Indent),
            at(4, ident("b")),
            at(5, Dedent),
            at(6, ident("c")),
        ])
    );
}

#[test]
fn a_blank_line_closes_the_block() {
    assert_eq!(
        structure("a\n  b\n\n  c"),
        Ok(vec![ident("a"), Indent, ident("b"), Dedent, Indent, ident("c"), Dedent])
    );
}

#[test]
fn untracked_depth_is_an_error() {
    assert_eq!(
        normalize(&scan("a\n    b\n  c")),
        Err(ParseError {
            kind: ErrorKind::IndentationError,
            position: 7,
            found: Found::Depth(1),
            expected: Expected::Depth(0),
        })
    );
    assert_eq!(
        normalize(&scan("a\n  b\n        c\n    d")).unwrap_err().expected,
        Expected::Depth(1)
    );
}

#[test]
fn the_tokens_before_an_error_are_kept() {
    let (seen, error) = normalize_prefix(&scan("a\n    b\n  c\nd"));
    assert_eq!(tokens(seen), vec![ident("a"), Indent, ident("b")]);
    assert_eq!(
        error,
        Some(ParseError {
            kind: ErrorKind::IndentationError,
            position: 7,
            found: Found::Depth(1),
            expected: Expected::Depth(0),
        })
    );
    let (all, error) = normalize_prefix(&scan("a\n    b\nc"));
    assert_eq!(tokens(all), vec![ident("a"), Indent, ident("b"), Dedent, ident("c")]);
    assert_eq!(error, None);
    let raw = vec![at(0, ident("a")), at(2, LexError), at(3, ident("b"))];
    let (seen, error) = normalize_prefix(&raw);
    assert_eq!(seen, vec![at(0, ident("a"))]);
    assert_eq!(error.unwrap().kind, ErrorKind::LexError);
}

#[test]
fn the_stack_resolves_one_marker_at_a_time() {
    let mut normalizer = Normalizer::new();
    assert_eq!(normalizer.resolve(0), Ok(Layout::Newline));
    assert_eq!(normalizer.resolve(2), Ok(Layout::Indent));
    assert_eq!(normalizer.resolve(1), Err(0));
    assert_eq!(normalizer.resolve(2), Ok(Layout::Newline));
    assert_eq!(normalizer.resolve(3), Ok(Layout::Indent));
    assert_eq!(normalizer.resolve(7), Ok(Layout::Indent));
    assert_eq!(normalizer.resolve(5), Err(3));
    assert_eq!(normalizer.resolve(2), Ok(Layout::Dedent(2)));
    assert_eq!(normalizer.resolve(4), Ok(Layout::Indent));
    assert_eq!(normalizer.finish(), 2);
    assert_eq!(normalizer.finish(), 0);
    assert_eq!(normalizer.resolve(0), Ok(Layout::Newline));
}

#[test]
fn other_tokens_pass_through() {
    let raw = vec![
        at(0, Token::Integer(Integer::from_u64(5))),
        at(1, Indent),
        at(2, Token::Symbol('+')),
        at(3, Dedent),
        at(4, Dedent),
        at(5, Token::Unknown('é')),
        at(6, Token::Error(String::from("kept"))),
    ];
    assert_eq!(normalize(&raw.clone()), Ok(raw));
}

#[test]
fn a_failed_scan_is_fatal() {
    let raw = vec![at(0, ident("a")), at(2, Indentation(1)), at(5, LexError), at(6, ident("b"))];
    assert_eq!(
        normalize(&raw),
        Err(ParseError {
            kind: ErrorKind::LexError,
            position: 5,
            found: Found::Token(LexError),
            expected: Expected::Token,
        })
    );
}

#[test]
fn indents_and_dedents_balance() {
    let sources = [
        "",
        "a",
        "a\n  b",
        "a\n  b\n    c\n  d\n      e\nf\n  g\n",
        "fib n => match n =>\n  ..2 => n\n  _ =>\n    a\n    b\n\nmain =>\n  x\n",
        "\n\n      a\n\n  b\n",
    ];
    for source in sources {
        let stream = structure(source).unwrap();
        assert_eq!(count(&stream, &Indent), count(&stream, &Dedent));
    }
    assert_eq!(count(&structure("a\n  b\n    c\n  d\n      e\nf\n  g\n").unwrap(), &Indent), 4);
}
