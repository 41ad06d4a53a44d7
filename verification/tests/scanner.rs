use parser::token::Token::{
    ColonColon, DotDot, Equal, Float, Identifier, In, Indentation, LargeArrowRight, Let, Match,
    SmallArrowRight, StarStar, StringLiteral, Symbol, Tag, TagStart, Unknown,
};
use parser::{scan, Integer, Lexeme, Token};

fn number(n: u64) -> Token {
    Token::Integer(Integer::from_u64(n))
}

fn ident(name: &str) -> Token {
    Identifier(String::from(name))
}

#[test]
fn lex_test() {
    let source = "fib :: isize -> isize\nfib n => match n =>\n  ..2 => n\n  _ => (fib n - 1) + (fib n - 2)\n\nmain =>\n  println \"Hello World!\"\n  println fib 5\n";
    let tokens: Vec<_> = Token::lexer(source);
    assert_eq!(
        tokens,
        vec![
            Identifier(String::from("fib")),
            ColonColon,
            Identifier(String::from("isize")),
            SmallArrowRight,
            Identifier(String::from("isize")),
            Indentation(0),
            Identifier(String::from("fib")),
            Identifier(String::from("n")),
            LargeArrowRight,
            Match,
            Identifier(String::from("n")),
            LargeArrowRight,
            Indentation(1),
            DotDot,
            number(2),
            LargeArrowRight,
            Identifier(String::from("n")),
            Indentation(1),
            Symbol('_'),
            LargeArrowRight,
            Symbol('('),
            Identifier(String::from("fib")),
            Identifier(String::from("n")),
            Symbol('-'),
            number(1),
            Symbol(')'),
            Symbol('+'),
            Symbol('('),
            Identifier(String::from("fib")),
            Identifier(String::from("n")),
            Symbol('-'),
            number(2),
            Symbol(')'),
            // the source ends with a blank line and a line break
            Indentation(0),
            Indentation(0),
            Identifier(String::from("main")),
            LargeArrowRight,
            Indentation(1),
            Identifier(String::from("println")),
            StringLiteral(String::from("\"Hello World!\"")),
            Indentation(1),
            Identifier(String::from("println")),
            Identifier(String::from("fib")),
            number(5),
            Indentation(0),
        ]
    )
}

#[test]
fn lex_indent_test() {
    let source = "block =>\n  123\n  abc\n  123\n  in\n  #{}\n  tag\n";
    let tokens: Vec<_> = Token::lexer(source);
    assert_eq!(
        tokens,
        vec![
            Identifier(String::from("block")),
            LargeArrowRight,
            Indentation(1),
            number(123),
            Indentation(1),
            Identifier(String::from("abc")),
            Indentation(1),
            number(123),
            Indentation(1),
            In,
            Indentation(1),
            TagStart,
            Symbol('}'),
            Indentation(1),
            Tag,
            Indentation(0),
        ]
    )
}

#[test]
fn empty_text_has_no_tokens() {
    assert_eq!(Token::lexer(""), vec![]);
    assert_eq!(Token::lexer("   \t \r"), vec![]);
}

#[test]
fn integer_literal_is_read_by_value() {
    assert_eq!(Token::lexer("1_000"), vec![number(1000)]);
    assert_eq!(Token::lexer("007"), vec![number(7)]);
    assert_eq!(Token::lexer("0"), vec![number(0)]);
    assert_eq!(Token::lexer("0_"), vec![number(0)]);
    assert_eq!(Token::lexer("4294967296"), vec![number(4294967296)]);
    assert_eq!(Token::lexer("18446744073709551615"), vec![number(u64::MAX)]);
    assert_ne!(Token::lexer("18446744073709551616"), vec![number(0)]);
    assert_eq!(
        Token::lexer("18446744073709551616"),
        vec![Token::Integer(Integer::from_decimal("18_446_744_073_709_551_616").unwrap())]
    );
}

#[test]
fn integer_limbs_are_base_two_to_the_thirty_two() {
    assert_eq!(Integer::from_u64(0).to_u32_digits(), Vec::<u32>::new());
    assert_eq!(Integer::from_u64(1125).to_u32_digits(), vec![1125]);
    assert_eq!(Integer::from_u64(4294967296).to_u32_digits(), vec![0, 1]);
    assert_eq!(Integer::from_u64(112500000000).to_u32_digits(), vec![830850304, 26]);
    assert_eq!(
        Integer::from_decimal("112_500_000_000").unwrap().to_u32_digits(),
        vec![830850304, 26]
    );
    assert_eq!(
        Integer::from_decimal("18446744073709551616").unwrap().to_u32_digits(),
        vec![0, 0, 1]
    );
    assert_eq!(Integer::from_decimal("000").unwrap(), Integer::from_u64(0));
    assert_eq!(Integer::from_u64(7).clone(), Integer::from_u64(7));
}

#[test]
fn limbs_are_kept_without_leading_zeros() {
    assert_eq!(Integer::from_u32_digits(vec![]), Integer::from_u64(0));
    assert_eq!(Integer::from_u32_digits(vec![0, 0, 0]), Integer::from_u64(0));
    assert_eq!(Integer::from_u32_digits(vec![5, 0]), Integer::from_u64(5));
    assert_eq!(Integer::from_u32_digits(vec![0, 1, 0, 0]), Integer::from_u64(4294967296));
    assert_eq!(Integer::from_u32_digits(vec![0, 1, 0, 0]).to_u32_digits(), vec![0, 1]);
    assert_eq!(
        Integer::from_u32_digits(vec![0, 0, 1]),
        Integer::from_decimal("18446744073709551616").unwrap()
    );
    assert_ne!(Integer::from_u32_digits(vec![0, 1]), Integer::from_u32_digits(vec![1, 0]));
}

#[test]
fn only_decimal_literals_are_integers() {
    assert_eq!(Integer::from_decimal(""), None);
    assert_eq!(Integer::from_decimal("_1"), None);
    assert_eq!(Integer::from_decimal("-1"), None);
    assert_eq!(Integer::from_decimal("+1"), None);
    assert_eq!(Integer::from_decimal("12a"), None);
    assert_eq!(Integer::from_decimal("1 2"), None);
    assert_eq!(Integer::from_decimal("1__2_"), Some(Integer::from_u64(12)));
}

#[test]
fn identifiers_hold_letters_digits_and_underscores() {
    assert_eq!(Token::lexer("a0"), vec![ident("a0")]);
    assert_eq!(Token::lexer("snake_case9 X"), vec![ident("snake_case9"), ident("X")]);
    assert_eq!(Token::lexer("_a"), vec![Symbol('_'), ident("a")]);
    assert_eq!(Token::lexer("9a"), vec![number(9), ident("a")]);
}

#[test]
fn keywords_are_whole_words() {
    assert_eq!(Token::lexer("match let in tag"), vec![Match, Let, In, Tag]);
    assert_eq!(
        Token::lexer("matches letter inn tags ta"),
        vec![ident("matches"), ident("letter"), ident("inn"), ident("tags"), ident("ta")]
    );
    assert_eq!(Token::lexer("Match"), vec![ident("Match")]);
}

#[test]
fn float_literal_keeps_its_text() {
    assert_eq!(Token::lexer("12.50"), vec![Float(String::from("12.50"))]);
    assert_eq!(Token::lexer("1.5.2"), vec![Float(String::from("1.5")), Symbol('.'), number(2)]);
    assert_eq!(Token::lexer("1."), vec![number(1), Symbol('.')]);
    assert_eq!(Token::lexer("1..2"), vec![number(1), DotDot, number(2)]);
    assert_eq!(Token::lexer("1_0.5"), vec![number(10), Symbol('.'), number(5)]);
    assert_eq!(
        Token::lexer("1.5_0"),
        vec![Float(String::from("1.5")), Symbol('_'), number(0)]
    );
    let parsed: f64 = match &Token::lexer("12.50")[0] {
        Float(text) => text.parse().unwrap(),
        _ => panic!("not a float"),
    };
    assert_eq!(parsed, 12.5);
}

#[test]
fn string_literal_keeps_its_quotes() {
    assert_eq!(Token::lexer("\"a b\""), vec![StringLiteral(String::from("\"a b\""))]);
    assert_eq!(
        Token::lexer("\"a\nb\" c"),
        vec![StringLiteral(String::from("\"a\nb\"")), ident("c")]
    );
    assert_eq!(Token::lexer("\"\""), vec![Symbol('"'), Symbol('"')]);
    assert_eq!(Token::lexer("\"abc"), vec![Symbol('"'), ident("abc")]);
    assert_eq!(
        Token::lexer("\"\"\""),
        vec![Symbol('"'), Symbol('"'), Symbol('"')]
    );
    assert_eq!(Token::lexer("\"é\""), vec![StringLiteral(String::from("\"é\""))]);
}

#[test]
fn fixed_symbols_go_before_single_ones() {
    assert_eq!(
        Token::lexer(":: .. ** => -> #{ ="),
        vec![ColonColon, DotDot, StarStar, LargeArrowRight, SmallArrowRight, TagStart, Equal]
    );
    assert_eq!(Token::lexer("..."), vec![DotDot, Symbol('.')]);
    assert_eq!(Token::lexer("==>"), vec![Equal, LargeArrowRight]);
    assert_eq!(Token::lexer(":"), vec![Symbol(':')]);
    assert_eq!(Token::lexer("#}"), vec![Symbol('#'), Symbol('}')]);
    assert_eq!(Token::lexer("-"), vec![Symbol('-')]);
}

#[test]
fn punctuation_is_a_symbol_and_the_rest_is_unknown() {
    let punctuation = "!\"#$%&'()*+,-./:;<>?@[\\]^_`{|}~";
    for c in punctuation.chars() {
        assert_eq!(Token::lexer(&c.to_string()), vec![Symbol(c)]);
    }
    assert_eq!(Token::lexer("é"), vec![Unknown('é')]);
    assert_eq!(Token::lexer("\u{7f}"), vec![Unknown('\u{7f}')]);
    assert_eq!(Token::lexer("\u{0}a"), vec![Unknown('\u{0}'), ident("a")]);
}

#[test]
fn blank_space_is_skipped() {
    assert_eq!(Token::lexer("a \t\r\u{a0}\u{2003}\u{3000}b"), vec![ident("a"), ident("b")]);
    assert_eq!(Token::lexer("\u{200b}"), vec![Unknown('\u{200b}')]);
}

#[test]
fn marker_counts_two_space_groups() {
    assert_eq!(Token::lexer("\n"), vec![Indentation(0)]);
    assert_eq!(Token::lexer("\n "), vec![Indentation(0)]);
    assert_eq!(Token::lexer("\n  "), vec![Indentation(1)]);
    assert_eq!(Token::lexer("\n   a"), vec![Indentation(1), ident("a")]);
    assert_eq!(Token::lexer("\n      a"), vec![Indentation(3), ident("a")]);
    assert_eq!(Token::lexer("\n\t  a"), vec![Indentation(0), ident("a")]);
    assert_eq!(Token::lexer("\n\n  \n"), vec![Indentation(0), Indentation(1), Indentation(0)]);
    assert_eq!(Token::lexer("  a"), vec![ident("a")]);
}

#[test]
fn lexemes_carry_character_offsets() {
    assert_eq!(
        scan("é = \"ü\"\n  x"),
        vec![
            Lexeme { token: Unknown('é'), offset: 0 },
            Lexeme { token: Equal, offset: 2 },
            Lexeme { token: StringLiteral(String::from("\"ü\"")), offset: 4 },
            Lexeme { token: Indentation(1), offset: 7 },
            Lexeme { token: ident("x"), offset: 10 },
        ]
    );
}

#[test]
fn every_token_scans_to_itself_alone() {
    let source = "fib :: isize -> isize\nfib n => match n =>\n  ..2 => n\n  _ => (fib n - 1.5) + [1_0, \"x y\"]\n    #{a} ** é tag";
    let chars: Vec<char> = source.chars().collect();
    let lexemes = scan(source);
    assert_eq!(lexemes.len(), 39);
    for (i, lexeme) in lexemes.iter().enumerate() {
        let candidates = (lexeme.offset + 1)..=chars.len();
        let mut found = false;
        for end in candidates {
            let text: String = chars[lexeme.offset..end].iter().collect();
            let alone = scan(&text);
            if alone == vec![Lexeme { token: lexeme.token.clone(), offset: 0 }] {
                let next = lexemes.get(i + 1).map(|l| l.offset).unwrap_or(chars.len());
                assert!(end <= next);
                found = true;
                break;
            }
        }
        assert!(found);
    }
}
