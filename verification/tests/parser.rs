use parser::token::Token::{Dedent, Indent, LexError, Newline};
use parser::{
    normalize, parse, parse_tokens, scan, ErrorKind, Expected, Expression, Found, Integer, Lexeme,
    OpSymbol, ParseError, Pattern, Statement, Tag, Token, Type,
};

fn name(text: &str) -> Expression {
    Expression::Identifier(String::from(text))
}

fn number(n: u64) -> Expression {
    Expression::Integer(Integer::from_u64(n))
}

fn text(s: &str) -> Expression {
    Expression::StringLiteral(String::from(s))
}

fn boxed(items: Vec<Expression>) -> Vec<Box<Expression>> {
    items.into_iter().map(Box::new).collect()
}

fn binary(op: OpSymbol, left: Expression, right: Expression) -> Expression {
    Expression::OpCall { op, args: boxed(vec![left, right]) }
}

fn call(function: &str, args: Vec<Expression>) -> Expression {
    Expression::FnCall { name: String::from(function), args }
}

fn assign(pat: Pattern, value: Expression) -> Expression {
    Expression::ValueAssign { pat, expr: Box::new(value) }
}

fn binds(text: &str) -> Pattern {
    Pattern::Identifier(String::from(text))
}

fn literal(n: u64) -> Pattern {
    Pattern::Integer(Integer::from_u64(n))
}

fn range(start: Option<Pattern>, end: Option<Pattern>) -> Pattern {
    Pattern::Range { start: start.map(Box::new), end: end.map(Box::new) }
}

fn function(text: &str, args: &[&str], body: Vec<Expression>) -> Statement {
    Statement::FnDecl {
        name: String::from(text),
        args: args.iter().map(|arg| String::from(*arg)).collect(),
        body: boxed(body),
    }
}

fn named(text: &str) -> Type {
    Type::Identifier(String::from(text))
}

fn member(text: &str) -> Tag {
    Tag::Identifier(String::from(text))
}

fn root(text: &str) -> Tag {
    Tag::PrimaryIdentifier(String::from(text))
}

/// The body of `x => <source>`, which must be one expression.
fn expression(source: &str) -> Expression {
    let mut program = parse(&format!("x => {}", source)).unwrap();
    assert_eq!(program.len(), 1);
    match program.pop().unwrap() {
        Statement::FnDecl { name, args, mut body } => {
            assert_eq!(name, "x");
            assert!(args.is_empty());
            assert_eq!(body.len(), 1);
            *body.pop().unwrap()
        }
        _ => panic!("not a function"),
    }
}

fn failure(source: &str) -> ParseError {
    parse(source).unwrap_err()
}

fn unexpected(position: usize, found: Token, expected: Expected) -> ParseError {
    ParseError { kind: ErrorKind::ParseError, position, found: Found::Token(found), expected }
}

fn ended(position: usize, expected: Expected) -> ParseError {
    ParseError { kind: ErrorKind::ParseError, position, found: Found::End, expected }
}

#[test]
fn empty_source_is_the_empty_program() {
    assert_eq!(parse(""), Ok(vec![]));
    assert_eq!(parse("  \t "), Ok(vec![]));
    assert_eq!(parse("\n\n\n"), Ok(vec![]));
    assert_eq!(parse_tokens(&vec![]), Ok(vec![]));
}

#[test]
fn one_line_function() {
    assert_eq!(parse("fib n => n"), Ok(vec![function("fib", &["n"], vec![name("n")])]));
}

#[test]
fn multiplication_binds_tighter_than_addition() {
    assert_eq!(
        parse("x => 1 + 2 * 3"),
        Ok(vec![function(
            "x",
            &[],
            vec![binary(
                OpSymbol::Plus,
                number(1),
                binary(OpSymbol::Star, number(2), number(3))
            )]
        )])
    );
    assert_eq!(
        expression("1 * 2 + 3"),
        binary(OpSymbol::Plus, binary(OpSymbol::Star, number(1), number(2)), number(3))
    );
}

#[test]
fn match_arms_keep_source_order() {
    assert_eq!(
        parse("f n => match n =>\n  _ => a\n  1 => b"),
        Ok(vec![function(
            "f",
            &["n"],
            vec![Expression::Match {
                expr: Box::new(name("n")),
                args: vec![assign(Pattern::Wildcard, name("a")), assign(literal(1), name("b"))],
            }]
        )])
    );
    assert_eq!(
        expression("match n =>\n  1 => b\n  _ => a"),
        Expression::Match {
            expr: Box::new(name("n")),
            args: vec![assign(literal(1), name("b")), assign(Pattern::Wildcard, name("a"))],
        }
    );
}

#[test]
fn parsing_twice_gives_equal_trees() {
    let source = "fib :: isize -> isize\nfib n => match n =>\n  ..2 => n\n  _ => (fib n - 1) + (fib n - 2)\n";
    assert_eq!(parse(source), parse(source));
    assert!(parse(source).is_ok());
    assert_eq!(parse("x => ("), parse("x => ("));
    assert!(parse("x => (").is_err());
}

#[test]
fn a_whole_program() {
    let source = "fib :: isize -> isize\nfib n => match n =>\n  ..2 => n\n  _ => (fib n - 1) + (fib n - 2)\n\nmain =>\n  println \"Hello World!\"\n  println fib 5\n";
    let step = |k: u64| binary(OpSymbol::Minus, call("fib", vec![name("n")]), number(k));
    assert_eq!(
        parse(source),
        Ok(vec![
            Statement::TypeDecl {
                name: String::from("fib"),
                body: Type::FnSig {
                    args: vec![Box::new(named("isize"))],
                    ret: Box::new(named("isize")),
                },
            },
            function(
                "fib",
                &["n"],
                vec![Expression::Match {
                    expr: Box::new(name("n")),
                    args: vec![
                        assign(range(None, Some(literal(2))), name("n")),
                        assign(Pattern::Wildcard, binary(OpSymbol::Plus, step(1), step(2))),
                    ],
                }]
            ),
            function(
                "main",
                &[],
                vec![
                    call("println", vec![text("\"Hello World!\"")]),
                    call("println", vec![name("fib"), number(5)]),
                ]
            ),
        ])
    );
}

#[test]
fn operators_associate_to_the_left_but_the_power() {
    assert_eq!(
        expression("1 - 2 - 3"),
        binary(OpSymbol::Minus, binary(OpSymbol::Minus, number(1), number(2)), number(3))
    );
    assert_eq!(
        expression("8 / 4 / 2"),
        binary(
            OpSymbol::ForwardSlash,
            binary(OpSymbol::ForwardSlash, number(8), number(4)),
            number(2)
        )
    );
    assert_eq!(
        expression("2 ^ 3 ^ 4"),
        binary(
            OpSymbol::Circumflex,
            number(2),
            binary(OpSymbol::Circumflex, number(3), number(4))
        )
    );
    assert_eq!(
        expression("1 < 2 < 3"),
        binary(
            OpSymbol::LAngleBracket,
            binary(OpSymbol::LAngleBracket, number(1), number(2)),
            number(3)
        )
    );
}

#[test]
fn comparison_binds_loosest_and_power_tightest() {
    assert_eq!(
        expression("a + 1 > b * 2 ^ c - 3"),
        binary(
            OpSymbol::RAngleBracket,
            binary(OpSymbol::Plus, name("a"), number(1)),
            binary(
                OpSymbol::Minus,
                binary(
                    OpSymbol::Star,
                    name("b"),
                    binary(OpSymbol::Circumflex, number(2), name("c"))
                ),
                number(3)
            )
        )
    );
    assert_eq!(
        expression("(1 + 2) * 3"),
        binary(OpSymbol::Star, binary(OpSymbol::Plus, number(1), number(2)), number(3))
    );
}

#[test]
fn a_call_binds_tighter_than_any_operator() {
    assert_eq!(
        expression("f x + 1"),
        binary(OpSymbol::Plus, call("f", vec![name("x")]), number(1))
    );
    assert_eq!(
        expression("f x y \"z\" 4 (g 5) [6]"),
        call(
            "f",
            vec![
                name("x"),
                name("y"),
                text("\"z\""),
                number(4),
                call("g", vec![number(5)]),
                Expression::List(boxed(vec![number(6)])),
            ]
        )
    );
    assert_eq!(expression("f ()"), call("f", vec![]));
    assert_eq!(expression("f"), name("f"));
    assert_eq!(expression("(f)"), name("f"));
    assert_eq!(
        expression("1 + f () * 2"),
        binary(
            OpSymbol::Plus,
            number(1),
            binary(OpSymbol::Star, call("f", vec![]), number(2))
        )
    );
}

#[test]
fn lists_keep_their_order() {
    assert_eq!(expression("[]"), Expression::List(vec![]));
    assert_eq!(
        expression("[1, a + 2, [3], \"s\"]"),
        Expression::List(boxed(vec![
            number(1),
            binary(OpSymbol::Plus, name("a"), number(2)),
            Expression::List(boxed(vec![number(3)])),
            text("\"s\""),
        ]))
    );
}

#[test]
fn blocks_hold_every_line() {
    assert_eq!(
        parse("main =>\n  a\n  b 1\n\nnext => c"),
        Ok(vec![
            function("main", &[], vec![name("a"), call("b", vec![number(1)])]),
            function("next", &[], vec![name("c")]),
        ])
    );
    assert_eq!(
        parse("main =>\n  a\nnext => c"),
        Ok(vec![
            function("main", &[], vec![name("a")]),
            function("next", &[], vec![name("c")]),
        ])
    );
    assert_eq!(
        parse("\n\nf a b c =>\n      a\n      \n      b\n"),
        Ok(vec![function("f", &["a", "b", "c"], vec![name("a"), name("b")])])
    );
}

#[test]
fn bindings_with_and_without_a_body() {
    assert_eq!(
        expression("let a = 1"),
        Expression::ValueDecl { assigns: boxed(vec![assign(binds("a"), number(1))]), body: None }
    );
    assert_eq!(
        expression("let a = 1 b = a + 1 _ = 2 in a * b"),
        Expression::ValueDecl {
            assigns: boxed(vec![
                assign(binds("a"), number(1)),
                assign(binds("b"), binary(OpSymbol::Plus, name("a"), number(1))),
                assign(Pattern::Wildcard, number(2)),
            ]),
            body: Some(boxed(vec![binary(OpSymbol::Star, name("a"), name("b"))])),
        }
    );
    assert_eq!(
        parse("x =>\n  let a = 1\n  let b = 2 in\n    a\n    b\n  a"),
        Ok(vec![function(
            "x",
            &[],
            vec![
                Expression::ValueDecl {
                    assigns: boxed(vec![assign(binds("a"), number(1))]),
                    body: None,
                },
                Expression::ValueDecl {
                    assigns: boxed(vec![assign(binds("b"), number(2))]),
                    body: Some(boxed(vec![name("a"), name("b")])),
                },
                name("a"),
            ]
        )])
    );
}

#[test]
fn patterns_of_every_kind() {
    let pattern_of = |source: &str| match expression(&format!("let {} = 0", source)) {
        Expression::ValueDecl { mut assigns, body: None } => match *assigns.pop().unwrap() {
            Expression::ValueAssign { pat, .. } => pat,
            _ => panic!("not a binding"),
        },
        _ => panic!("not a declaration"),
    };
    assert_eq!(pattern_of("_"), Pattern::Wildcard);
    assert_eq!(pattern_of("7"), literal(7));
    assert_eq!(pattern_of("n"), binds("n"));
    assert_eq!(pattern_of("\"s\""), Pattern::StringLiteral(String::from("\"s\"")));
    assert_eq!(pattern_of(".."), range(None, None));
    assert_eq!(pattern_of("..9"), range(None, Some(literal(9))));
    assert_eq!(pattern_of("1.."), range(Some(literal(1)), None));
    assert_eq!(pattern_of("1..9"), range(Some(literal(1)), Some(literal(9))));
    assert_eq!(pattern_of("a..b"), range(Some(binds("a")), Some(binds("b"))));
    assert_eq!(pattern_of("_..\"z\""), range(
        Some(Pattern::Wildcard),
        Some(Pattern::StringLiteral(String::from("\"z\"")))
    ));
}

#[test]
fn a_pattern_before_a_block_guards_it() {
    assert_eq!(
        parse("x =>\n  1..5\n    a\n    b\n  n\n    c"),
        Ok(vec![function(
            "x",
            &[],
            vec![
                Expression::Destructure {
                    pat: range(Some(literal(1)), Some(literal(5))),
                    body: boxed(vec![name("a"), name("b")]),
                },
                Expression::Destructure { pat: binds("n"), body: boxed(vec![name("c")]) },
            ]
        )])
    );
}

#[test]
fn an_arm_with_several_lines_keeps_them_all() {
    assert_eq!(
        expression("match f n =>\n  0 =>\n    a\n    b\n  1 =>\n    c\n  _ => d"),
        Expression::Match {
            expr: Box::new(call("f", vec![name("n")])),
            args: vec![
                Expression::Destructure { pat: literal(0), body: boxed(vec![name("a"), name("b")]) },
                assign(literal(1), name("c")),
                assign(Pattern::Wildcard, name("d")),
            ],
        }
    );
}

#[test]
fn type_declarations() {
    let declared = |source: &str| match parse(&format!("t :: {}", source)).unwrap().pop() {
        Some(Statement::TypeDecl { name, body }) => {
            assert_eq!(name, "t");
            body
        }
        _ => panic!("not a type declaration"),
    };
    assert_eq!(declared("isize"), named("isize"));
    assert_eq!(declared("42"), Type::Nat(Integer::from_u64(42)));
    assert_eq!(declared("(a)"), named("a"));
    assert_eq!(declared("#{}"), Type::Tag(Tag::Assign { pats: vec![] }));
    assert_eq!(
        declared("a -> 3 -> c"),
        Type::FnSig {
            args: vec![Box::new(named("a")), Box::new(Type::Nat(Integer::from_u64(3)))],
            ret: Box::new(named("c")),
        }
    );
    assert_eq!(
        declared("(a -> b) -> #{x} -> c"),
        Type::FnSig {
            args: vec![
                Box::new(Type::FnSig {
                    args: vec![Box::new(named("a"))],
                    ret: Box::new(named("b")),
                }),
                Box::new(Type::Tag(member("x"))),
            ],
            ret: Box::new(named("c")),
        }
    );
}

#[test]
fn type_ascription() {
    assert_eq!(
        expression("a + 1 :: int -> int"),
        Expression::TypeDecl {
            ty: Type::FnSig { args: vec![Box::new(named("int"))], ret: Box::new(named("int")) },
            expr: Box::new(binary(OpSymbol::Plus, name("a"), number(1))),
        }
    );
    assert_eq!(
        expression("let a = 1 :: nat"),
        Expression::ValueDecl {
            assigns: boxed(vec![assign(
                binds("a"),
                Expression::TypeDecl { ty: named("nat"), expr: Box::new(number(1)) }
            )]),
            body: None,
        }
    );
}

#[test]
fn tags() {
    let combined = |op: OpSymbol, left: Tag, right: Tag| Tag::OpCall {
        op,
        args: vec![Box::new(left), Box::new(right)],
    };
    assert_eq!(
        expression("tag a = B"),
        Expression::TagAssign { tag: member("a"), expr: root("B") }
    );
    assert_eq!(
        expression("tag #{a, B, c} = #{x + Y - z}"),
        Expression::TagAssign {
            tag: Tag::Assign {
                pats: vec![Box::new(member("a")), Box::new(root("B")), Box::new(member("c"))],
            },
            expr: combined(
                OpSymbol::Minus,
                combined(OpSymbol::Plus, member("x"), root("Y")),
                member("z")
            ),
        }
    );
    assert_eq!(
        expression("tag #{a + b * c} = #{#{}, #{d}, e ^ f ^ g}"),
        Expression::TagAssign {
            tag: combined(
                OpSymbol::Star,
                combined(OpSymbol::Plus, member("a"), member("b")),
                member("c")
            ),
            expr: Tag::Assign {
                pats: vec![
                    Box::new(Tag::Assign { pats: vec![] }),
                    Box::new(member("d")),
                    Box::new(combined(
                        OpSymbol::Circumflex,
                        combined(OpSymbol::Circumflex, member("e"), member("f")),
                        member("g")
                    )),
                ],
            },
        }
    );
}

#[test]
fn errors_name_what_was_expected() {
    assert_eq!(failure("= 1"), unexpected(0, Token::Equal, Expected::Statement));
    assert_eq!(failure("x => f 1\n  2"), unexpected(8, Indent, Expected::Separator));
    assert_eq!(
        failure("f a b a => 1"),
        unexpected(6, Token::Identifier(String::from("a")), Expected::FreshParameter)
    );
    assert_eq!(
        failure("f 1 => 1"),
        unexpected(2, Token::Integer(Integer::from_u64(1)), Expected::Arrow)
    );
    assert_eq!(failure("f a"), ended(2, Expected::Arrow));
    assert_eq!(failure("x => 1 +"), ended(7, Expected::Expression));
    assert_eq!(failure("x => é"), unexpected(5, Token::Unknown('é'), Expected::Expression));
    assert_eq!(
        failure("x => 1.5"),
        unexpected(5, Token::Float(String::from("1.5")), Expected::Expression)
    );
    assert_eq!(failure("x => 2 ** 3"), unexpected(7, Token::StarStar, Expected::Separator));
    assert_eq!(failure("x =>\n"), unexpected(4, Newline, Expected::Expression));
    assert_eq!(failure("x => (1"), ended(6, Expected::ClosingParenthesis));
    assert_eq!(failure("x => ()"), unexpected(6, Token::Symbol(')'), Expected::Expression));
    assert_eq!(
        failure("x => [1 2]"),
        unexpected(8, Token::Integer(Integer::from_u64(2)), Expected::ClosingBracket)
    );
    assert_eq!(failure("x => [1,]"), unexpected(8, Token::Symbol(']'), Expected::Expression));
    assert_eq!(
        failure("x => let a 1"),
        unexpected(11, Token::Integer(Integer::from_u64(1)), Expected::Equal)
    );
    assert_eq!(failure("x => let = 1"), unexpected(9, Token::Equal, Expected::Pattern));
    assert_eq!(failure("x => _"), ended(5, Expected::Indent));
    assert_eq!(failure("x => .. + 1"), unexpected(8, Token::Symbol('+'), Expected::Indent));
    assert_eq!(failure("x => match a\n"), unexpected(12, Newline, Expected::Arrow));
    assert_eq!(
        failure("x => match a => 1"),
        unexpected(16, Token::Integer(Integer::from_u64(1)), Expected::Indent)
    );
    assert_eq!(
        failure("x => match a =>\n  => 1"),
        unexpected(18, Token::LargeArrowRight, Expected::Pattern)
    );
    assert_eq!(
        failure("x => match a =>\n  1 -> 1"),
        unexpected(20, Token::SmallArrowRight, Expected::Arrow)
    );
    assert_eq!(failure("t :: =>"), unexpected(5, Token::LargeArrowRight, Expected::Type));
    assert_eq!(failure("t :: (a"), ended(6, Expected::ClosingParenthesis));
    assert_eq!(
        failure("t :: #{a b}"),
        unexpected(9, Token::Identifier(String::from("b")), Expected::ClosingBrace)
    );
    assert_eq!(failure("x => tag = a"), unexpected(9, Token::Equal, Expected::Tag));
    assert_eq!(failure("x => tag a b"), unexpected(11, Token::Identifier(String::from("b")), Expected::Equal));
    assert_eq!(
        failure("a => 1 b => 2"),
        unexpected(7, Token::Identifier(String::from("b")), Expected::Separator)
    );
}

#[test]
fn an_item_needs_a_line_of_its_own() {
    let line = |token: Token, offset: usize| Lexeme { token, offset };
    let id = |text: &str| Token::Identifier(String::from(text));
    let one = Token::Integer(Integer::from_u64(1));
    // x => Indent 1 1 Dedent
    let crowded = vec![
        line(id("x"), 0),
        line(Token::LargeArrowRight, 2),
        line(Indent, 4),
        line(one.clone(), 7),
        line(one.clone(), 9),
        line(Dedent, 10),
    ];
    assert_eq!(parse_tokens(&crowded), Err(unexpected(9, one.clone(), Expected::Separator)));
    // x => Indent 1 Newline Newline 1 Newline Dedent
    let spaced = vec![
        line(id("x"), 0),
        line(Token::LargeArrowRight, 2),
        line(Indent, 4),
        line(one.clone(), 7),
        line(Newline, 8),
        line(Newline, 9),
        line(one.clone(), 12),
        line(Newline, 13),
        line(Dedent, 14),
    ];
    assert_eq!(
        parse_tokens(&spaced),
        Ok(vec![function("x", &[], vec![number(1), number(1)])])
    );
}

#[test]
fn errors_of_the_earlier_stages_come_through() {
    assert_eq!(
        parse("x =>\n    a\n  b"),
        Err(ParseError {
            kind: ErrorKind::IndentationError,
            position: 10,
            found: Found::Depth(1),
            expected: Expected::Depth(0),
        })
    );
    let id = |text: &str| Token::Identifier(String::from(text));
    let failed = vec![
        Lexeme { token: id("x"), offset: 0 },
        Lexeme { token: Token::LargeArrowRight, offset: 2 },
        Lexeme { token: LexError, offset: 5 },
    ];
    assert_eq!(
        parse_tokens(&failed),
        Err(ParseError {
            kind: ErrorKind::LexError,
            position: 5,
            found: Found::Token(LexError),
            expected: Expected::Expression,
        })
    );
    let marked = vec![
        Lexeme { token: id("x"), offset: 0 },
        Lexeme { token: Token::Error(String::from("bad indentation")), offset: 2 },
    ];
    assert_eq!(
        parse_tokens(&marked),
        Err(ParseError {
            kind: ErrorKind::IndentationError,
            position: 2,
            found: Found::Token(Token::Error(String::from("bad indentation"))),
            expected: Expected::Arrow,
        })
    );
}

#[test]
fn the_first_error_in_the_text_is_reported() {
    // the parenthesis is never closed, and the last line returns to a depth
    // that no block has
    assert_eq!(failure("x => (\n    a\n  b"), unexpected(6, Indent, Expected::Expression));
    // here the grammar fails only after the bad indentation
    assert_eq!(
        failure("x =>\n    a\n  b )"),
        ParseError {
            kind: ErrorKind::IndentationError,
            position: 10,
            found: Found::Depth(1),
            expected: Expected::Depth(0),
        }
    );
    // and here at the very place of it
    assert_eq!(
        failure("x => f\n    (\n  b"),
        ParseError {
            kind: ErrorKind::IndentationError,
            position: 12,
            found: Found::Depth(1),
            expected: Expected::Depth(0),
        }
    );
    assert_eq!(failure("= 1\n    a\n  b"), unexpected(0, Token::Equal, Expected::Statement));
}

#[test]
fn the_stages_compose() {
    let source = "f a =>\n  g a\n";
    assert_eq!(parse_tokens(&normalize(&scan(source)).unwrap()), parse(source));
}

#[test]
fn trees_can_be_copied() {
    let source = "t :: (a -> #{x + Y, z}) -> 3\nf a b => match g a [1, \"s\"] =>\n  ..2 => let c = a ^ 2 d = 2 in c\n  _ =>\n    tag #{p} = Q\n    n\n      a :: t\n";
    let program = parse(source).unwrap();
    assert_eq!(program.len(), 2);
    let copy = program.clone();
    assert_eq!(copy, program);
    assert_eq!(parse(source), Ok(copy));
    let error = parse("x => (").unwrap_err();
    assert_eq!(error.clone(), error);
}
