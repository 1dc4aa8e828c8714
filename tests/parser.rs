use curly::ast::{
    parse_source, Argument, Block, Error, Expression, Function, Item, Module, Statement, Tokens,
};
use curly::token::{lex, Literal, StringLiteral, Token, Word};

fn tokens(src: &str) -> Tokens {
    Tokens::new(lex(src.as_bytes().to_vec()))
}

fn is_word(e: &Expression, name: &str) -> bool {
    matches!(e, Expression::Word(Word(w)) if w.as_slice() == name.as_bytes())
}

fn expect_unexpected(r: Result<impl std::fmt::Debug, Error>, expected_text: &str, token: Token) {
    match r {
        Err(Error::Unexpected { expected, got }) => {
            assert_eq!(expected, expected_text);
            assert_eq!(got, token);
        }
        other => panic!("unexpected result: {:?}", other),
    }
}

#[test]
fn parse_function_round_trip_shape() {
    let module = parse_source(b"func f(x: T) { x.y(); }".to_vec()).unwrap();
    assert_eq!(module.items.len(), 1);
    let Item::Function(Function { name, args, body }) = &module.items[0];
    assert_eq!(name.0, b"f".to_vec());
    assert_eq!(args.len(), 1);
    assert_eq!(args[0].name.0, b"x".to_vec());
    assert_eq!(args[0].type_.0, b"T".to_vec());
    assert_eq!(body.statements.len(), 1);
    let Statement::Expression(e) = &body.statements[0];
    match e {
        Expression::Call(call) => {
            assert!(call.args.is_empty());
            match call.left.as_ref() {
                Expression::Dot(dot) => {
                    assert!(is_word(&dot.left, "x"));
                    assert!(is_word(&dot.right, "y"));
                }
                other => panic!("not a dot: {:?}", other),
            }
        }
        other => panic!("not a call: {:?}", other),
    }
}

#[test]
fn parse_dot_is_left_associative() {
    let mut ts = tokens("a.b.c;");
    let Statement::Expression(e) = Statement::parse(&mut ts).unwrap();
    match e {
        Expression::Dot(outer) => {
            assert!(is_word(&outer.right, "c"));
            match outer.left.as_ref() {
                Expression::Dot(inner) => {
                    assert!(is_word(&inner.left, "a"));
                    assert!(is_word(&inner.right, "b"));
                }
                other => panic!("not a dot: {:?}", other),
            }
        }
        other => panic!("not a dot: {:?}", other),
    }
    assert!(ts.peek().is_none());
}

#[test]
fn parse_missing_close_paren() {
    let r = parse_source(b"func f(x: T { }".to_vec());
    expect_unexpected(r, "`,` or `)`", Token::LeftBrace);
}

#[test]
fn parse_unclosed_body_is_eof() {
    let r = parse_source(b"func f() {".to_vec());
    assert!(matches!(r, Err(Error::Eof)));
    let r = Function::parse(&mut tokens("func f() {"));
    assert!(matches!(r, Err(Error::Eof)));
}

#[test]
fn parse_empty_module() {
    let module = parse_source(Vec::new()).unwrap();
    assert!(module.items.is_empty());
}

#[test]
fn parse_module_stops_at_right_brace() {
    let mut ts = tokens("func a() {} }");
    let module = Module::parse(&mut ts).unwrap();
    assert_eq!(module.items.len(), 1);
    assert_eq!(ts.peek(), Some(&Token::RightBrace));
}

#[test]
fn parse_leftover_token_is_error() {
    let r = parse_source(b"func a() {} }".to_vec());
    expect_unexpected(r, "eof", Token::RightBrace);
}

#[test]
fn parse_item_needs_func() {
    let r = Item::parse(&mut tokens("x"));
    expect_unexpected(r, "`func`", Token::Word(Word(b"x".to_vec())));
    assert!(matches!(Item::parse(&mut tokens("")), Err(Error::Eof)));
}

#[test]
fn parse_function_errors() {
    expect_unexpected(Function::parse(&mut tokens("func (")), "word", Token::LeftParen);
    expect_unexpected(
        Function::parse(&mut tokens("func f {")),
        "opening parentheses `(`",
        Token::LeftBrace,
    );
    expect_unexpected(Function::parse(&mut tokens("func f() ;")), "`{`", Token::Semicolon);
    expect_unexpected(Function::parse(&mut tokens("func f() { a; ,")), "word, literal, or `{`", Token::Comma);
    assert!(matches!(Function::parse(&mut tokens("func f(")), Err(Error::Eof)));
}

#[test]
fn parse_arguments() {
    let f = Function::parse(&mut tokens("func g(a: A, b: B) {}")).unwrap();
    let names: Vec<(Vec<u8>, Vec<u8>)> =
        f.args.iter().map(|a: &Argument| (a.name.0.clone(), a.type_.0.clone())).collect();
    assert_eq!(
        names,
        vec![(b"a".to_vec(), b"A".to_vec()), (b"b".to_vec(), b"B".to_vec())]
    );
    let dup = Function::parse(&mut tokens("func g(a: A, a: A) {}")).unwrap();
    assert_eq!(dup.args.len(), 2);
}

#[test]
fn parse_trailing_comma_in_arguments() {
    expect_unexpected(Function::parse(&mut tokens("func f(x: T,) {}")), "word", Token::RightParen);
    expect_unexpected(Function::parse(&mut tokens("func f(x: T,)")), "word", Token::RightParen);
    let f = Function::parse(&mut tokens("func f() {}")).unwrap();
    assert!(f.args.is_empty());
}

#[test]
fn parse_item_leaves_other_token() {
    let mut ts = tokens("x");
    assert!(Item::parse(&mut ts).is_err());
    assert_eq!(ts.peek(), Some(&Token::Word(Word(b"x".to_vec()))));
}

#[test]
fn parse_argument_errors() {
    expect_unexpected(Argument::parse(&mut tokens("a b")), "`:`", Token::Word(Word(b"b".to_vec())));
    expect_unexpected(Argument::parse(&mut tokens("a: ;")), "word", Token::Semicolon);
    expect_unexpected(Argument::parse(&mut tokens(";")), "word", Token::Semicolon);
    assert!(matches!(Argument::parse(&mut tokens("a:")), Err(Error::Eof)));
}

#[test]
fn parse_statement_needs_semicolon() {
    expect_unexpected(
        Statement::parse(&mut tokens("a b")),
        "semicolon `;`",
        Token::Word(Word(b"b".to_vec())),
    );
    assert!(matches!(Statement::parse(&mut tokens("a")), Err(Error::Eof)));
}

#[test]
fn parse_call_chain() {
    let e = Expression::parse(&mut tokens("f(x).g(y, z)")).unwrap();
    match e {
        Expression::Call(outer) => {
            assert_eq!(outer.args.len(), 2);
            assert!(is_word(&outer.args[0], "y"));
            assert!(is_word(&outer.args[1], "z"));
            match outer.left.as_ref() {
                Expression::Dot(dot) => {
                    assert!(is_word(&dot.right, "g"));
                    match dot.left.as_ref() {
                        Expression::Call(inner) => {
                            assert!(is_word(&inner.left, "f"));
                            assert_eq!(inner.args.len(), 1);
                            assert!(is_word(&inner.args[0], "x"));
                        }
                        other => panic!("not a call: {:?}", other),
                    }
                }
                other => panic!("not a dot: {:?}", other),
            }
        }
        other => panic!("not a call: {:?}", other),
    }
}

#[test]
fn parse_call_argument_errors() {
    expect_unexpected(Expression::parse(&mut tokens("f(a b)")), "`,` or `)`", Token::Word(Word(b"b".to_vec())));
    assert!(matches!(Expression::parse(&mut tokens("f(a,")), Err(Error::Eof)));
    expect_unexpected(
        Expression::parse(&mut tokens("f(a,)")),
        "word, literal, or `{`",
        Token::RightParen,
    );
    let e = Expression::parse(&mut tokens("f()")).unwrap();
    assert!(matches!(e, Expression::Call(c) if c.args.is_empty()));
}

#[test]
fn parse_base_terms() {
    let lit = Expression::parse_base(&mut tokens("\"s\"")).unwrap();
    assert!(matches!(lit, Expression::Literal(Literal::String(StringLiteral(s))) if s == b"s".to_vec()));
    let block = Expression::parse_base(&mut tokens("{ a; b; }")).unwrap();
    assert!(matches!(block, Expression::Block(Block { statements }) if statements.len() == 2));
    expect_unexpected(Expression::parse_base(&mut tokens(")")), "word, literal, or `{`", Token::RightParen);
    assert!(matches!(Expression::parse_base(&mut tokens("{ a; ")), Err(Error::Eof)));
    expect_unexpected(Expression::parse_base(&mut tokens("{ a; ;")), "word, literal, or `{`", Token::Semicolon);
}

#[test]
fn parse_block_body() {
    let mut ts = tokens("a; b.c; }");
    let block = Block::parse_body(&mut ts).unwrap();
    assert_eq!(block.statements.len(), 2);
    assert_eq!(ts.next(), Some(Token::RightBrace));
    assert!(matches!(Block::parse_body(&mut tokens("a;")), Err(Error::Eof)));
}
