use curly::token::{lex, Keyword, Lexer, Literal, StringLiteral, Token, Word};

fn word(s: &str) -> Token {
    Token::Word(Word(s.as_bytes().to_vec()))
}

fn string(bytes: &[u8]) -> Token {
    Token::Literal(Literal::String(StringLiteral(bytes.to_vec())))
}

#[test]
fn lex_func_is_keyword() {
    assert_eq!(lex(b"func".to_vec()), vec![Token::Keyword(Keyword::Func)]);
    assert_eq!(lex(b"func ".to_vec()), vec![Token::Keyword(Keyword::Func)]);
}

#[test]
fn lex_other_identifiers_are_words() {
    assert_eq!(lex(b"funcs".to_vec()), vec![word("funcs")]);
    assert_eq!(lex(b"fun".to_vec()), vec![word("fun")]);
    assert_eq!(lex(b"_a1".to_vec()), vec![word("_a1")]);
    assert_eq!(lex(b"Func".to_vec()), vec![word("Func")]);
}

#[test]
fn lex_escape_newline() {
    assert_eq!(lex(b"\"a\\nb\"".to_vec()), vec![string(&[b'a', 0x0A, b'b'])]);
}

#[test]
fn lex_escaped_quote_stays_inside() {
    assert_eq!(lex(b"\"a\\\"b\"".to_vec()), vec![string(b"a\"b")]);
}

#[test]
fn lex_other_escape_drops_backslash() {
    assert_eq!(lex(b"\"\\t\\\\\"".to_vec()), vec![string(b"t\\")]);
}

#[test]
fn lex_punctuation() {
    assert_eq!(
        lex(b"(){}:;.,".to_vec()),
        vec![
            Token::LeftParen,
            Token::RightParen,
            Token::LeftBrace,
            Token::RightBrace,
            Token::Colon,
            Token::Semicolon,
            Token::Dot,
            Token::Comma,
        ]
    );
}

#[test]
fn lex_unknown_bytes_are_dropped() {
    assert_eq!(lex(b" \t\n@#$%+-*/".to_vec()), vec![]);
    assert_eq!(lex(Vec::new()), vec![]);
}

#[test]
fn lex_word_then_punctuation() {
    assert_eq!(lex(b"a;".to_vec()), vec![word("a"), Token::Semicolon]);
    assert_eq!(
        lex(b"a(b".to_vec()),
        vec![word("a"), Token::LeftParen, word("b")]
    );
    assert_eq!(
        lex(b"x.y();".to_vec()),
        vec![
            word("x"),
            Token::Dot,
            word("y"),
            Token::LeftParen,
            Token::RightParen,
            Token::Semicolon,
        ]
    );
}

#[test]
fn lex_digit_does_not_start_a_word() {
    assert_eq!(lex(b"1abc 2".to_vec()), vec![word("abc")]);
    assert_eq!(lex(b"a1 b2".to_vec()), vec![word("a1"), word("b2")]);
}

#[test]
fn lex_unterminated_string_is_dropped() {
    assert_eq!(lex(b"x \"abc".to_vec()), vec![word("x")]);
}

#[test]
fn lex_string_then_word() {
    assert_eq!(
        lex(b"\"hi\"there".to_vec()),
        vec![string(b"hi"), word("there")]
    );
}

#[test]
fn lex_words_never_empty() {
    let input: Vec<u8> = (0u16..512).map(|i| (i * 37 % 256) as u8).collect();
    for t in lex(input) {
        if let Token::Word(Word(w)) = t {
            assert!(!w.is_empty());
            assert!(w[0] == b'_' || w[0].is_ascii_alphabetic());
            assert!(w.iter().all(|c| *c == b'_' || c.is_ascii_alphanumeric()));
        }
    }
}

#[test]
fn lex_no_punctuation_without_punctuation_bytes() {
    let input: Vec<u8> = b"abc \"x\" 12 @ def"
        .iter()
        .copied()
        .collect();
    for t in lex(input) {
        assert!(matches!(t, Token::Word(_) | Token::Literal(_) | Token::Keyword(_)));
    }
}

#[test]
fn lexer_pulls_one_token_at_a_time() {
    let mut lexer = Lexer::new(b"func f".to_vec());
    assert_eq!(lexer.next(), Some(Token::Keyword(Keyword::Func)));
    assert_eq!(lexer.next(), Some(word("f")));
    assert_eq!(lexer.next(), None);
    assert_eq!(lexer.next(), None);
}

#[test]
fn token_duplicate_is_equal() {
    let t = string(b"abc");
    assert_eq!(t.duplicate(), t);
    let w = word("abc");
    assert_eq!(w.duplicate(), w);
}

#[test]
fn lex_at_most_one_token_per_byte() {
    let input = b"a;b(c)d{e}f:g.h,".to_vec();
    let n = input.len();
    let tokens = lex(input);
    assert_eq!(tokens.len(), 16);
    assert!(tokens.len() <= n);
    assert_eq!(lex(b";;;".to_vec()).len(), 3);
}

#[test]
fn lex_punct_count_bounded_by_bytes() {
    let input = b"x;\";;\"y;".to_vec();
    let tokens = lex(input);
    let semis = tokens.iter().filter(|t| **t == Token::Semicolon).count();
    assert_eq!(semis, 2);
    assert!(semis <= 4);
}

#[test]
fn lex_word_never_spells_func() {
    for t in lex(b"func funcx xfunc func_ fun c".to_vec()) {
        if let Token::Word(Word(w)) = t {
            assert_ne!(w, b"func".to_vec());
        }
    }
}
