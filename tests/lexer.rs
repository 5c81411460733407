use redc::error::ErrorKind;
use redc::lexer::{BinOpKind, Keyword, LexErrorKind, Lexer, Punct, Token};

const SOURCE: &[u8] = "
        num1 = 324;\n\t\
        num2 =    345;\
        \n\n\nnum3=4;\n\
        num3 = num1 == num2;\n\
        fn some()
    "
.as_bytes();

fn ident(s: &str) -> Token {
    Token::Ident(s.as_bytes().to_vec())
}

#[test]
fn peek() {
    let mut lexer = Lexer::new(SOURCE);
    let t1 = lexer.peek_any();
    let t2 = lexer.peek_any();
    let t3 = lexer.next_any();
    let t4 = lexer.next_any();
    assert_eq!(t1, t2);
    assert_eq!(t1, t3);
    assert_ne!(t1, t4);
}

#[test]
fn test_next() {
    let mut lexer = Lexer::new(SOURCE);
    let expected = [
        ident("num1"),
        Token::Punct(Punct::Eq),
        Token::Number(324),
        Token::Punct(Punct::Semicolon),
        ident("num2"),
        Token::Punct(Punct::Eq),
        Token::Number(345),
        Token::Punct(Punct::Semicolon),
        ident("num3"),
        Token::Punct(Punct::Eq),
        Token::Number(4),
        Token::Punct(Punct::Semicolon),
        ident("num3"),
        Token::Punct(Punct::Eq),
        ident("num1"),
        Token::BinOp(BinOpKind::Eq),
        ident("num2"),
        Token::Punct(Punct::Semicolon),
        Token::Keyword(Keyword::Fn),
        ident("some"),
        Token::Punct(Punct::OpenParen),
    ];

    for (i, x) in expected.iter().enumerate() {
        let token = lexer.expect_any().unwrap();
        assert_eq!(token, x.clone(), "{i}");
    }
}

#[test]
fn peek_then_next_gives_the_following_token() {
    let mut lexer = Lexer::new(b"a b");
    assert_eq!(lexer.peek_any(), Ok(Some(ident("a"))));
    assert_eq!(lexer.peek_any(), Ok(Some(ident("a"))));
    assert_eq!(lexer.next_any(), Ok(Some(ident("a"))));
    assert_eq!(lexer.peek_any(), Ok(Some(ident("b"))));
    assert_eq!(lexer.next_any(), Ok(Some(ident("b"))));
    assert_eq!(lexer.peek_any(), Ok(None));
    assert_eq!(lexer.next_any(), Ok(None));
}

fn all_tokens(src: &[u8], peek_first: bool) -> Vec<Token> {
    let mut lexer = Lexer::new(src);
    let mut out = Vec::new();
    loop {
        if peek_first {
            let _ = lexer.peek_any();
        }
        match lexer.next_any().unwrap() {
            Some(t) => out.push(t),
            None => return out,
        }
    }
}

#[test]
fn peeking_before_each_read_changes_nothing() {
    let src = b"fn main() int { x := 1 + 2; if x >= 3 { log(x); } return x; }";
    assert_eq!(all_tokens(src, false), all_tokens(src, true));
    assert_eq!(all_tokens(SOURCE, false), all_tokens(SOURCE, true));
}

#[test]
fn two_char_operators_are_one_token() {
    let cases: [(&[u8], BinOpKind); 6] = [
        (b"==", BinOpKind::Eq),
        (b"!=", BinOpKind::Ne),
        (b"&&", BinOpKind::And),
        (b"||", BinOpKind::Or),
        (b">=", BinOpKind::Ge),
        (b"<=", BinOpKind::Le),
    ];
    for (src, kind) in cases {
        assert_eq!(all_tokens(src, false), vec![Token::BinOp(kind)]);
    }
    assert_eq!(
        all_tokens(b"= =", false),
        vec![Token::Punct(Punct::Eq), Token::Punct(Punct::Eq)]
    );
    assert_eq!(
        all_tokens(b"< >", false),
        vec![Token::BinOp(BinOpKind::Lt), Token::BinOp(BinOpKind::Gt)]
    );
}

#[test]
fn keywords_and_identifiers() {
    assert_eq!(
        all_tokens(b"if else fn return for int iffy int2 break", false),
        vec![
            Token::Keyword(Keyword::If),
            Token::Keyword(Keyword::Else),
            Token::Keyword(Keyword::Fn),
            Token::Keyword(Keyword::Return),
            Token::Keyword(Keyword::For),
            Token::Keyword(Keyword::Int),
            ident("iffy"),
            ident("int2"),
            ident("break"),
        ]
    );
}

#[test]
fn string_literal_token() {
    assert_eq!(
        all_tokens(b"cmd(\"say hi\");", false),
        vec![
            ident("cmd"),
            Token::Punct(Punct::OpenParen),
            Token::StrLit(b"say hi".to_vec()),
            Token::Punct(Punct::CloseParen),
            Token::Punct(Punct::Semicolon),
        ]
    );
    let mut lexer = Lexer::new(b"\"open");
    let e = lexer.next_any().unwrap_err();
    assert_eq!(e.kind, ErrorKind::Lexical(LexErrorKind::UnterminatedString));
}

#[test]
fn largest_number_and_one_past_it() {
    let mut lexer = Lexer::new(b"2147483647 2147483648");
    assert_eq!(lexer.next_any(), Ok(Some(Token::Number(2147483647))));
    let e = lexer.next_any().unwrap_err();
    assert_eq!(e.kind, ErrorKind::Lexical(LexErrorKind::InvalidNumber));
}

#[test]
fn oversized_integer_fails() {
    let mut lexer = Lexer::new(b"123412341234123412341234");
    let e = lexer.expect_any().unwrap_err();
    assert_eq!(e.kind, ErrorKind::Lexical(LexErrorKind::InvalidNumber));
    let mut lexer = Lexer::new(b"123412341234123412341234123412341234");
    let e = lexer.expect_any().unwrap_err();
    assert_eq!(e.kind, ErrorKind::Lexical(LexErrorKind::InvalidNumber));
}

#[test]
fn invalid_byte_fails() {
    let mut lexer = Lexer::new(b"\xE0");
    let e = lexer.expect_any().unwrap_err();
    assert_eq!(e.kind, ErrorKind::Lexical(LexErrorKind::UndefinedToken));
    let mut lexer = Lexer::new(b"a # b");
    assert_eq!(lexer.next_any(), Ok(Some(ident("a"))));
    let e = lexer.next_any().unwrap_err();
    assert_eq!(e.kind, ErrorKind::Lexical(LexErrorKind::UndefinedToken));
    assert_eq!((e.loc.row, e.loc.col), (1, 3));
}

#[test]
fn locations_follow_rows_and_columns() {
    let mut lexer = Lexer::new(b"a\n  bc d");
    lexer.next_any().unwrap();
    assert_eq!((lexer.loc.row, lexer.loc.col), (1, 1));
    lexer.next_any().unwrap();
    assert_eq!((lexer.loc.row, lexer.loc.col), (2, 3));
    lexer.next_any().unwrap();
    assert_eq!((lexer.loc.row, lexer.loc.col), (2, 6));
}

#[test]
fn expect_errors() {
    let mut lexer = Lexer::new(SOURCE);
    let e = lexer.expect_punct(Punct::Eq).unwrap_err();
    assert_eq!(e.kind, ErrorKind::UnexpectedToken(ident("num1")));

    let mut lexer = Lexer::new(SOURCE);
    assert_eq!(lexer.expect_ident(), Ok(b"num1".to_vec()));
    let e = lexer.expect_ident().unwrap_err();
    assert_eq!(e.kind, ErrorKind::UnexpectedToken(Token::Punct(Punct::Eq)));

    let mut lexer = Lexer::new(b"   ");
    assert_eq!(lexer.expect_any().unwrap_err().kind, ErrorKind::UnexpectedEnd);
    assert_eq!(lexer.expect_peek_any().unwrap_err().kind, ErrorKind::UnexpectedEnd);
}

#[test]
fn unexpected_token_error_carries_the_token() {
    let mut lexer = Lexer::new(SOURCE);
    let t = lexer.expect_any().unwrap();
    assert_eq!(t, ident("num1"));
    let t = lexer.expect_any().unwrap();
    let e = lexer.unexpected_token_err(t.clone());
    assert_eq!(e.kind, ErrorKind::UnexpectedToken(t));
    assert_eq!((e.loc.row, e.loc.col), (2, 14));
}
