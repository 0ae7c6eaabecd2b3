use mat::lexer::{Lexer, Token};

fn tokens_with_pos(src: &str) -> Vec<(Token, (usize, usize))> {
    let mut l = Lexer::new(src);
    let mut out = Vec::new();
    loop {
        let pos = l.pos();
        let t = l.next();
        let done = t == Token::EOF;
        out.push((t, pos));
        if done {
            break;
        }
    }
    out
}

fn tokens(src: &str) -> Vec<Token> {
    tokens_with_pos(src).into_iter().map(|(t, _)| t).collect()
}

#[test]
fn lexes_an_assignment_with_positions() {
    let got = tokens_with_pos("x = 1 + 2;");
    let want = vec![
        (Token::Identifier("x".to_string()), (1, 2)),
        (Token::Assign, (1, 4)),
        (Token::Number("1".to_string()), (1, 6)),
        (Token::Plus, (1, 8)),
        (Token::Number("2".to_string()), (1, 10)),
        (Token::Semicolon, (1, 11)),
        (Token::EOF, (1, 11)),
    ];
    assert_eq!(got, want);
}

#[test]
fn signed_numbers_and_the_column_of_their_first_digit() {
    let got = tokens_with_pos("+12 -3.5");
    let want = vec![
        (Token::Number("+12".to_string()), (1, 3)),
        (Token::Number("-3.5".to_string()), (1, 7)),
        (Token::EOF, (1, 7)),
    ];
    assert_eq!(got, want);
}

#[test]
fn newlines_start_a_new_line_at_column_one() {
    let mut l = Lexer::new("a\n  b");
    assert_eq!(l.pos(), (1, 2));
    assert_eq!(l.next(), Token::Identifier("a".to_string()));
    assert_eq!(l.pos(), (2, 4));
    assert_eq!(l.peek(), Token::Identifier("b".to_string()));
}

#[test]
fn keywords_and_identifiers() {
    assert_eq!(
        tokens("fn if else return print true false foo a1"),
        vec![
            Token::Func,
            Token::If,
            Token::Else,
            Token::Return,
            Token::Print,
            Token::True,
            Token::False,
            Token::Identifier("foo".to_string()),
            Token::Identifier("a1".to_string()),
            Token::EOF,
        ]
    );
}

#[test]
fn underscores_stand_before_the_first_digit() {
    assert_eq!(
        tokens("x_y __z a1_b"),
        vec![
            Token::Identifier("x_y".to_string()),
            Token::Identifier("__z".to_string()),
            Token::Identifier("a1".to_string()),
            Token::Identifier("_b".to_string()),
            Token::EOF,
        ]
    );
}

#[test]
fn operators() {
    assert_eq!(
        tokens("<= >= == < > = ( ) { } , ; * / ^ + -"),
        vec![
            Token::LessEqual,
            Token::GreaterEqual,
            Token::Equal,
            Token::Less,
            Token::Greater,
            Token::Assign,
            Token::LParen,
            Token::RParen,
            Token::LBracket,
            Token::RBracket,
            Token::Comma,
            Token::Semicolon,
            Token::Star,
            Token::Slash,
            Token::Caret,
            Token::Plus,
            Token::Minus,
            Token::EOF,
        ]
    );
}

#[test]
fn illegal_character() {
    assert_eq!(
        tokens("@"),
        vec![Token::Illegal("erroneous character".to_string()), Token::EOF]
    );
}

#[test]
fn a_fraction_needs_digits() {
    assert_eq!(
        tokens("1.2.3 4."),
        vec![
            Token::Number("1.2".to_string()),
            Token::Illegal("erroneous character".to_string()),
            Token::Number("3".to_string()),
            Token::Number("4".to_string()),
            Token::Illegal("erroneous character".to_string()),
            Token::EOF,
        ]
    );
}

#[test]
fn end_of_input_repeats() {
    let mut l = Lexer::new("  ");
    assert_eq!(l.peek(), Token::EOF);
    assert_eq!(l.next(), Token::EOF);
    assert_eq!(l.next(), Token::EOF);
    assert_eq!(l.pos(), (1, 3));
}

#[test]
fn debug_text_of_tokens() {
    assert_eq!(Token::Semicolon.debug_text(), format!("{:?}", Token::Semicolon));
    let id = Token::Identifier("abc".to_string());
    assert_eq!(id.debug_text(), format!("{:?}", id));
    let il = Token::Illegal("erroneous character".to_string());
    assert_eq!(il.debug_text(), format!("{:?}", il));
}

#[test]
fn line_counts_every_newline_read() {
    let mut l = Lexer::new("a\n\n b\r\n\nc");
    assert_eq!(l.pos().0, 1);
    l.next();
    assert_eq!(l.pos().0, 3);
    l.next();
    assert_eq!(l.pos().0, 5);
    assert_eq!(l.next(), Token::Identifier("c".to_string()));
    assert_eq!(l.next(), Token::EOF);
    assert_eq!(l.pos().0, 5);
}

#[test]
fn column_counts_characters_since_the_line_start() {
    let mut l = Lexer::new("ab >= 7\n  cd");
    assert_eq!(l.pos(), (1, 3));
    l.next();
    assert_eq!(l.pos(), (1, 6));
    l.next();
    assert_eq!(l.pos(), (1, 8));
    l.next();
    assert_eq!(l.pos(), (2, 5));
    let signed = Lexer::new("-42");
    assert_eq!(signed.pos(), (1, 3));
}

#[test]
fn peek_second_reads_without_moving() {
    let mut l = Lexer::new("x = 1");
    assert_eq!(l.peek_second(), Token::Assign);
    assert_eq!(l.pos(), (1, 2));
    assert_eq!(l.next(), Token::Identifier("x".to_string()));
    assert_eq!(l.next(), Token::Assign);
}

#[test]
fn debug_text_matches_debug_formatting() {
    for t in [
        Token::Number("1.5".to_string()),
        Token::Identifier("x".to_string()),
        Token::Illegal("erroneous character".to_string()),
        Token::GreaterEqual,
        Token::EOF,
    ] {
        assert_eq!(t.debug_text(), format!("{:?}", t));
    }
}
