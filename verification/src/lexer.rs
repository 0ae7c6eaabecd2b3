use vstd::prelude::*;

use crate::text::push_char;
use vstd::string::*;

verus! {

broadcast use vstd::string::group_string_axioms;

/// A token of the language. A number keeps the text of its literal
/// (an optional sign, digits, and an optional fraction).
#[derive(Debug, PartialEq)]
pub enum Token {
    Illegal(String),
    EOF,
    LParen,
    RParen,
    LBracket,
    RBracket,
    Plus,
    Minus,
    Slash,
    Star,
    Caret,
    Comma,
    Semicolon,
    Assign,
    Equal,
    Greater,
    GreaterEqual,
    Less,
    LessEqual,
    Func,
    If,
    Else,
    Return,
    Print,
    True,
    False,
    Identifier(String),
    Number(String),
}

/// The mathematical value of a token: its text as a sequence of characters.
pub enum TokenView {
    Illegal(Seq<char>),
    EOF,
    LParen,
    RParen,
    LBracket,
    RBracket,
    Plus,
    Minus,
    Slash,
    Star,
    Caret,
    Comma,
    Semicolon,
    Assign,
    Equal,
    Greater,
    GreaterEqual,
    Less,
    LessEqual,
    Func,
    If,
    Else,
    Return,
    Print,
    True,
    False,
    Identifier(Seq<char>),
    Number(Seq<char>),
}

impl View for Token {
    type V = TokenView;

    open spec fn view(&self) -> TokenView {
        match self {
            Token::Illegal(s) => TokenView::Illegal(s@),
            Token::EOF => TokenView::EOF,
            Token::LParen => TokenView::LParen,
            Token::RParen => TokenView::RParen,
            Token::LBracket => TokenView::LBracket,
            Token::RBracket => TokenView::RBracket,
            Token::Plus => TokenView::Plus,
            Token::Minus => TokenView::Minus,
            Token::Slash => TokenView::Slash,
            Token::Star => TokenView::Star,
            Token::Caret => TokenView::Caret,
            Token::Comma => TokenView::Comma,
            Token::Semicolon => TokenView::Semicolon,
            Token::Assign => TokenView::Assign,
            Token::Equal => TokenView::Equal,
            Token::Greater => TokenView::Greater,
            Token::GreaterEqual => TokenView::GreaterEqual,
            Token::Less => TokenView::Less,
            Token::LessEqual => TokenView::LessEqual,
            Token::Func => TokenView::Func,
            Token::If => TokenView::If,
            Token::Else => TokenView::Else,
            Token::Return => TokenView::Return,
            Token::Print => TokenView::Print,
            Token::True => TokenView::True,
            Token::False => TokenView::False,
            Token::Identifier(s) => TokenView::Identifier(s@),
            Token::Number(s) => TokenView::Number(s@),
        }
    }
}

impl Clone for Token {
    fn clone(&self) -> (t: Self)
        ensures
            t@ == self@,
    {
        match self {
            Token::Illegal(s) => Token::Illegal(s.clone()),
            Token::EOF => Token::EOF,
            Token::LParen => Token::LParen,
            Token::RParen => Token::RParen,
            Token::LBracket => Token::LBracket,
            Token::RBracket => Token::RBracket,
            Token::Plus => Token::Plus,
            Token::Minus => Token::Minus,
            Token::Slash => Token::Slash,
            Token::Star => Token::Star,
            Token::Caret => Token::Caret,
            Token::Comma => Token::Comma,
            Token::Semicolon => Token::Semicolon,
            Token::Assign => Token::Assign,
            Token::Equal => Token::Equal,
            Token::Greater => Token::Greater,
            Token::GreaterEqual => Token::GreaterEqual,
            Token::Less => Token::Less,
            Token::LessEqual => Token::LessEqual,
            Token::Func => Token::Func,
            Token::If => Token::If,
            Token::Else => Token::Else,
            Token::Return => Token::Return,
            Token::Print => Token::Print,
            Token::True => Token::True,
            Token::False => Token::False,
            Token::Identifier(s) => Token::Identifier(s.clone()),
            Token::Number(s) => Token::Number(s.clone()),
        }
    }
}

/// The text that `{:?}` gives for a token, the number's literal text
/// quoted as a string's is.
#[verifier::opaque]
pub open spec fn token_debug(t: TokenView) -> Seq<char> {
    match t {
        TokenView::Illegal(s) => "Illegal(\""@ + s + "\")"@,
        TokenView::EOF => "EOF"@,
        TokenView::LParen => "LParen"@,
        TokenView::RParen => "RParen"@,
        TokenView::LBracket => "LBracket"@,
        TokenView::RBracket => "RBracket"@,
        TokenView::Plus => "Plus"@,
        TokenView::Minus => "Minus"@,
        TokenView::Slash => "Slash"@,
        TokenView::Star => "Star"@,
        TokenView::Caret => "Caret"@,
        TokenView::Comma => "Comma"@,
        TokenView::Semicolon => "Semicolon"@,
        TokenView::Assign => "Assign"@,
        TokenView::Equal => "Equal"@,
        TokenView::Greater => "Greater"@,
        TokenView::GreaterEqual => "GreaterEqual"@,
        TokenView::Less => "Less"@,
        TokenView::LessEqual => "LessEqual"@,
        TokenView::Func => "Func"@,
        TokenView::If => "If"@,
        TokenView::Else => "Else"@,
        TokenView::Return => "Return"@,
        TokenView::Print => "Print"@,
        TokenView::True => "True"@,
        TokenView::False => "False"@,
        TokenView::Identifier(s) => "Identifier(\""@ + s + "\")"@,
        TokenView::Number(s) => "Number(\""@ + s + "\")"@,
    }
}

impl Token {
    /// The text that `{:?}` gives for the token.
    pub fn debug_text(&self) -> (s: String)
        ensures
            s@ == token_debug(self@),
    {
        reveal(token_debug);
        match self {
            Token::Illegal(t) => {
                let mut s = "Illegal(\"".to_string();
                s.append(t.as_str());
                s.append("\")");
                s
            },
            Token::EOF => "EOF".to_string(),
            Token::LParen => "LParen".to_string(),
            Token::RParen => "RParen".to_string(),
            Token::LBracket => "LBracket".to_string(),
            Token::RBracket => "RBracket".to_string(),
            Token::Plus => "Plus".to_string(),
            Token::Minus => "Minus".to_string(),
            Token::Slash => "Slash".to_string(),
            Token::Star => "Star".to_string(),
            Token::Caret => "Caret".to_string(),
            Token::Comma => "Comma".to_string(),
            Token::Semicolon => "Semicolon".to_string(),
            Token::Assign => "Assign".to_string(),
            Token::Equal => "Equal".to_string(),
            Token::Greater => "Greater".to_string(),
            Token::GreaterEqual => "GreaterEqual".to_string(),
            Token::Less => "Less".to_string(),
            Token::LessEqual => "LessEqual".to_string(),
            Token::Func => "Func".to_string(),
            Token::If => "If".to_string(),
            Token::Else => "Else".to_string(),
            Token::Return => "Return".to_string(),
            Token::Print => "Print".to_string(),
            Token::True => "True".to_string(),
            Token::False => "False".to_string(),
            Token::Identifier(t) => {
                let mut s = "Identifier(\"".to_string();
                s.append(t.as_str());
                s.append("\")");
                s
            },
            Token::Number(t) => {
                let mut s = "Number(\"".to_string();
                s.append(t.as_str());
                s.append("\")");
                s
            },
        }
    }
}

/// Whether two tokens are the same token.
pub fn same_token(a: &Token, b: &Token) -> (r: bool)
    ensures
        r == (a@ == b@),
{
    match (a, b) {
        (Token::Illegal(x), Token::Illegal(y)) => *x == *y,
        (Token::EOF, Token::EOF) => true,
        (Token::LParen, Token::LParen) => true,
        (Token::RParen, Token::RParen) => true,
        (Token::LBracket, Token::LBracket) => true,
        (Token::RBracket, Token::RBracket) => true,
        (Token::Plus, Token::Plus) => true,
        (Token::Minus, Token::Minus) => true,
        (Token::Slash, Token::Slash) => true,
        (Token::Star, Token::Star) => true,
        (Token::Caret, Token::Caret) => true,
        (Token::Comma, Token::Comma) => true,
        (Token::Semicolon, Token::Semicolon) => true,
        (Token::Assign, Token::Assign) => true,
        (Token::Equal, Token::Equal) => true,
        (Token::Greater, Token::Greater) => true,
        (Token::GreaterEqual, Token::GreaterEqual) => true,
        (Token::Less, Token::Less) => true,
        (Token::LessEqual, Token::LessEqual) => true,
        (Token::Func, Token::Func) => true,
        (Token::If, Token::If) => true,
        (Token::Else, Token::Else) => true,
        (Token::Return, Token::Return) => true,
        (Token::Print, Token::Print) => true,
        (Token::True, Token::True) => true,
        (Token::False, Token::False) => true,
        (Token::Identifier(x), Token::Identifier(y)) => *x == *y,
        (Token::Number(x), Token::Number(y)) => *x == *y,
        _ => false,
    }
}

/// The characters that `char::is_whitespace` accepts (Unicode `White_Space`).
pub open spec fn is_whitespace(c: char) -> bool {
    ||| '\t' <= c <= '\r'
    ||| c == ' '
    ||| c == '\u{85}'
    ||| c == '\u{a0}'
    ||| c == '\u{1680}'
    ||| '\u{2000}' <= c <= '\u{200a}'
    ||| c == '\u{2028}'
    ||| c == '\u{2029}'
    ||| c == '\u{202f}'
    ||| c == '\u{205f}'
    ||| c == '\u{3000}'
}

/// A decimal digit `[0-9]`.
pub open spec fn is_digit(c: char) -> bool {
    '0' <= c <= '9'
}

/// A character of the leading run of an identifier: `[_a-zA-Z]`.
pub open spec fn is_ident_start(c: char) -> bool {
    'a' <= c <= 'z' || 'A' <= c <= 'Z' || c == '_'
}

/// A character of the trailing run of an identifier: `[a-zA-Z0-9]`.
pub open spec fn is_ident_char(c: char) -> bool {
    'a' <= c <= 'z' || 'A' <= c <= 'Z' || is_digit(c)
}

/// The state of a lexer: the source, the index of the next unread character,
/// the position (line and column) reached, and the lookahead token.
pub struct LexView {
    pub chars: Seq<char>,
    pub index: nat,
    pub line: nat,
    pub col: nat,
    pub curr: TokenView,
}

/// Whitespace skipping from index `i`: the index of the first non-whitespace
/// character, with the line and column reached there. A newline starts a new
/// line at column 1; any other whitespace advances the column.
pub open spec fn skip_whitespace(cs: Seq<char>, i: nat, line: nat, col: nat) -> (nat, nat, nat)
    decreases cs.len() - i,
{
    if i < cs.len() && is_whitespace(cs[i as int]) {
        if cs[i as int] == '\n' {
            skip_whitespace(cs, i + 1, line + 1, 1)
        } else {
            skip_whitespace(cs, i + 1, line, col + 1)
        }
    } else {
        (i, line, col)
    }
}

/// The first index at or after `i` that does not hold a digit.
pub open spec fn digits_end(cs: Seq<char>, i: nat) -> nat
    decreases cs.len() - i,
{
    if i < cs.len() && is_digit(cs[i as int]) {
        digits_end(cs, i + 1)
    } else {
        i
    }
}

/// The first index at or after `i` that does not hold a character of the
/// leading run of an identifier.
pub open spec fn ident_head_end(cs: Seq<char>, i: nat) -> nat
    decreases cs.len() - i,
{
    if i < cs.len() && is_ident_start(cs[i as int]) {
        ident_head_end(cs, i + 1)
    } else {
        i
    }
}

/// The first index at or after `i` that does not hold an identifier character.
pub open spec fn ident_end(cs: Seq<char>, i: nat) -> nat
    decreases cs.len() - i,
{
    if i < cs.len() && is_ident_char(cs[i as int]) {
        ident_end(cs, i + 1)
    } else {
        i
    }
}

/// The end of a number literal whose characters before `i` are already read:
/// more digits, then optionally a `.` followed by one or more digits.
pub open spec fn number_end(cs: Seq<char>, i: nat) -> nat {
    let j = digits_end(cs, i);
    if j + 1 < cs.len() && cs[j as int] == '.' && is_digit(cs[j + 1int]) {
        digits_end(cs, j + 1)
    } else {
        j
    }
}

/// The token that an identifier-shaped word stands for: a keyword or an identifier.
pub open spec fn word_token(w: Seq<char>) -> TokenView {
    if w == seq!['f', 'n'] {
        TokenView::Func
    } else if w == seq!['i', 'f'] {
        TokenView::If
    } else if w == seq!['e', 'l', 's', 'e'] {
        TokenView::Else
    } else if w == seq!['r', 'e', 't', 'u', 'r', 'n'] {
        TokenView::Return
    } else if w == seq!['p', 'r', 'i', 'n', 't'] {
        TokenView::Print
    } else if w == seq!['t', 'r', 'u', 'e'] {
        TokenView::True
    } else if w == seq!['f', 'a', 'l', 's', 'e'] {
        TokenView::False
    } else {
        TokenView::Identifier(w)
    }
}

/// The text of the token for a character that starts no token.
pub open spec fn illegal_text() -> Seq<char> {
    seq![
        'e', 'r', 'r', 'o', 'n', 'e', 'o', 'u', 's', ' ',
        'c', 'h', 'a', 'r', 'a', 'c', 't', 'e', 'r',
    ]
}

/// A one- or two-character operator: the second character `=` selects `long`.
pub open spec fn scan_pair(cs: Seq<char>, i: nat, col: nat, short: TokenView, long: TokenView) -> (TokenView, nat, nat) {
    if i + 1 < cs.len() && cs[i + 1int] == '=' {
        (long, i + 2, col + 2)
    } else {
        (short, i + 1, col + 1)
    }
}

/// A sign that may begin a number: followed by a digit it starts a number
/// literal; otherwise it is the operator `op`. The digit after the sign
/// does not advance the column.
pub open spec fn scan_sign(cs: Seq<char>, i: nat, col: nat, op: TokenView) -> (TokenView, nat, nat) {
    if i + 1 < cs.len() && is_digit(cs[i + 1int]) {
        let e = number_end(cs, i + 2);
        (TokenView::Number(cs.subrange(i as int, e as int)), e, (col + 1 + e - (i + 2)) as nat)
    } else {
        (op, i + 1, col + 1)
    }
}

/// The token that starts at index `i` (after whitespace), with the index after
/// it and the column reached. At the end of the source it is `EOF`.
pub open spec fn scan(cs: Seq<char>, i: nat, col: nat) -> (TokenView, nat, nat) {
    if i >= cs.len() {
        (TokenView::EOF, i, col)
    } else {
        let c = cs[i as int];
        if c == '(' {
            (TokenView::LParen, i + 1, col + 1)
        } else if c == ')' {
            (TokenView::RParen, i + 1, col + 1)
        } else if c == '{' {
            (TokenView::LBracket, i + 1, col + 1)
        } else if c == '}' {
            (TokenView::RBracket, i + 1, col + 1)
        } else if c == '+' {
            scan_sign(cs, i, col, TokenView::Plus)
        } else if c == '-' {
            scan_sign(cs, i, col, TokenView::Minus)
        } else if c == '/' {
            (TokenView::Slash, i + 1, col + 1)
        } else if c == '*' {
            (TokenView::Star, i + 1, col + 1)
        } else if c == '^' {
            (TokenView::Caret, i + 1, col + 1)
        } else if c == ',' {
            (TokenView::Comma, i + 1, col + 1)
        } else if c == ';' {
            (TokenView::Semicolon, i + 1, col + 1)
        } else if c == '=' {
            scan_pair(cs, i, col, TokenView::Assign, TokenView::Equal)
        } else if c == '>' {
            scan_pair(cs, i, col, TokenView::Greater, TokenView::GreaterEqual)
        } else if c == '<' {
            scan_pair(cs, i, col, TokenView::Less, TokenView::LessEqual)
        } else if is_digit(c) {
            let e = number_end(cs, i + 1);
            (TokenView::Number(cs.subrange(i as int, e as int)), e, (col + 1 + e - (i + 1)) as nat)
        } else if is_ident_start(c) {
            let e = ident_end(cs, ident_head_end(cs, i + 1));
            (word_token(cs.subrange(i as int, e as int)), e, (col + 1 + e - (i + 1)) as nat)
        } else {
            (TokenView::Illegal(illegal_text()), i + 1, col + 1)
        }
    }
}

/// One step of the lexer: it hands out the lookahead token and reads the next one.
#[verifier::opaque]
pub open spec fn lex_next(v: LexView) -> (TokenView, LexView) {
    let (i, line, col) = skip_whitespace(v.chars, v.index, v.line, v.col);
    let (tok, j, col2) = scan(v.chars, i, col);
    (v.curr, LexView { chars: v.chars, index: j, line: line, col: col2, curr: tok })
}

/// The lexer over `cs` before any token is read.
pub open spec fn lex_start(cs: Seq<char>) -> LexView {
    LexView { chars: cs, index: 0, line: 1, col: 1, curr: TokenView::EOF }
}

/// A lexer state that the lexer can be in: the index lies within the source,
/// the position is at least line 1, column 1 and grows no faster than the
/// index, and `EOF` is the lookahead only once the source is used up.
pub open spec fn lex_wf(v: LexView) -> bool {
    &&& lex_bounds(v)
    &&& (v.curr is EOF ==> v.index == v.chars.len())
}

/// The index lies within the source and the position grows no faster than it.
pub open spec fn lex_bounds(v: LexView) -> bool {
    &&& v.index <= v.chars.len()
    &&& v.chars.len() < usize::MAX
    &&& 1 <= v.line <= v.index + 1
    &&& 1 <= v.col <= v.index + 1
}

/// What is left to read: the unread characters, and one more while the
/// lookahead is not `EOF`.
pub open spec fn lex_measure(v: LexView) -> nat {
    (if v.index <= v.chars.len() { (v.chars.len() - v.index) as nat } else { 0 }) + (if v.curr is EOF {
        0nat
    } else {
        1nat
    })
}

proof fn lemma_skip_whitespace(cs: Seq<char>, i: nat, line: nat, col: nat)
    requires
        i <= cs.len(),
        1 <= line <= i + 1,
        1 <= col <= i + 1,
    ensures
        ({
            let (j, l, c) = skip_whitespace(cs, i, line, col);
            &&& i <= j <= cs.len()
            &&& 1 <= l <= j + 1
            &&& 1 <= c <= j + 1
            &&& (j < cs.len() ==> !is_whitespace(cs[j as int]))
        }),
    decreases cs.len() - i,
{
    if i < cs.len() && is_whitespace(cs[i as int]) {
        if cs[i as int] == '\n' {
            lemma_skip_whitespace(cs, i + 1, line + 1, 1);
        } else {
            lemma_skip_whitespace(cs, i + 1, line, col + 1);
        }
    }
}

proof fn lemma_digits_end(cs: Seq<char>, i: nat)
    requires
        i <= cs.len(),
    ensures
        i <= digits_end(cs, i) <= cs.len(),
    decreases cs.len() - i,
{
    if i < cs.len() && is_digit(cs[i as int]) {
        lemma_digits_end(cs, i + 1);
    }
}

proof fn lemma_ident_end(cs: Seq<char>, i: nat)
    requires
        i <= cs.len(),
    ensures
        i <= ident_end(cs, i) <= cs.len(),
    decreases cs.len() - i,
{
    if i < cs.len() && is_ident_char(cs[i as int]) {
        lemma_ident_end(cs, i + 1);
    }
}

proof fn lemma_ident_head_end(cs: Seq<char>, i: nat)
    requires
        i <= cs.len(),
    ensures
        i <= ident_head_end(cs, i) <= cs.len(),
    decreases cs.len() - i,
{
    if i < cs.len() && is_ident_start(cs[i as int]) {
        lemma_ident_head_end(cs, i + 1);
    }
}

proof fn lemma_number_end(cs: Seq<char>, i: nat)
    requires
        i <= cs.len(),
    ensures
        i <= number_end(cs, i) <= cs.len(),
{
    lemma_digits_end(cs, i);
    let j = digits_end(cs, i);
    if j + 1 < cs.len() && cs[j as int] == '.' && is_digit(cs[j + 1int]) {
        lemma_digits_end(cs, j + 1);
    }
}

proof fn lemma_scan(cs: Seq<char>, i: nat, col: nat)
    requires
        i <= cs.len(),
        1 <= col <= i + 1,
    ensures
        ({
            let (t, j, c) = scan(cs, i, col);
            &&& i <= j <= cs.len()
            &&& 1 <= c <= j + 1
            &&& (t is EOF <==> i == cs.len())
            &&& (i < cs.len() ==> i < j)
        }),
{
    if i < cs.len() {
        if i + 2 <= cs.len() {
            lemma_number_end(cs, i + 2);
        }
        lemma_number_end(cs, i + 1);
        lemma_ident_head_end(cs, i + 1);
        lemma_ident_end(cs, ident_head_end(cs, i + 1));
    }
}

/// The number of newlines among the first `n` characters of `cs`.
pub open spec fn newlines(cs: Seq<char>, n: int) -> nat
    decreases n,
{
    if n <= 0 {
        0
    } else {
        newlines(cs, n - 1) + if cs[n - 1] == '\n' {
            1nat
        } else {
            0nat
        }
    }
}

proof fn lemma_newlines_run(cs: Seq<char>, a: int, b: int)
    requires
        0 <= a <= b,
        forall|k: int| a <= k < b ==> cs[k] != '\n',
    ensures
        newlines(cs, b) == newlines(cs, a),
    decreases b - a,
{
    if a < b {
        lemma_newlines_run(cs, a, b - 1);
    }
}

proof fn lemma_skip_whitespace_lines(cs: Seq<char>, i: nat, line: nat, col: nat)
    requires
        i <= cs.len(),
        line == 1 + newlines(cs, i as int),
    ensures
        skip_whitespace(cs, i, line, col).1 == 1 + newlines(cs, skip_whitespace(cs, i, line, col).0 as int),
    decreases cs.len() - i,
{
    if i < cs.len() && is_whitespace(cs[i as int]) {
        if cs[i as int] == '\n' {
            lemma_skip_whitespace_lines(cs, i + 1, line + 1, 1);
        } else {
            lemma_skip_whitespace_lines(cs, i + 1, line, col + 1);
        }
    }
}

proof fn lemma_digits_run(cs: Seq<char>, i: nat)
    requires
        i <= cs.len(),
    ensures
        forall|k: int| i <= k < digits_end(cs, i) ==> is_digit(#[trigger] cs[k]),
    decreases cs.len() - i,
{
    if i < cs.len() && is_digit(cs[i as int]) {
        lemma_digits_run(cs, i + 1);
    }
}

proof fn lemma_head_run(cs: Seq<char>, i: nat)
    requires
        i <= cs.len(),
    ensures
        forall|k: int| i <= k < ident_head_end(cs, i) ==> is_ident_start(#[trigger] cs[k]),
    decreases cs.len() - i,
{
    if i < cs.len() && is_ident_start(cs[i as int]) {
        lemma_head_run(cs, i + 1);
    }
}

proof fn lemma_tail_run(cs: Seq<char>, i: nat)
    requires
        i <= cs.len(),
    ensures
        forall|k: int| i <= k < ident_end(cs, i) ==> is_ident_char(#[trigger] cs[k]),
    decreases cs.len() - i,
{
    if i < cs.len() && is_ident_char(cs[i as int]) {
        lemma_tail_run(cs, i + 1);
    }
}

proof fn lemma_number_run(cs: Seq<char>, i: nat)
    requires
        i <= cs.len(),
    ensures
        forall|k: int| i <= k < number_end(cs, i) ==> #[trigger] cs[k] != '\n',
{
    lemma_digits_run(cs, i);
    lemma_digits_end(cs, i);
    let j = digits_end(cs, i);
    if j + 1 < cs.len() && cs[j as int] == '.' && is_digit(cs[j + 1int]) {
        lemma_digits_run(cs, j + 1);
        assert forall|k: int| i <= k < number_end(cs, i) implies #[trigger] cs[k] != '\n' by {
            if k < j {
                assert(is_digit(cs[k]));
            } else if k > j {
                assert(is_digit(cs[k]));
            }
        }
    } else {
        assert forall|k: int| i <= k < number_end(cs, i) implies #[trigger] cs[k] != '\n' by {
            assert(is_digit(cs[k]));
        }
    }
}

proof fn lemma_scan_no_newline(cs: Seq<char>, i: nat, col: nat)
    requires
        i <= cs.len(),
        i < cs.len() ==> !is_whitespace(cs[i as int]),
    ensures
        forall|k: int| i <= k < scan(cs, i, col).1 ==> #[trigger] cs[k] != '\n',
{
    if i < cs.len() {
        let c = cs[i as int];
        if i + 2 <= cs.len() {
            lemma_number_run(cs, i + 2);
        }
        lemma_number_run(cs, i + 1);
        lemma_head_run(cs, i + 1);
        lemma_ident_head_end(cs, i + 1);
        lemma_tail_run(cs, ident_head_end(cs, i + 1));
        assert forall|k: int| i <= k < scan(cs, i, col).1 implies #[trigger] cs[k] != '\n' by {
            if k > i + 1 && (c == '+' || c == '-') {
                assert(cs[k] != '\n');
            } else if k > i && is_ident_start(c) && k < ident_head_end(cs, i + 1) {
                assert(is_ident_start(cs[k]));
            } else if k > i && is_ident_start(c) {
                assert(is_ident_char(cs[k]));
            }
        }
    }
}

/// The line that the lexer reports is 1 plus the newlines it has read: a
/// step that starts so ends so.
pub proof fn law_line_counts_newlines(v: LexView)
    requires
        lex_bounds(v),
        v.line == 1 + newlines(v.chars, v.index as int),
    ensures
        lex_next(v).1.line == 1 + newlines(v.chars, lex_next(v).1.index as int),
{
    reveal(lex_next);
    lemma_skip_whitespace(v.chars, v.index, v.line, v.col);
    lemma_skip_whitespace_lines(v.chars, v.index, v.line, v.col);
    let (i, line, col) = skip_whitespace(v.chars, v.index, v.line, v.col);
    lemma_scan(v.chars, i, col);
    lemma_scan_no_newline(v.chars, i, col);
    lemma_newlines_run(v.chars, i as int, scan(v.chars, i, col).1 as int);
}

/// The index just after the last newline among the first `n` characters of
/// `cs`, or 0 if there is none: where the current line starts.
pub open spec fn line_start(cs: Seq<char>, n: int) -> int
    decreases n,
{
    if n <= 0 {
        0
    } else if cs[n - 1] == '\n' {
        n
    } else {
        line_start(cs, n - 1)
    }
}

/// A number literal that begins with a sign.
pub open spec fn is_signed_number(t: TokenView) -> bool {
    t matches TokenView::Number(text) && text.len() > 0 && (text[0] == '+' || text[0] == '-')
}

proof fn lemma_line_start_run(cs: Seq<char>, a: int, b: int)
    requires
        0 <= a <= b,
        forall|k: int| a <= k < b ==> cs[k] != '\n',
    ensures
        line_start(cs, b) == line_start(cs, a),
    decreases b - a,
{
    if a < b {
        lemma_line_start_run(cs, a, b - 1);
    }
}

proof fn lemma_skip_whitespace_cols(cs: Seq<char>, i: nat, line: nat, col: nat)
    requires
        i <= cs.len(),
        col == 1 + i - line_start(cs, i as int),
    ensures
        skip_whitespace(cs, i, line, col).2 == 1 + skip_whitespace(cs, i, line, col).0 - line_start(
            cs,
            skip_whitespace(cs, i, line, col).0 as int,
        ),
    decreases cs.len() - i,
{
    if i < cs.len() && is_whitespace(cs[i as int]) {
        if cs[i as int] == '\n' {
            lemma_skip_whitespace_cols(cs, i + 1, line + 1, 1);
        } else {
            lemma_skip_whitespace_cols(cs, i + 1, line, col + 1);
        }
    }
}

proof fn lemma_scan_cols(cs: Seq<char>, i: nat, col: nat)
    requires
        i <= cs.len(),
    ensures
        ({
            let (t, j, c) = scan(cs, i, col);
            c + (if is_signed_number(t) { 1int } else { 0int }) == col + (j - i)
        }),
{
    if i < cs.len() {
        if i + 2 <= cs.len() {
            lemma_number_end(cs, i + 2);
        }
        lemma_number_end(cs, i + 1);
        lemma_ident_head_end(cs, i + 1);
        lemma_ident_end(cs, ident_head_end(cs, i + 1));
        let c = cs[i as int];
        if is_digit(c) {
            let e = number_end(cs, i + 1);
            assert(cs.subrange(i as int, e as int)[0] == c);
        } else if (c == '+' || c == '-') && i + 1 < cs.len() && is_digit(cs[i + 1int]) {
            let e = number_end(cs, i + 2);
            assert(cs.subrange(i as int, e as int)[0] == c);
        }
    }
}

/// The column that the lexer reports is 1 plus the characters read since
/// the last newline: a step that starts so ends so, except that a number
/// with a sign leaves the column one short, as its first digit does not
/// advance it.
pub proof fn law_column_counts_characters(v: LexView)
    requires
        lex_bounds(v),
        v.col == 1 + v.index - line_start(v.chars, v.index as int),
    ensures
        lex_next(v).1.col + (if is_signed_number(lex_next(v).1.curr) { 1int } else { 0int })
            == 1 + lex_next(v).1.index - line_start(v.chars, lex_next(v).1.index as int),
{
    reveal(lex_next);
    lemma_skip_whitespace(v.chars, v.index, v.line, v.col);
    lemma_skip_whitespace_cols(v.chars, v.index, v.line, v.col);
    let (i, line, col) = skip_whitespace(v.chars, v.index, v.line, v.col);
    lemma_scan(v.chars, i, col);
    lemma_scan_no_newline(v.chars, i, col);
    lemma_scan_cols(v.chars, i, col);
    lemma_line_start_run(v.chars, i as int, scan(v.chars, i, col).1 as int);
}

/// The characters of Unicode's `White_Space` property, one by one: the
/// ones that `char::is_whitespace` accepts.
pub open spec fn white_space_char(c: char) -> bool {
    ||| c == '\u{9}'
    ||| c == '\u{a}'
    ||| c == '\u{b}'
    ||| c == '\u{c}'
    ||| c == '\u{d}'
    ||| c == '\u{20}'
    ||| c == '\u{85}'
    ||| c == '\u{a0}'
    ||| c == '\u{1680}'
    ||| c == '\u{2000}'
    ||| c == '\u{2001}'
    ||| c == '\u{2002}'
    ||| c == '\u{2003}'
    ||| c == '\u{2004}'
    ||| c == '\u{2005}'
    ||| c == '\u{2006}'
    ||| c == '\u{2007}'
    ||| c == '\u{2008}'
    ||| c == '\u{2009}'
    ||| c == '\u{200a}'
    ||| c == '\u{2028}'
    ||| c == '\u{2029}'
    ||| c == '\u{202f}'
    ||| c == '\u{205f}'
    ||| c == '\u{3000}'
}

proof fn lemma_skip_whitespace_run(cs: Seq<char>, i: nat, line: nat, col: nat)
    requires
        i <= cs.len(),
    ensures
        i <= skip_whitespace(cs, i, line, col).0 <= cs.len(),
        forall|m: int| i <= m < skip_whitespace(cs, i, line, col).0 ==> is_whitespace(#[trigger] cs[m]),
        skip_whitespace(cs, i, line, col).0 < cs.len() ==> !is_whitespace(cs[skip_whitespace(cs, i, line, col).0 as int]),
    decreases cs.len() - i,
{
    if i < cs.len() && is_whitespace(cs[i as int]) {
        if cs[i as int] == '\n' {
            lemma_skip_whitespace_run(cs, i + 1, line + 1, 1);
        } else {
            lemma_skip_whitespace_run(cs, i + 1, line, col + 1);
        }
    }
}

/// Before a token the lexer skips exactly the run of white space: every
/// character it skips is white space, and the token it reads starts at a
/// character that is not, the tab among them.
pub proof fn law_whitespace_never_starts_a_token(v: LexView)
    requires
        lex_bounds(v),
    ensures
        ({
            let (k, line, col) = skip_whitespace(v.chars, v.index, v.line, v.col);
            &&& v.index <= k <= v.chars.len()
            &&& forall|m: int| v.index <= m < k ==> white_space_char(#[trigger] v.chars[m])
            &&& k < v.chars.len() ==> !white_space_char(v.chars[k as int])
            &&& lex_next(v).1.curr == scan(v.chars, k, col).0
            &&& lex_next(v).1.line == line
        }),
{
    reveal(lex_next);
    lemma_skip_whitespace_run(v.chars, v.index, v.line, v.col);
}

proof fn lemma_digits_end_stop(cs: Seq<char>, i: nat)
    requires
        i <= cs.len(),
    ensures
        digits_end(cs, i) < cs.len() ==> !is_digit(cs[digits_end(cs, i) as int]),
    decreases cs.len() - i,
{
    if i < cs.len() && is_digit(cs[i as int]) {
        lemma_digits_end_stop(cs, i + 1);
    }
}

/// A number token takes every digit that follows it, those after its
/// decimal point included: the character right after a number's text is
/// never a digit `0`-`9`.
pub proof fn law_number_takes_every_digit(v: LexView)
    requires
        lex_bounds(v),
    ensures
        lex_next(v).1.curr is Number ==> lex_next(v).1.index >= v.chars.len() || !('0' <= v.chars[lex_next(
            v,
        ).1.index as int] <= '9'),
{
    reveal(lex_next);
    lemma_skip_whitespace(v.chars, v.index, v.line, v.col);
    let (i, line, col) = skip_whitespace(v.chars, v.index, v.line, v.col);
    let cs = v.chars;
    if i < cs.len() {
        if i + 2 <= cs.len() {
            lemma_digits_end(cs, i + 2);
            lemma_digits_end_stop(cs, i + 2);
            let j = digits_end(cs, i + 2);
            if j + 1 < cs.len() {
                lemma_digits_end_stop(cs, j + 1);
            }
        }
        lemma_digits_end(cs, i + 1);
        lemma_digits_end_stop(cs, i + 1);
        let j = digits_end(cs, i + 1);
        if j + 1 < cs.len() {
            lemma_digits_end_stop(cs, j + 1);
        }
    }
}

/// A step hands out the lookahead token.
pub proof fn lemma_lex_next_token(v: LexView)
    ensures
        lex_next(v).0 == v.curr,
{
    reveal(lex_next);
}

/// Every step keeps the lexer in a reachable state, and a step that hands
/// out a token other than `EOF` leaves strictly less to read; once `EOF` is
/// the lookahead, a step changes nothing.
pub proof fn lemma_lex_next(v: LexView)
    requires
        lex_bounds(v),
    ensures
        lex_wf(lex_next(v).1),
        lex_next(v).0 == v.curr,
        lex_next(v).1.chars == v.chars,
        v.index <= lex_next(v).1.index,
        lex_wf(v) && !(v.curr is EOF) ==> lex_measure(lex_next(v).1) < lex_measure(v),
        lex_wf(v) && v.curr is EOF ==> lex_next(v).1 == v,
        lex_wf(v) ==> lex_measure(lex_next(v).1) <= lex_measure(v),
{
    reveal(lex_next);
    lemma_skip_whitespace(v.chars, v.index, v.line, v.col);
    let (i, line, col) = skip_whitespace(v.chars, v.index, v.line, v.col);
    lemma_scan(v.chars, i, col);
}

/// The lexer over a source: its characters, the index of the next unread
/// one, the position reached and the lookahead token.
pub struct Lexer {
    chars: Vec<char>,
    index: usize,
    col: usize,
    line: usize,
    curr: Token,
}

impl View for Lexer {
    type V = LexView;

    closed spec fn view(&self) -> LexView {
        LexView {
            chars: self.chars@,
            index: self.index as nat,
            line: self.line as nat,
            col: self.col as nat,
            curr: self.curr@,
        }
    }
}

fn chars_of(src: &str) -> (v: Vec<char>)
    ensures
        v@ == src@,
{
    let mut v: Vec<char> = Vec::new();
    for c in it: src.chars()
        invariant
            v@ == it.seq().take(it.index() as int),
            it.seq() == src@,
    {
        v.push(c);
    }
    v
}

fn char_is_whitespace(c: char) -> (b: bool)
    ensures
        b == is_whitespace(c),
{
    ('\t' <= c && c <= '\r') || c == ' ' || c == '\u{85}' || c == '\u{a0}' || c == '\u{1680}' || (
    '\u{2000}' <= c && c <= '\u{200a}') || c == '\u{2028}' || c == '\u{2029}' || c == '\u{202f}'
        || c == '\u{205f}' || c == '\u{3000}'
}

fn char_is_digit(c: char) -> (b: bool)
    ensures
        b == is_digit(c),
{
    '0' <= c && c <= '9'
}

fn char_is_ident_start(c: char) -> (b: bool)
    ensures
        b == is_ident_start(c),
{
    ('a' <= c && c <= 'z') || ('A' <= c && c <= 'Z') || c == '_'
}

fn char_is_ident_char(c: char) -> (b: bool)
    ensures
        b == is_ident_char(c),
{
    ('a' <= c && c <= 'z') || ('A' <= c && c <= 'Z') || ('0' <= c && c <= '9')
}

impl Lexer {
    /// A lexer over `src`, with the first token read as the lookahead.
    pub fn new(src: &str) -> (l: Lexer)
        requires
            src@.len() < usize::MAX,
        ensures
            l.wf(),
            l@ == lex_next(lex_start(src@)).1,
    {
        let chars = chars_of(src);
        let mut lexer = Lexer { chars: chars, index: 0, col: 1, line: 1, curr: Token::EOF };
        lexer.step();
        lexer
    }

    /// The lexer is in a state that it can reach.
    pub open spec fn wf(&self) -> bool {
        lex_wf(self@)
    }

    /// What is left to read.
    pub open spec fn measure(&self) -> nat {
        lex_measure(self@)
    }

    /// The line and column reached.
    pub fn pos(&self) -> (p: (usize, usize))
        ensures
            p.0 == self@.line,
            p.1 == self@.col,
    {
        (self.line, self.col)
    }

    fn skip_whitespace(&mut self)
        requires
            lex_bounds(old(self)@),
        ensures
            ({
                let (i, l, c) = skip_whitespace(old(self)@.chars, old(self)@.index, old(self)@.line, old(self)@.col);
                final(self)@ == LexView { index: i, line: l, col: c, ..old(self)@ }
            }),
    {
        let ghost target = skip_whitespace(self@.chars, self@.index, self@.line, self@.col);
        proof {
            lemma_skip_whitespace(self@.chars, self@.index, self@.line, self@.col);
        }
        while self.index < self.chars.len() && char_is_whitespace(self.chars[self.index])
            invariant
                self.index <= self.chars.len() < usize::MAX,
                1 <= self.line <= self.index + 1,
                1 <= self.col <= self.index + 1,
                self.chars@ == old(self).chars@,
                self.curr == old(self).curr,
                skip_whitespace(self@.chars, self@.index, self@.line, self@.col) == target,
            decreases self.chars.len() - self.index,
        {
            if self.chars[self.index] == '\n' {
                self.line = self.line + 1;
                self.col = 1;
            } else {
                self.col = self.col + 1;
            }
            self.index = self.index + 1;
        }
    }

    /// Reads digits, each advancing the column.
    fn skip_digits(&mut self)
        requires
            old(self).index <= old(self).chars.len() < usize::MAX,
            old(self).col <= old(self).index + 1,
        ensures
            final(self).index == digits_end(old(self)@.chars, old(self)@.index),
            final(self).col == old(self).col + (final(self).index - old(self).index),
            final(self).chars@ == old(self).chars@,
            final(self).line == old(self).line,
            final(self).curr == old(self).curr,
    {
        proof {
            lemma_digits_end(self@.chars, self@.index);
        }
        while self.index < self.chars.len() && char_is_digit(self.chars[self.index])
            invariant
                old(self).index <= self.index <= self.chars.len() < usize::MAX,
                self.col == old(self).col + (self.index - old(self).index),
                old(self).col <= old(self).index + 1,
                self.chars@ == old(self).chars@,
                self.line == old(self).line,
                self.curr == old(self).curr,
                digits_end(self.chars@, self.index as nat) == digits_end(old(self)@.chars, old(self)@.index),
            decreases self.chars.len() - self.index,
        {
            self.index = self.index + 1;
            self.col = self.col + 1;
        }
    }

    /// The text of the characters from `start` to the index reached.
    fn text_from(&self, start: usize) -> (s: String)
        requires
            start <= self.index <= self.chars.len(),
        ensures
            s@ == self.chars@.subrange(start as int, self.index as int),
    {
        let mut s = String::new();
        let mut k = start;
        while k < self.index
            invariant
                start <= k <= self.index <= self.chars.len(),
                s@ == self.chars@.subrange(start as int, k as int),
            decreases self.index - k,
        {
            push_char(&mut s, self.chars[k]);
            proof {
                assert(self.chars@.subrange(start as int, k + 1) == self.chars@.subrange(
                    start as int,
                    k as int,
                ).push(self.chars@[k as int]));
            }
            k = k + 1;
        }
        s
    }

    /// A number literal from `start`, whose characters before the index are read.
    fn number(&mut self, start: usize) -> (t: Token)
        requires
            start <= old(self).index <= old(self).chars.len() < usize::MAX,
            old(self).col <= old(self).index + 1,
        ensures
            final(self).index == number_end(old(self)@.chars, old(self)@.index),
            final(self).col == old(self).col + (final(self).index - old(self).index),
            t@ == TokenView::Number(old(self)@.chars.subrange(start as int, final(self).index as int)),
            final(self).chars@ == old(self).chars@,
            final(self).line == old(self).line,
            final(self).curr == old(self).curr,
    {
        proof {
            lemma_number_end(self@.chars, self@.index);
        }
        self.skip_digits();
        if self.index + 1 < self.chars.len() && self.chars[self.index] == '.' && char_is_digit(
            self.chars[self.index + 1],
        ) {
            self.index = self.index + 1;
            self.col = self.col + 1;
            self.skip_digits();
        }
        Token::Number(self.text_from(start))
    }

    /// Whether the characters from `start` to the index reached spell `w`.
    fn spells(&self, start: usize, w: &str) -> (b: bool)
        requires
            start <= self.index <= self.chars.len(),
        ensures
            b == (self.chars@.subrange(start as int, self.index as int) == w@),
    {
        let n = w.unicode_len();
        if self.index - start != n {
            return false;
        }
        let mut k: usize = 0;
        while k < n
            invariant
                n == w@.len(),
                start + n == self.index <= self.chars.len(),
                k <= n,
                forall|m: int| 0 <= m < k ==> self.chars@[start + m] == w@[m],
            decreases n - k,
        {
            if self.chars[start + k] != w.get_char(k) {
                return false;
            }
            k = k + 1;
        }
        assert(self.chars@.subrange(start as int, self.index as int) =~= w@);
        true
    }

    /// An identifier or keyword from `start`, whose first character is read:
    /// more characters of `[_a-zA-Z]`, then characters of `[a-zA-Z0-9]`.
    fn identifier(&mut self, start: usize) -> (t: Token)
        requires
            start < old(self).index <= old(self).chars.len() < usize::MAX,
            old(self).col <= old(self).index + 1,
        ensures
            final(self).index == ident_end(old(self)@.chars, ident_head_end(old(self)@.chars, old(self)@.index)),
            final(self).col == old(self).col + (final(self).index - old(self).index),
            t@ == word_token(old(self)@.chars.subrange(start as int, final(self).index as int)),
            final(self).chars@ == old(self).chars@,
            final(self).line == old(self).line,
            final(self).curr == old(self).curr,
    {
        proof {
            lemma_ident_head_end(self@.chars, self@.index);
        }
        while self.index < self.chars.len() && char_is_ident_start(self.chars[self.index])
            invariant
                old(self).index <= self.index <= self.chars.len() < usize::MAX,
                self.col == old(self).col + (self.index - old(self).index),
                old(self).col <= old(self).index + 1,
                self.chars@ == old(self).chars@,
                self.line == old(self).line,
                self.curr == old(self).curr,
                ident_head_end(self.chars@, self.index as nat) == ident_head_end(old(self)@.chars, old(self)@.index),
                start < old(self).index,
            decreases self.chars.len() - self.index,
        {
            self.index = self.index + 1;
            self.col = self.col + 1;
        }
        let ghost mid = self.index as nat;
        proof {
            lemma_ident_end(self@.chars, self@.index);
        }
        while self.index < self.chars.len() && char_is_ident_char(self.chars[self.index])
            invariant
                old(self).index <= mid <= self.index <= self.chars.len() < usize::MAX,
                self.col == old(self).col + (self.index - old(self).index),
                old(self).col <= old(self).index + 1,
                self.chars@ == old(self).chars@,
                self.line == old(self).line,
                self.curr == old(self).curr,
                mid == ident_head_end(old(self)@.chars, old(self)@.index),
                ident_end(self.chars@, self.index as nat) == ident_end(old(self)@.chars, mid),
                start < old(self).index,
            decreases self.chars.len() - self.index,
        {
            self.index = self.index + 1;
            self.col = self.col + 1;
        }
        proof {
            reveal_strlit("fn");
            reveal_strlit("if");
            reveal_strlit("else");
            reveal_strlit("return");
            reveal_strlit("print");
            reveal_strlit("true");
            reveal_strlit("false");
            assert("fn"@ =~= seq!['f', 'n']);
            assert("if"@ =~= seq!['i', 'f']);
            assert("else"@ =~= seq!['e', 'l', 's', 'e']);
            assert("return"@ =~= seq!['r', 'e', 't', 'u', 'r', 'n']);
            assert("print"@ =~= seq!['p', 'r', 'i', 'n', 't']);
            assert("true"@ =~= seq!['t', 'r', 'u', 'e']);
            assert("false"@ =~= seq!['f', 'a', 'l', 's', 'e']);
        }
        if self.spells(start, "fn") {
            Token::Func
        } else if self.spells(start, "if") {
            Token::If
        } else if self.spells(start, "else") {
            Token::Else
        } else if self.spells(start, "return") {
            Token::Return
        } else if self.spells(start, "print") {
            Token::Print
        } else if self.spells(start, "true") {
            Token::True
        } else if self.spells(start, "false") {
            Token::False
        } else {
            Token::Identifier(self.text_from(start))
        }
    }

    /// Reads a `=` if it comes next.
    fn advance_if_equal(&mut self) -> (b: bool)
        requires
            old(self).index <= old(self).chars.len() < usize::MAX,
            old(self).col <= old(self).index + 1,
        ensures
            b == (old(self).index < old(self).chars.len() && old(self).chars@[old(self).index as int] == '='),
            b ==> final(self).index == old(self).index + 1 && final(self).col == old(self).col + 1,
            !b ==> final(self).index == old(self).index && final(self).col == old(self).col,
            final(self).chars@ == old(self).chars@,
            final(self).line == old(self).line,
            final(self).curr == old(self).curr,
    {
        if self.index < self.chars.len() && self.chars[self.index] == '=' {
            self.index = self.index + 1;
            self.col = self.col + 1;
            true
        } else {
            false
        }
    }

    /// Reads the token that starts at the index (after whitespace).
    fn scan(&mut self) -> (t: Token)
        requires
            old(self).index <= old(self).chars.len() < usize::MAX,
            1 <= old(self).col <= old(self).index + 1,
        ensures
            ({
                let (tok, j, c) = scan(old(self)@.chars, old(self)@.index, old(self)@.col);
                &&& t@ == tok
                &&& final(self).index == j
                &&& final(self).col == c
            }),
            final(self).chars@ == old(self).chars@,
            final(self).line == old(self).line,
            final(self).curr == old(self).curr,
    {
        if self.index >= self.chars.len() {
            return Token::EOF;
        }
        let i = self.index;
        let c = self.chars[i];
        self.index = i + 1;
        self.col = self.col + 1;
        if c == '(' {
            Token::LParen
        } else if c == ')' {
            Token::RParen
        } else if c == '{' {
            Token::LBracket
        } else if c == '}' {
            Token::RBracket
        } else if c == '+' || c == '-' {
            if self.index < self.chars.len() && char_is_digit(self.chars[self.index]) {
                self.index = self.index + 1;
                self.number(i)
            } else if c == '+' {
                Token::Plus
            } else {
                Token::Minus
            }
        } else if c == '/' {
            Token::Slash
        } else if c == '*' {
            Token::Star
        } else if c == '^' {
            Token::Caret
        } else if c == ',' {
            Token::Comma
        } else if c == ';' {
            Token::Semicolon
        } else if c == '=' {
            if self.advance_if_equal() {
                Token::Equal
            } else {
                Token::Assign
            }
        } else if c == '>' {
            if self.advance_if_equal() {
                Token::GreaterEqual
            } else {
                Token::Greater
            }
        } else if c == '<' {
            if self.advance_if_equal() {
                Token::LessEqual
            } else {
                Token::Less
            }
        } else if char_is_digit(c) {
            self.number(i)
        } else if char_is_ident_start(c) {
            self.identifier(i)
        } else {
            proof {
                reveal_strlit("erroneous character");
            }
            let s = "erroneous character".to_string();
            assert(s@ == illegal_text());
            Token::Illegal(s)
        }
    }

    /// Hands out the lookahead token and reads the next one.
    pub fn next(&mut self) -> (t: Token)
        requires
            old(self).wf(),
        ensures
            final(self).wf(),
            (t@, final(self)@) == lex_next(old(self)@),
    {
        self.step()
    }

    fn step(&mut self) -> (t: Token)
        requires
            lex_bounds(old(self)@),
        ensures
            final(self).wf(),
            (t@, final(self)@) == lex_next(old(self)@),
    {
        proof {
            reveal(lex_next);
            lemma_lex_next(self@);
            lemma_skip_whitespace(self@.chars, self@.index, self@.line, self@.col);
        }
        self.skip_whitespace();
        let mut tok = self.scan();
        std::mem::swap(&mut tok, &mut self.curr);
        tok
    }

    /// The lookahead token.
    pub fn peek(&self) -> (t: Token)
        ensures
            t@ == self@.curr,
    {
        self.curr.clone()
    }

    /// The token that follows the lookahead token, read without moving on.
    pub fn peek_second(&mut self) -> (t: Token)
        requires
            old(self).wf(),
        ensures
            final(self)@ == old(self)@,
            t@ == lex_next(old(self)@).1.curr,
    {
        proof {
            reveal(lex_next);
            lemma_skip_whitespace(self@.chars, self@.index, self@.line, self@.col);
        }
        let index = self.index;
        let line = self.line;
        let col = self.col;
        self.skip_whitespace();
        let t = self.scan();
        self.index = index;
        self.line = line;
        self.col = col;
        t
    }

    /// The lookahead token, borrowed.
    pub fn current(&self) -> (t: &Token)
        ensures
            t@ == self@.curr,
    {
        &self.curr
    }
}

} // verus!
