use std::rc::Rc;
use vstd::prelude::*;

pub use crate::ast::{Expr, Stmt};
use crate::ast::{
    ExprView, StmtView, exprs_view, stmts_view, names_view, lemma_exprs_view_push,
    lemma_stmts_view_push, lemma_names_view_push,
};
use crate::lexer::{Lexer, LexView, Token, TokenView, lex_next, lex_start, lex_measure, lex_wf, lemma_lex_next, lemma_lex_next_token, token_debug, same_token};
use crate::text::decimal;

verus! {

broadcast use vstd::string::group_string_axioms;

/// A parse error: the position that the lexer had reached, and what went wrong.
pub struct Error {
    col: usize,
    line: usize,
    msg: String,
}

/// The mathematical value of a parse error.
pub struct ErrorView {
    pub line: nat,
    pub col: nat,
    pub msg: Seq<char>,
}

impl View for Error {
    type V = ErrorView;

    closed spec fn view(&self) -> ErrorView {
        ErrorView { line: self.line as nat, col: self.col as nat, msg: self.msg@ }
    }
}

/// The text that a parse error is reported with.
pub open spec fn error_text(e: ErrorView) -> Seq<char> {
    "parser error: line "@ + decimal(e.line) + ", col "@ + decimal(e.col) + ": "@ + e.msg
}

impl Error {
    /// The line of the error.
    pub fn line(&self) -> (l: usize)
        ensures
            l == self@.line,
    {
        self.line
    }

    /// The column of the error.
    pub fn col(&self) -> (c: usize)
        ensures
            c == self@.col,
    {
        self.col
    }

    /// What went wrong.
    pub fn msg(&self) -> (m: &String)
        ensures
            m@ == self@.msg,
    {
        &self.msg
    }

    /// The text that the error is reported with:
    /// `parser error: line L, col C: MESSAGE`.
    pub fn message(&self) -> (s: String)
        ensures
            s@ == error_text(self@),
    {
        let mut s = "parser error: line ".to_string();
        let l = crate::text::usize_to_string(self.line);
        s.append(l.as_str());
        s.append(", col ");
        let c = crate::text::usize_to_string(self.col);
        s.append(c.as_str());
        s.append(": ");
        s.append(self.msg.as_str());
        s
    }
}

/// The error at the position that the lexer has reached.
pub open spec fn perr(v: LexView, msg: Seq<char>) -> ErrorView {
    ErrorView { line: v.line, col: v.col, msg: msg }
}

/// The lexer after one step.
pub open spec fn adv(v: LexView) -> LexView {
    lex_next(v).1
}

/// Strictly less is left to read in `a` than in `b`.
pub open spec fn below(a: LexView, b: LexView) -> bool {
    lex_measure(a) < lex_measure(b)
}

/// No more is left to read in `a` than in `b`.
pub open spec fn within(a: LexView, b: LexView) -> bool {
    lex_measure(a) <= lex_measure(b)
}

/// The outcome of a parsing function whose progress failed to show; it
/// happens in no state that the lexer can reach.
pub open spec fn stuck<T>(v: LexView) -> (Result<T, ErrorView>, LexView) {
    (Err(perr(v, Seq::empty())), v)
}

/// Reads `t` if it is the lookahead; else fails with `msg`.
pub open spec fn p_expect(v: LexView, t: TokenView, msg: Seq<char>) -> (Result<(), ErrorView>, LexView) {
    if v.curr == t {
        (Ok(()), adv(v))
    } else {
        (Err(perr(v, msg)), v)
    }
}

/// literal ::= number | 'true' | 'false' | '(' expression ')' | identifier | call
pub open spec fn p_literal(v: LexView) -> (Result<ExprView, ErrorView>, LexView)
    decreases lex_measure(v), 1nat,
{
    let (t, v1) = lex_next(v);
    match t {
        TokenView::Number(s) => (Ok(ExprView::Number(s)), v1),
        TokenView::True => (Ok(ExprView::Bool(true)), v1),
        TokenView::False => (Ok(ExprView::Bool(false)), v1),
        TokenView::LParen => if below(v1, v) {
            match p_expr(v1) {
                (Ok(e), v2) => match p_expect(v2, TokenView::RParen, "expected closing parentheses"@) {
                    (Ok(_), v3) => (Ok(ExprView::Group(Box::new(e))), v3),
                    (Err(er), v3) => (Err(er), v3),
                },
                (Err(er), v2) => (Err(er), v2),
            }
        } else {
            stuck(v1)
        },
        TokenView::Identifier(name) => if v1.curr == TokenView::LParen {
            let v2 = adv(v1);
            if below(v2, v) {
                p_call(name, v2)
            } else {
                stuck(v2)
            }
        } else {
            (Ok(ExprView::Var(name)), v1)
        },
        _ => (Err(perr(v1, "expected literal got "@ + token_debug(t))), v1),
    }
}

/// unary ::= ('+' | '-') literal | literal
pub open spec fn p_unary(v: LexView) -> (Result<ExprView, ErrorView>, LexView)
    decreases lex_measure(v), 2nat,
{
    if v.curr is Plus || v.curr is Minus {
        let (op, v1) = lex_next(v);
        if below(v1, v) {
            match p_literal(v1) {
                (Ok(r), v2) => (Ok(ExprView::Unary(op, Box::new(r))), v2),
                (Err(er), v2) => (Err(er), v2),
            }
        } else {
            stuck(v1)
        }
    } else {
        p_literal(v)
    }
}

/// exponent ::= unary ('^' unary)?
pub open spec fn p_exponent(v: LexView) -> (Result<ExprView, ErrorView>, LexView)
    decreases lex_measure(v), 3nat,
{
    match p_unary(v) {
        (Ok(l), v1) => if v1.curr is Caret {
            let (op, v2) = lex_next(v1);
            if below(v2, v) {
                match p_unary(v2) {
                    (Ok(r), v3) => (Ok(ExprView::Binary(Box::new(l), op, Box::new(r))), v3),
                    (Err(er), v3) => (Err(er), v3),
                }
            } else {
                stuck(v2)
            }
        } else {
            (Ok(l), v1)
        },
        (Err(er), v1) => (Err(er), v1),
    }
}

/// An operator of `factor`.
pub open spec fn is_factor_op(t: TokenView) -> bool {
    t is Star || t is Slash
}

/// An operator of `term`.
pub open spec fn is_term_op(t: TokenView) -> bool {
    t is Plus || t is Minus
}

/// An operator of `comparison`.
pub open spec fn is_comparison_op(t: TokenView) -> bool {
    t is Equal || t is Greater || t is GreaterEqual || t is Less || t is LessEqual
}

/// The rest of a `factor` after its left operand `e`: `(('*' | '/') exponent)*`.
pub open spec fn p_factor_rest(e: ExprView, v: LexView) -> (Result<ExprView, ErrorView>, LexView)
    decreases lex_measure(v), 4nat,
{
    if is_factor_op(v.curr) {
        let (op, v1) = lex_next(v);
        if below(v1, v) {
            match p_exponent(v1) {
                (Ok(r), v2) => if below(v2, v) {
                    p_factor_rest(ExprView::Binary(Box::new(e), op, Box::new(r)), v2)
                } else {
                    stuck(v2)
                },
                (Err(er), v2) => (Err(er), v2),
            }
        } else {
            stuck(v1)
        }
    } else {
        (Ok(e), v)
    }
}

/// factor ::= exponent (('*' | '/') exponent)*, grouped to the left
pub open spec fn p_factor(v: LexView) -> (Result<ExprView, ErrorView>, LexView)
    decreases lex_measure(v), 5nat,
{
    match p_exponent(v) {
        (Ok(e), v1) => if within(v1, v) {
            p_factor_rest(e, v1)
        } else {
            stuck(v1)
        },
        (Err(er), v1) => (Err(er), v1),
    }
}

/// The rest of a `term` after its left operand `e`: `(('+' | '-') factor)*`.
pub open spec fn p_term_rest(e: ExprView, v: LexView) -> (Result<ExprView, ErrorView>, LexView)
    decreases lex_measure(v), 6nat,
{
    if is_term_op(v.curr) {
        let (op, v1) = lex_next(v);
        if below(v1, v) {
            match p_factor(v1) {
                (Ok(r), v2) => if below(v2, v) {
                    p_term_rest(ExprView::Binary(Box::new(e), op, Box::new(r)), v2)
                } else {
                    stuck(v2)
                },
                (Err(er), v2) => (Err(er), v2),
            }
        } else {
            stuck(v1)
        }
    } else {
        (Ok(e), v)
    }
}

/// term ::= factor (('+' | '-') factor)*, grouped to the left
pub open spec fn p_term(v: LexView) -> (Result<ExprView, ErrorView>, LexView)
    decreases lex_measure(v), 7nat,
{
    match p_factor(v) {
        (Ok(e), v1) => if within(v1, v) {
            p_term_rest(e, v1)
        } else {
            stuck(v1)
        },
        (Err(er), v1) => (Err(er), v1),
    }
}

/// The rest of a `comparison` after its left operand `e`.
pub open spec fn p_comparison_rest(e: ExprView, v: LexView) -> (Result<ExprView, ErrorView>, LexView)
    decreases lex_measure(v), 8nat,
{
    if is_comparison_op(v.curr) {
        let (op, v1) = lex_next(v);
        if below(v1, v) {
            match p_term(v1) {
                (Ok(r), v2) => if below(v2, v) {
                    p_comparison_rest(ExprView::Binary(Box::new(e), op, Box::new(r)), v2)
                } else {
                    stuck(v2)
                },
                (Err(er), v2) => (Err(er), v2),
            }
        } else {
            stuck(v1)
        }
    } else {
        (Ok(e), v)
    }
}

/// comparison ::= term (('==' | '>' | '>=' | '<' | '<=') term)*, grouped to the left
pub open spec fn p_comparison(v: LexView) -> (Result<ExprView, ErrorView>, LexView)
    decreases lex_measure(v), 9nat,
{
    match p_term(v) {
        (Ok(e), v1) => if within(v1, v) {
            p_comparison_rest(e, v1)
        } else {
            stuck(v1)
        },
        (Err(er), v1) => (Err(er), v1),
    }
}

/// expression ::= comparison
pub open spec fn p_expr(v: LexView) -> (Result<ExprView, ErrorView>, LexView)
    decreases lex_measure(v), 10nat,
{
    p_comparison(v)
}

/// The closing parenthesis of a call with arguments `args`.
pub open spec fn p_call_close(name: Seq<char>, args: Seq<ExprView>, v: LexView) -> (Result<ExprView, ErrorView>, LexView) {
    match p_expect(v, TokenView::RParen, "missing closing parentheses"@) {
        (Ok(_), v1) => (Ok(ExprView::Call(name, args)), v1),
        (Err(er), v1) => (Err(er), v1),
    }
}

/// The arguments of a call after the first ones, `args`: `(',' expression)* ')'`.
pub open spec fn p_call_rest(name: Seq<char>, args: Seq<ExprView>, v: LexView) -> (Result<ExprView, ErrorView>, LexView)
    decreases lex_measure(v), 11nat,
{
    if v.curr is Comma {
        let v1 = adv(v);
        if below(v1, v) {
            match p_expr(v1) {
                (Ok(a), v2) => if below(v2, v) {
                    p_call_rest(name, args.push(a), v2)
                } else {
                    stuck(v2)
                },
                (Err(er), v2) => (Err(er), v2),
            }
        } else {
            stuck(v1)
        }
    } else {
        p_call_close(name, args, v)
    }
}

/// The arguments of a call of `name` after its `(`: `(expression (',' expression)*)? ')'`.
pub open spec fn p_call(name: Seq<char>, v: LexView) -> (Result<ExprView, ErrorView>, LexView)
    decreases lex_measure(v), 12nat,
{
    if !(v.curr is RParen) {
        match p_expr(v) {
            (Ok(a), v1) => if within(v1, v) {
                p_call_rest(name, seq![a], v1)
            } else {
                stuck(v1)
            },
            (Err(er), v1) => (Err(er), v1),
        }
    } else {
        p_call_close(name, Seq::empty(), v)
    }
}

/// An expression followed by `;`.
pub open spec fn p_terminated(v: LexView) -> (Result<ExprView, ErrorView>, LexView)
    decreases lex_measure(v), 13nat,
{
    match p_expr(v) {
        (Ok(e), v1) => match p_expect(v1, TokenView::Semicolon, "missing semicolon"@) {
            (Ok(_), v2) => (Ok(e), v2),
            (Err(er), v2) => (Err(er), v2),
        },
        (Err(er), v1) => (Err(er), v1),
    }
}

/// The statement of kind `k` (0: expression, 1: print, 2: return) made of
/// an expression followed by `;`.
pub open spec fn p_simple(k: nat, v: LexView) -> (Result<StmtView, ErrorView>, LexView)
    decreases lex_measure(v), 14nat,
{
    match p_terminated(v) {
        (Ok(e), v1) => (Ok(
            if k == 0 {
                StmtView::Expression(e)
            } else if k == 1 {
                StmtView::Print(e)
            } else {
                StmtView::Return(e)
            },
        ), v1),
        (Err(er), v1) => (Err(er), v1),
    }
}

/// A statement that starts with an identifier: an assignment if `=` follows;
/// otherwise an expression statement that starts with the identifier.
pub open spec fn p_ident_stmt(v: LexView) -> (Result<StmtView, ErrorView>, LexView)
    decreases lex_measure(v), 15nat,
{
    let v1 = adv(v);
    if v1.curr is Assign {
        let v2 = adv(v1);
        if below(v2, v) {
            match p_terminated(v2) {
                (Ok(e), v3) => (Ok(StmtView::Assign(v.curr->Identifier_0, e)), v3),
                (Err(er), v3) => (Err(er), v3),
            }
        } else {
            stuck(v2)
        }
    } else {
        p_simple(0, v)
    }
}

/// A statement that starts with `if`, `return`, `print` or `fn`.
pub open spec fn p_keyword_stmt(v: LexView) -> (Result<StmtView, ErrorView>, LexView)
    decreases lex_measure(v), 15nat,
{
    let t = v.curr;
    let v1 = adv(v);
    if below(v1, v) {
        if t is If {
            p_if(v1)
        } else if t is Return {
            p_simple(2, v1)
        } else if t is Print {
            p_simple(1, v1)
        } else {
            p_func(v1)
        }
    } else {
        stuck(v1)
    }
}

/// statement ::= expression ';' | identifier '=' expression ';' | 'if' ... |
/// 'return' expression ';' | 'print' expression ';' | 'fn' ...
pub open spec fn p_statement(v: LexView) -> (Result<StmtView, ErrorView>, LexView)
    decreases lex_measure(v), 16nat,
{
    let t = v.curr;
    if t is Number || t is LParen {
        p_simple(0, v)
    } else if t is Identifier {
        p_ident_stmt(v)
    } else if t is If || t is Return || t is Print || t is Func {
        p_keyword_stmt(v)
    } else {
        (Err(perr(v, "unexpected token "@ + token_debug(t))), v)
    }
}

/// The statements of a block after `{` and the statements `acc` read so far,
/// up to the closing `}`; a function definition is refused.
pub open spec fn p_body_rest(acc: Seq<StmtView>, v: LexView) -> (Result<StmtView, ErrorView>, LexView)
    decreases lex_measure(v), 17nat,
{
    if !(v.curr is RBracket) && !(v.curr is EOF) {
        match p_statement(v) {
            (Ok(s), v1) => if s is Func {
                (Err(perr(v1, "function definitions musn't be nested"@)), v1)
            } else if below(v1, v) {
                p_body_rest(acc.push(s), v1)
            } else {
                stuck(v1)
            },
            (Err(er), v1) => (Err(er), v1),
        }
    } else {
        match p_expect(v, TokenView::RBracket, "missing closing brace"@) {
            (Ok(_), v1) => (Ok(StmtView::Body(acc)), v1),
            (Err(er), v1) => (Err(er), v1),
        }
    }
}

/// body ::= '{' statement* '}'
pub open spec fn p_body(v: LexView) -> (Result<StmtView, ErrorView>, LexView)
    decreases lex_measure(v), 18nat,
{
    match p_expect(v, TokenView::LBracket, "missing opening brace for if statement"@) {
        (Ok(_), v1) => if below(v1, v) {
            p_body_rest(Seq::empty(), v1)
        } else {
            stuck(v1)
        },
        (Err(er), v1) => (Err(er), v1),
    }
}

/// if ::= 'if' expression body ('else' 'if' ... | 'else' body)?, after the `if`
pub open spec fn p_if(v: LexView) -> (Result<StmtView, ErrorView>, LexView)
    decreases lex_measure(v), 19nat,
{
    match p_expr(v) {
        (Ok(c), v1) => if within(v1, v) {
            match p_body(v1) {
                (Ok(b), v2) => if v2.curr is Else {
                    let v3 = adv(v2);
                    if v3.curr is If {
                        let v4 = adv(v3);
                        if below(v4, v) {
                            match p_if(v4) {
                                (Ok(s), v5) => (Ok(StmtView::If(c, Box::new(b), Some(Box::new(s)))), v5),
                                (Err(er), v5) => (Err(er), v5),
                            }
                        } else {
                            stuck(v4)
                        }
                    } else if below(v3, v) {
                        match p_body(v3) {
                            (Ok(s), v4) => (Ok(StmtView::If(c, Box::new(b), Some(Box::new(s)))), v4),
                            (Err(er), v4) => (Err(er), v4),
                        }
                    } else {
                        stuck(v3)
                    }
                } else {
                    (Ok(StmtView::If(c, Box::new(b), None)), v2)
                },
                (Err(er), v2) => (Err(er), v2),
            }
        } else {
            stuck(v1)
        },
        (Err(er), v1) => (Err(er), v1),
    }
}

/// The parameters after the first ones, `acc`: `(',' identifier)*`.
pub open spec fn p_params_rest(acc: Seq<Seq<char>>, v: LexView) -> (Result<Seq<Seq<char>>, ErrorView>, LexView)
    decreases lex_measure(v),
{
    if v.curr is Comma {
        let (t, v2) = lex_next(adv(v));
        if t is Identifier {
            if below(v2, v) {
                p_params_rest(acc.push(t->Identifier_0), v2)
            } else {
                stuck(v2)
            }
        } else {
            (Err(perr(v2, "expected variable in function definition"@)), v2)
        }
    } else {
        (Ok(acc), v)
    }
}

/// The parameters of a function: `(identifier (',' identifier)*)?`.
pub open spec fn p_params(v: LexView) -> (Result<Seq<Seq<char>>, ErrorView>, LexView) {
    if v.curr is Identifier {
        p_params_rest(seq![v.curr->Identifier_0], adv(v))
    } else {
        (Ok(Seq::empty()), v)
    }
}

/// function ::= 'fn' identifier '(' params ')' body, after the `fn`
pub open spec fn p_func(v: LexView) -> (Result<StmtView, ErrorView>, LexView)
    decreases lex_measure(v), 19nat,
{
    let (t, v1) = lex_next(v);
    if t is Identifier {
        match p_expect(v1, TokenView::LParen, "expected opening parentheses after function name"@) {
            (Ok(_), v2) => match p_params(v2) {
                (Ok(ps), v3) => match p_expect(v3, TokenView::RParen, "expected closing parentheses"@) {
                    (Ok(_), v4) => if below(v4, v) {
                        match p_body(v4) {
                            (Ok(b), v5) => (Ok(StmtView::Func(t->Identifier_0, ps, Box::new(b))), v5),
                            (Err(er), v5) => (Err(er), v5),
                        }
                    } else {
                        stuck(v4)
                    },
                    (Err(er), v4) => (Err(er), v4),
                },
                (Err(er), v3) => (Err(er), v3),
            },
            (Err(er), v2) => (Err(er), v2),
        }
    } else {
        (Err(perr(v1, "need function name in declaration"@)), v1)
    }
}

/// The statements of a program after those read so far, `acc`, up to `EOF`.
pub open spec fn p_program(acc: Seq<StmtView>, v: LexView) -> (Result<Seq<StmtView>, ErrorView>, LexView)
    decreases lex_measure(v),
{
    if !(v.curr is EOF) {
        match p_statement(v) {
            (Ok(s), v1) => if below(v1, v) {
                p_program(acc.push(s), v1)
            } else {
                stuck(v1)
            },
            (Err(er), v1) => (Err(er), v1),
        }
    } else {
        (Ok(acc), v)
    }
}

/// The program that the source `src` parses to, or the error that parsing it stops at.
pub open spec fn parse_source(src: Seq<char>) -> Result<Seq<StmtView>, ErrorView> {
    p_program(Seq::empty(), lex_next(lex_start(src)).1).0
}

/// The statement holds no function definition, at any depth.
pub open spec fn func_free(s: StmtView) -> bool
    decreases s, 1nat,
{
    match s {
        StmtView::Body(v) => all_func_free(v),
        StmtView::If(_, b, e) => func_free(*b) && match e {
            Some(x) => func_free(*x),
            None => true,
        },
        StmtView::Func(_, _, _) => false,
        _ => true,
    }
}

/// No statement of `v` holds a function definition.
pub open spec fn all_func_free(v: Seq<StmtView>) -> bool
    decreases v, 0nat,
{
    if v.len() == 0 {
        true
    } else {
        all_func_free(v.drop_last()) && func_free(v.last())
    }
}

/// A statement of a program: a function definition whose body defines no
/// function, or a statement that defines none.
pub open spec fn top_level_ok(s: StmtView) -> bool {
    match s {
        StmtView::Func(_, _, b) => func_free(*b),
        _ => func_free(s),
    }
}

proof fn lemma_simple_func_free(k: nat, v: LexView)
    ensures
        p_simple(k, v).0 matches Ok(s) ==> func_free(s),
{
}

proof fn lemma_body_rest_func_free(acc: Seq<StmtView>, v: LexView)
    requires
        all_func_free(acc),
    ensures
        p_body_rest(acc, v).0 matches Ok(s) ==> func_free(s),
    decreases lex_measure(v), 17nat,
{
    if !(v.curr is RBracket) && !(v.curr is EOF) {
        lemma_statement_nesting(v);
        match p_statement(v) {
            (Ok(s), v1) => {
                if !(s is Func) && below(v1, v) {
                    assert(acc.push(s).drop_last() =~= acc);
                    lemma_body_rest_func_free(acc.push(s), v1);
                }
            },
            _ => {},
        }
    }
}

proof fn lemma_body_func_free(v: LexView)
    ensures
        p_body(v).0 matches Ok(s) ==> func_free(s),
    decreases lex_measure(v), 18nat,
{
    match p_expect(v, TokenView::LBracket, "missing opening brace for if statement"@) {
        (Ok(_), v1) => if below(v1, v) {
            lemma_body_rest_func_free(Seq::empty(), v1);
        },
        _ => {},
    }
}

proof fn lemma_if_func_free(v: LexView)
    ensures
        p_if(v).0 matches Ok(s) ==> func_free(s),
    decreases lex_measure(v), 19nat,
{
    match p_expr(v) {
        (Ok(c), v1) => if within(v1, v) {
            lemma_body_func_free(v1);
            match p_body(v1) {
                (Ok(b), v2) => if v2.curr is Else {
                    let v3 = adv(v2);
                    if v3.curr is If {
                        let v4 = adv(v3);
                        if below(v4, v) {
                            lemma_if_func_free(v4);
                        }
                    } else if below(v3, v) {
                        lemma_body_func_free(v3);
                    }
                },
                _ => {},
            }
        },
        _ => {},
    }
}

proof fn lemma_func_nesting(v: LexView)
    ensures
        p_func(v).0 matches Ok(s) ==> s is Func && top_level_ok(s),
    decreases lex_measure(v), 19nat,
{
    let (t, v1) = lex_next(v);
    if t is Identifier {
        match p_expect(v1, TokenView::LParen, "expected opening parentheses after function name"@) {
            (Ok(_), v2) => match p_params(v2) {
                (Ok(ps), v3) => match p_expect(v3, TokenView::RParen, "expected closing parentheses"@) {
                    (Ok(_), v4) => if below(v4, v) {
                        lemma_body_func_free(v4);
                    },
                    _ => {},
                },
                _ => {},
            },
            _ => {},
        }
    }
}

proof fn lemma_statement_nesting(v: LexView)
    ensures
        p_statement(v).0 matches Ok(s) ==> top_level_ok(s),
    decreases lex_measure(v), 16nat,
{
    let t = v.curr;
    if t is Number || t is LParen {
        lemma_simple_func_free(0, v);
    } else if t is Identifier {
        let v1 = adv(v);
        if !(v1.curr is Assign) && below(v1, v) {
            lemma_simple_func_free(0, v1);
        }
    } else if t is If || t is Return || t is Print || t is Func {
        let v1 = adv(v);
        if below(v1, v) {
            if t is If {
                lemma_if_func_free(v1);
            } else if t is Return {
                lemma_simple_func_free(2, v1);
            } else if t is Print {
                lemma_simple_func_free(1, v1);
            } else {
                lemma_func_nesting(v1);
            }
        }
    }
}

proof fn lemma_program_nesting(acc: Seq<StmtView>, v: LexView)
    requires
        forall|i: int| 0 <= i < acc.len() ==> #[trigger] top_level_ok(acc[i]),
    ensures
        p_program(acc, v).0 matches Ok(p) ==> forall|i: int| 0 <= i < p.len() ==> #[trigger] top_level_ok(p[i]),
    decreases lex_measure(v),
{
    if !(v.curr is EOF) {
        lemma_statement_nesting(v);
        match p_statement(v) {
            (Ok(s), v1) => if below(v1, v) {
                assert forall|i: int| 0 <= i < acc.push(s).len() implies #[trigger] top_level_ok(
                    acc.push(s)[i],
                ) by {
                    if i < acc.len() {
                        assert(acc.push(s)[i] == acc[i]);
                    }
                }
                lemma_program_nesting(acc.push(s), v1);
            },
            _ => {},
        }
    }
}

/// Function definitions are never nested: every statement of a parsed
/// program either defines a function whose body defines none, or defines none.
pub proof fn law_no_nested_functions(src: Seq<char>)
    ensures
        parse_source(src) matches Ok(p) ==> forall|i: int| 0 <= i < p.len() ==> #[trigger] top_level_ok(p[i]),
{
    lemma_program_nesting(Seq::empty(), lex_next(lex_start(src)).1);
}

/// A token that stands between two operands.
pub open spec fn is_binary_op(t: TokenView) -> bool {
    is_factor_op(t) || is_term_op(t) || is_comparison_op(t) || t is Caret
}

/// Every operator in the expression stands where it may: binary operators
/// between operands, and `+` or `-` before one.
pub open spec fn expr_ops_ok(e: ExprView) -> bool
    decreases e, 1nat,
{
    match e {
        ExprView::Binary(l, op, r) => is_binary_op(op) && expr_ops_ok(*l) && expr_ops_ok(*r),
        ExprView::Unary(op, r) => (op is Plus || op is Minus) && expr_ops_ok(*r),
        ExprView::Group(g) => expr_ops_ok(*g),
        ExprView::Call(_, args) => all_expr_ops_ok(args),
        _ => true,
    }
}

/// Every expression of `s` has its operators where they may stand.
pub open spec fn all_expr_ops_ok(s: Seq<ExprView>) -> bool
    decreases s, 0nat,
{
    if s.len() == 0 {
        true
    } else {
        all_expr_ops_ok(s.drop_last()) && expr_ops_ok(s.last())
    }
}

/// Every expression in the statement has its operators where they may stand.
pub open spec fn stmt_ops_ok(s: StmtView) -> bool
    decreases s, 1nat,
{
    match s {
        StmtView::Body(v) => all_stmt_ops_ok(v),
        StmtView::If(c, b, e) => expr_ops_ok(c) && stmt_ops_ok(*b) && match e {
            Some(x) => stmt_ops_ok(*x),
            None => true,
        },
        StmtView::Func(_, _, b) => stmt_ops_ok(*b),
        StmtView::Assign(_, e) => expr_ops_ok(e),
        StmtView::Print(e) => expr_ops_ok(e),
        StmtView::Return(e) => expr_ops_ok(e),
        StmtView::Expression(e) => expr_ops_ok(e),
    }
}

/// Every statement of `v` has its operators where they may stand.
pub open spec fn all_stmt_ops_ok(v: Seq<StmtView>) -> bool
    decreases v, 0nat,
{
    if v.len() == 0 {
        true
    } else {
        all_stmt_ops_ok(v.drop_last()) && stmt_ops_ok(v.last())
    }
}

proof fn lemma_literal_ops(v: LexView)
    ensures
        p_literal(v).0 matches Ok(e) ==> expr_ops_ok(e),
    decreases lex_measure(v), 1nat,
{
    let (t, v1) = lex_next(v);
    match t {
        TokenView::LParen => if below(v1, v) {
            lemma_expr_ops(v1);
        },
        TokenView::Identifier(name) => if v1.curr == TokenView::LParen {
            let v2 = adv(v1);
            if below(v2, v) {
                lemma_call_ops(name, v2);
            }
        },
        _ => {},
    }
}

proof fn lemma_unary_ops(v: LexView)
    ensures
        p_unary(v).0 matches Ok(e) ==> expr_ops_ok(e),
    decreases lex_measure(v), 2nat,
{
    lemma_lex_next_token(v);
    if v.curr is Plus || v.curr is Minus {
        let (op, v1) = lex_next(v);
        if below(v1, v) {
            lemma_literal_ops(v1);
        }
    } else {
        lemma_literal_ops(v);
    }
}

proof fn lemma_exponent_ops(v: LexView)
    ensures
        p_exponent(v).0 matches Ok(e) ==> expr_ops_ok(e),
    decreases lex_measure(v), 3nat,
{
    lemma_unary_ops(v);
    match p_unary(v) {
        (Ok(l), v1) => if v1.curr is Caret {
            lemma_lex_next_token(v1);
            let (op, v2) = lex_next(v1);
            if below(v2, v) {
                lemma_unary_ops(v2);
            }
        },
        _ => {},
    }
}

proof fn lemma_factor_rest_ops(e: ExprView, v: LexView)
    requires
        expr_ops_ok(e),
    ensures
        p_factor_rest(e, v).0 matches Ok(x) ==> expr_ops_ok(x),
    decreases lex_measure(v), 4nat,
{
    if is_factor_op(v.curr) {
        lemma_lex_next_token(v);
        let (op, v1) = lex_next(v);
        if below(v1, v) {
            lemma_exponent_ops(v1);
            match p_exponent(v1) {
                (Ok(r), v2) => if below(v2, v) {
                    lemma_factor_rest_ops(ExprView::Binary(Box::new(e), op, Box::new(r)), v2);
                },
                _ => {},
            }
        }
    }
}

proof fn lemma_factor_ops(v: LexView)
    ensures
        p_factor(v).0 matches Ok(e) ==> expr_ops_ok(e),
    decreases lex_measure(v), 5nat,
{
    lemma_exponent_ops(v);
    match p_exponent(v) {
        (Ok(e), v1) => if within(v1, v) {
            lemma_factor_rest_ops(e, v1);
        },
        _ => {},
    }
}

proof fn lemma_term_rest_ops(e: ExprView, v: LexView)
    requires
        expr_ops_ok(e),
    ensures
        p_term_rest(e, v).0 matches Ok(x) ==> expr_ops_ok(x),
    decreases lex_measure(v), 6nat,
{
    if is_term_op(v.curr) {
        lemma_lex_next_token(v);
        let (op, v1) = lex_next(v);
        if below(v1, v) {
            lemma_factor_ops(v1);
            match p_factor(v1) {
                (Ok(r), v2) => if below(v2, v) {
                    lemma_term_rest_ops(ExprView::Binary(Box::new(e), op, Box::new(r)), v2);
                },
                _ => {},
            }
        }
    }
}

proof fn lemma_term_ops(v: LexView)
    ensures
        p_term(v).0 matches Ok(e) ==> expr_ops_ok(e),
    decreases lex_measure(v), 7nat,
{
    lemma_factor_ops(v);
    match p_factor(v) {
        (Ok(e), v1) => if within(v1, v) {
            lemma_term_rest_ops(e, v1);
        },
        _ => {},
    }
}

proof fn lemma_comparison_rest_ops(e: ExprView, v: LexView)
    requires
        expr_ops_ok(e),
    ensures
        p_comparison_rest(e, v).0 matches Ok(x) ==> expr_ops_ok(x),
    decreases lex_measure(v), 8nat,
{
    if is_comparison_op(v.curr) {
        lemma_lex_next_token(v);
        let (op, v1) = lex_next(v);
        if below(v1, v) {
            lemma_term_ops(v1);
            match p_term(v1) {
                (Ok(r), v2) => if below(v2, v) {
                    lemma_comparison_rest_ops(ExprView::Binary(Box::new(e), op, Box::new(r)), v2);
                },
                _ => {},
            }
        }
    }
}

proof fn lemma_expr_ops(v: LexView)
    ensures
        p_expr(v).0 matches Ok(e) ==> expr_ops_ok(e),
    decreases lex_measure(v), 10nat,
{
    lemma_term_ops(v);
    match p_term(v) {
        (Ok(e), v1) => if within(v1, v) {
            lemma_comparison_rest_ops(e, v1);
        },
        _ => {},
    }
}

proof fn lemma_call_rest_ops(name: Seq<char>, args: Seq<ExprView>, v: LexView)
    requires
        all_expr_ops_ok(args),
    ensures
        p_call_rest(name, args, v).0 matches Ok(x) ==> expr_ops_ok(x),
    decreases lex_measure(v), 11nat,
{
    if v.curr is Comma {
        let v1 = adv(v);
        if below(v1, v) {
            lemma_expr_ops(v1);
            match p_expr(v1) {
                (Ok(a), v2) => if below(v2, v) {
                    assert(args.push(a).drop_last() =~= args);
                    lemma_call_rest_ops(name, args.push(a), v2);
                },
                _ => {},
            }
        }
    }
}

proof fn lemma_call_ops(name: Seq<char>, v: LexView)
    ensures
        p_call(name, v).0 matches Ok(x) ==> expr_ops_ok(x),
    decreases lex_measure(v), 12nat,
{
    if !(v.curr is RParen) {
        lemma_expr_ops(v);
        match p_expr(v) {
            (Ok(a), v1) => if within(v1, v) {
                assert(seq![a].drop_last() =~= Seq::<ExprView>::empty());
                assert(all_expr_ops_ok(Seq::<ExprView>::empty()));
                assert(seq![a].last() == a);
                assert(all_expr_ops_ok(seq![a]));
                lemma_call_rest_ops(name, seq![a], v1);
            },
            _ => {},
        }
    } else {
        assert(all_expr_ops_ok(Seq::<ExprView>::empty()));
    }
}

proof fn lemma_simple_ops(k: nat, v: LexView)
    ensures
        p_simple(k, v).0 matches Ok(s) ==> stmt_ops_ok(s),
{
    lemma_expr_ops(v);
}

proof fn lemma_body_rest_ops(acc: Seq<StmtView>, v: LexView)
    requires
        all_stmt_ops_ok(acc),
    ensures
        p_body_rest(acc, v).0 matches Ok(s) ==> stmt_ops_ok(s),
    decreases lex_measure(v), 17nat,
{
    if !(v.curr is RBracket) && !(v.curr is EOF) {
        lemma_statement_ops(v);
        match p_statement(v) {
            (Ok(s), v1) => if !(s is Func) && below(v1, v) {
                assert(acc.push(s).drop_last() =~= acc);
                lemma_body_rest_ops(acc.push(s), v1);
            },
            _ => {},
        }
    }
}

proof fn lemma_body_ops(v: LexView)
    ensures
        p_body(v).0 matches Ok(s) ==> stmt_ops_ok(s),
    decreases lex_measure(v), 18nat,
{
    match p_expect(v, TokenView::LBracket, "missing opening brace for if statement"@) {
        (Ok(_), v1) => if below(v1, v) {
            lemma_body_rest_ops(Seq::empty(), v1);
        },
        _ => {},
    }
}

proof fn lemma_if_ops(v: LexView)
    ensures
        p_if(v).0 matches Ok(s) ==> stmt_ops_ok(s),
    decreases lex_measure(v), 19nat,
{
    lemma_expr_ops(v);
    match p_expr(v) {
        (Ok(c), v1) => if within(v1, v) {
            lemma_body_ops(v1);
            match p_body(v1) {
                (Ok(b), v2) => if v2.curr is Else {
                    let v3 = adv(v2);
                    if v3.curr is If {
                        let v4 = adv(v3);
                        if below(v4, v) {
                            lemma_if_ops(v4);
                        }
                    } else if below(v3, v) {
                        lemma_body_ops(v3);
                    }
                },
                _ => {},
            }
        },
        _ => {},
    }
}

proof fn lemma_func_ops(v: LexView)
    ensures
        p_func(v).0 matches Ok(s) ==> stmt_ops_ok(s),
    decreases lex_measure(v), 19nat,
{
    let (t, v1) = lex_next(v);
    if t is Identifier {
        match p_expect(v1, TokenView::LParen, "expected opening parentheses after function name"@) {
            (Ok(_), v2) => match p_params(v2) {
                (Ok(ps), v3) => match p_expect(v3, TokenView::RParen, "expected closing parentheses"@) {
                    (Ok(_), v4) => if below(v4, v) {
                        lemma_body_ops(v4);
                    },
                    _ => {},
                },
                _ => {},
            },
            _ => {},
        }
    }
}

proof fn lemma_statement_ops(v: LexView)
    ensures
        p_statement(v).0 matches Ok(s) ==> stmt_ops_ok(s),
    decreases lex_measure(v), 16nat,
{
    let t = v.curr;
    if t is Number || t is LParen {
        lemma_simple_ops(0, v);
    } else if t is Identifier {
        let v1 = adv(v);
        if v1.curr is Assign {
            let v2 = adv(v1);
            if below(v2, v) {
                lemma_expr_ops(v2);
            }
        } else {
            lemma_simple_ops(0, v);
        }
    } else if t is If || t is Return || t is Print || t is Func {
        let v1 = adv(v);
        if below(v1, v) {
            if t is If {
                lemma_if_ops(v1);
            } else if t is Return {
                lemma_simple_ops(2, v1);
            } else if t is Print {
                lemma_simple_ops(1, v1);
            } else {
                lemma_func_ops(v1);
            }
        }
    }
}

proof fn lemma_program_ops(acc: Seq<StmtView>, v: LexView)
    requires
        all_stmt_ops_ok(acc),
    ensures
        p_program(acc, v).0 matches Ok(p) ==> all_stmt_ops_ok(p),
    decreases lex_measure(v),
{
    if !(v.curr is EOF) {
        lemma_statement_ops(v);
        match p_statement(v) {
            (Ok(s), v1) => if below(v1, v) {
                assert(acc.push(s).drop_last() =~= acc);
                lemma_program_ops(acc.push(s), v1);
            },
            _ => {},
        }
    }
}

/// Operators stand only where the grammar puts them: in a parsed program,
/// every binary expression joins its operands with one of `+ - * / ^ == > >= < <=`,
/// and every unary expression starts with `+` or `-`.
pub proof fn law_operators_in_place(src: Seq<char>)
    ensures
        parse_source(src) matches Ok(p) ==> all_stmt_ops_ok(p),
{
    lemma_program_ops(Seq::empty(), lex_next(lex_start(src)).1);
}

/// `w` is reached from `v` in `n` steps of the lexer, none of which hands
/// out an `Illegal` token.
pub open spec fn clean_path(v: LexView, w: LexView, n: nat) -> bool
    decreases n,
{
    if n == 0 {
        v == w
    } else {
        !(v.curr is Illegal) && clean_path(adv(v), w, (n - 1) as nat)
    }
}

proof fn lemma_path_step(v: LexView)
    requires
        !(v.curr is Illegal),
    ensures
        clean_path(v, adv(v), 1),
{
    assert(clean_path(adv(v), adv(v), 0));
}

proof fn lemma_path_join(a: LexView, b: LexView, c: LexView, n: nat, m: nat)
    requires
        clean_path(a, b, n),
        clean_path(b, c, m),
    ensures
        clean_path(a, c, n + m),
    decreases n,
{
    if n > 0 {
        lemma_path_join(adv(a), b, c, (n - 1) as nat, m);
        assert((n - 1) as nat + m == (n + m - 1) as nat);
    }
}

proof fn lemma_expect_clean(v: LexView, t: TokenView, msg: Seq<char>) -> (n: nat)
    requires
        !(t is Illegal),
    ensures
        p_expect(v, t, msg).0 is Ok ==> clean_path(v, p_expect(v, t, msg).1, n),
{
    if v.curr == t {
        lemma_path_step(v);
        1
    } else {
        0
    }
}

proof fn lemma_literal_clean(v: LexView) -> (n: nat)
    ensures
        p_literal(v).0 is Ok ==> clean_path(v, p_literal(v).1, n),
    decreases lex_measure(v), 1nat,
{
    lemma_lex_next_token(v);
    let (t, v1) = lex_next(v);
    match t {
        TokenView::Number(_) | TokenView::True | TokenView::False => {
            lemma_path_step(v);
            1
        },
        TokenView::LParen => if below(v1, v) {
            let a = lemma_expr_clean(v1);
            if let (Ok(e), v2) = p_expr(v1) {
                let b = lemma_expect_clean(v2, TokenView::RParen, "expected closing parentheses"@);
                if p_expect(v2, TokenView::RParen, "expected closing parentheses"@).0 is Ok {
                    lemma_path_step(v);
                    lemma_path_join(v, v1, v2, 1, a);
                    lemma_path_join(v, v2, p_expect(v2, TokenView::RParen, "expected closing parentheses"@).1, 1 + a, b);
                }
                1 + a + b
            } else {
                0
            }
        } else {
            0
        },
        TokenView::Identifier(name) => if v1.curr == TokenView::LParen {
            let v2 = adv(v1);
            if below(v2, v) {
                let a = lemma_call_clean(name, v2);
                lemma_path_step(v);
                lemma_path_step(v1);
                lemma_path_join(v, v1, v2, 1, 1);
                if p_call(name, v2).0 is Ok {
                    lemma_path_join(v, v2, p_call(name, v2).1, 2, a);
                }
                2 + a
            } else {
                0
            }
        } else {
            lemma_path_step(v);
            1
        },
        _ => 0,
    }
}

proof fn lemma_unary_clean(v: LexView) -> (n: nat)
    ensures
        p_unary(v).0 is Ok ==> clean_path(v, p_unary(v).1, n),
    decreases lex_measure(v), 2nat,
{
    if v.curr is Plus || v.curr is Minus {
        let v1 = lex_next(v).1;
        if below(v1, v) {
            let a = lemma_literal_clean(v1);
            lemma_path_step(v);
            if p_literal(v1).0 is Ok {
                lemma_path_join(v, v1, p_literal(v1).1, 1, a);
            }
            1 + a
        } else {
            0
        }
    } else {
        lemma_literal_clean(v)
    }
}

proof fn lemma_exponent_clean(v: LexView) -> (n: nat)
    ensures
        p_exponent(v).0 is Ok ==> clean_path(v, p_exponent(v).1, n),
    decreases lex_measure(v), 3nat,
{
    let a = lemma_unary_clean(v);
    if let (Ok(l), v1) = p_unary(v) {
        if v1.curr is Caret {
            let v2 = lex_next(v1).1;
            if below(v2, v) {
                let b = lemma_unary_clean(v2);
                if p_unary(v2).0 is Ok {
                    lemma_path_step(v1);
                    lemma_path_join(v, v1, v2, a, 1);
                    lemma_path_join(v, v2, p_unary(v2).1, a + 1, b);
                }
                a + 1 + b
            } else {
                0
            }
        } else {
            a
        }
    } else {
        0
    }
}

proof fn lemma_factor_rest_clean(e: ExprView, v: LexView) -> (n: nat)
    ensures
        p_factor_rest(e, v).0 is Ok ==> clean_path(v, p_factor_rest(e, v).1, n),
    decreases lex_measure(v), 4nat,
{
    if is_factor_op(v.curr) {
        let (op, v1) = lex_next(v);
        if below(v1, v) {
            let a = lemma_exponent_clean(v1);
            if let (Ok(r), v2) = p_exponent(v1) {
                if below(v2, v) {
                    let e2 = ExprView::Binary(Box::new(e), op, Box::new(r));
                    let b = lemma_factor_rest_clean(e2, v2);
                    if p_factor_rest(e2, v2).0 is Ok {
                        lemma_path_step(v);
                        lemma_path_join(v, v1, v2, 1, a);
                        lemma_path_join(v, v2, p_factor_rest(e2, v2).1, 1 + a, b);
                    }
                    1 + a + b
                } else {
                    0
                }
            } else {
                0
            }
        } else {
            0
        }
    } else {
        assert(clean_path(v, v, 0));
        0
    }
}

#[verifier::spinoff_prover]
proof fn lemma_factor_clean(v: LexView) -> (n: nat)
    ensures
        p_factor(v).0 is Ok ==> clean_path(v, p_factor(v).1, n),
    decreases lex_measure(v), 5nat,
{
    let a = lemma_exponent_clean(v);
    if let (Ok(e), v1) = p_exponent(v) {
        if within(v1, v) {
            let b = lemma_factor_rest_clean(e, v1);
            if p_factor_rest(e, v1).0 is Ok {
                lemma_path_join(v, v1, p_factor_rest(e, v1).1, a, b);
            }
            a + b
        } else {
            0
        }
    } else {
        0
    }
}

proof fn lemma_term_rest_clean(e: ExprView, v: LexView) -> (n: nat)
    ensures
        p_term_rest(e, v).0 is Ok ==> clean_path(v, p_term_rest(e, v).1, n),
    decreases lex_measure(v), 6nat,
{
    if is_term_op(v.curr) {
        let (op, v1) = lex_next(v);
        if below(v1, v) {
            let a = lemma_factor_clean(v1);
            if let (Ok(r), v2) = p_factor(v1) {
                if below(v2, v) {
                    let e2 = ExprView::Binary(Box::new(e), op, Box::new(r));
                    let b = lemma_term_rest_clean(e2, v2);
                    if p_term_rest(e2, v2).0 is Ok {
                        lemma_path_step(v);
                        lemma_path_join(v, v1, v2, 1, a);
                        lemma_path_join(v, v2, p_term_rest(e2, v2).1, 1 + a, b);
                    }
                    1 + a + b
                } else {
                    0
                }
            } else {
                0
            }
        } else {
            0
        }
    } else {
        assert(clean_path(v, v, 0));
        0
    }
}

#[verifier::spinoff_prover]
proof fn lemma_term_clean(v: LexView) -> (n: nat)
    ensures
        p_term(v).0 is Ok ==> clean_path(v, p_term(v).1, n),
    decreases lex_measure(v), 7nat,
{
    let a = lemma_factor_clean(v);
    if let (Ok(e), v1) = p_factor(v) {
        if within(v1, v) {
            let b = lemma_term_rest_clean(e, v1);
            if p_term_rest(e, v1).0 is Ok {
                lemma_path_join(v, v1, p_term_rest(e, v1).1, a, b);
            }
            a + b
        } else {
            0
        }
    } else {
        0
    }
}

proof fn lemma_comparison_rest_clean(e: ExprView, v: LexView) -> (n: nat)
    ensures
        p_comparison_rest(e, v).0 is Ok ==> clean_path(v, p_comparison_rest(e, v).1, n),
    decreases lex_measure(v), 8nat,
{
    if is_comparison_op(v.curr) {
        let (op, v1) = lex_next(v);
        if below(v1, v) {
            let a = lemma_term_clean(v1);
            if let (Ok(r), v2) = p_term(v1) {
                if below(v2, v) {
                    let e2 = ExprView::Binary(Box::new(e), op, Box::new(r));
                    let b = lemma_comparison_rest_clean(e2, v2);
                    if p_comparison_rest(e2, v2).0 is Ok {
                        lemma_path_step(v);
                        lemma_path_join(v, v1, v2, 1, a);
                        lemma_path_join(v, v2, p_comparison_rest(e2, v2).1, 1 + a, b);
                    }
                    1 + a + b
                } else {
                    0
                }
            } else {
                0
            }
        } else {
            0
        }
    } else {
        assert(clean_path(v, v, 0));
        0
    }
}

#[verifier::spinoff_prover]
proof fn lemma_comparison_clean(v: LexView) -> (n: nat)
    ensures
        p_comparison(v).0 is Ok ==> clean_path(v, p_comparison(v).1, n),
    decreases lex_measure(v), 9nat,
{
    let a = lemma_term_clean(v);
    if let (Ok(e), v1) = p_term(v) {
        if within(v1, v) {
            let b = lemma_comparison_rest_clean(e, v1);
            if p_comparison_rest(e, v1).0 is Ok {
                lemma_path_join(v, v1, p_comparison_rest(e, v1).1, a, b);
            }
            a + b
        } else {
            0
        }
    } else {
        0
    }
}

proof fn lemma_expr_clean(v: LexView) -> (n: nat)
    ensures
        p_expr(v).0 is Ok ==> clean_path(v, p_expr(v).1, n),
    decreases lex_measure(v), 10nat,
{
    lemma_comparison_clean(v)
}

proof fn lemma_call_close_clean(name: Seq<char>, args: Seq<ExprView>, v: LexView) -> (n: nat)
    ensures
        p_call_close(name, args, v).0 is Ok ==> clean_path(v, p_call_close(name, args, v).1, n),
{
    lemma_expect_clean(v, TokenView::RParen, "missing closing parentheses"@)
}

proof fn lemma_call_rest_clean(name: Seq<char>, args: Seq<ExprView>, v: LexView) -> (n: nat)
    ensures
        p_call_rest(name, args, v).0 is Ok ==> clean_path(v, p_call_rest(name, args, v).1, n),
    decreases lex_measure(v), 11nat,
{
    if v.curr is Comma {
        let v1 = adv(v);
        if below(v1, v) {
            let a = lemma_expr_clean(v1);
            if let (Ok(x), v2) = p_expr(v1) {
                if below(v2, v) {
                    let b = lemma_call_rest_clean(name, args.push(x), v2);
                    if p_call_rest(name, args.push(x), v2).0 is Ok {
                        lemma_path_step(v);
                        lemma_path_join(v, v1, v2, 1, a);
                        lemma_path_join(v, v2, p_call_rest(name, args.push(x), v2).1, 1 + a, b);
                    }
                    1 + a + b
                } else {
                    0
                }
            } else {
                0
            }
        } else {
            0
        }
    } else {
        lemma_call_close_clean(name, args, v)
    }
}

proof fn lemma_call_clean(name: Seq<char>, v: LexView) -> (n: nat)
    ensures
        p_call(name, v).0 is Ok ==> clean_path(v, p_call(name, v).1, n),
    decreases lex_measure(v), 12nat,
{
    if !(v.curr is RParen) {
        let a = lemma_expr_clean(v);
        if let (Ok(x), v1) = p_expr(v) {
            if within(v1, v) {
                let b = lemma_call_rest_clean(name, seq![x], v1);
                if p_call_rest(name, seq![x], v1).0 is Ok {
                    lemma_path_join(v, v1, p_call_rest(name, seq![x], v1).1, a, b);
                }
                a + b
            } else {
                0
            }
        } else {
            0
        }
    } else {
        lemma_call_close_clean(name, Seq::empty(), v)
    }
}

proof fn lemma_terminated_clean(v: LexView) -> (n: nat)
    ensures
        p_terminated(v).0 is Ok ==> clean_path(v, p_terminated(v).1, n),
{
    let a = lemma_expr_clean(v);
    if let (Ok(e), v1) = p_expr(v) {
        let b = lemma_expect_clean(v1, TokenView::Semicolon, "missing semicolon"@);
        if p_expect(v1, TokenView::Semicolon, "missing semicolon"@).0 is Ok {
            lemma_path_join(v, v1, p_expect(v1, TokenView::Semicolon, "missing semicolon"@).1, a, b);
        }
        a + b
    } else {
        0
    }
}

proof fn lemma_simple_clean(k: nat, v: LexView) -> (n: nat)
    ensures
        p_simple(k, v).0 is Ok ==> clean_path(v, p_simple(k, v).1, n),
{
    lemma_terminated_clean(v)
}

proof fn lemma_ident_stmt_clean(v: LexView) -> (n: nat)
    requires
        v.curr is Identifier,
    ensures
        p_ident_stmt(v).0 is Ok ==> clean_path(v, p_ident_stmt(v).1, n),
{
    let v1 = adv(v);
    if v1.curr is Assign {
        let v2 = adv(v1);
        if below(v2, v) {
            let a = lemma_terminated_clean(v2);
            lemma_path_step(v);
            lemma_path_step(v1);
            lemma_path_join(v, v1, v2, 1, 1);
            if p_terminated(v2).0 is Ok {
                lemma_path_join(v, v2, p_terminated(v2).1, 2, a);
            }
            2 + a
        } else {
            0
        }
    } else {
        lemma_simple_clean(0, v)
    }
}

proof fn lemma_keyword_stmt_clean(v: LexView) -> (n: nat)
    requires
        v.curr is If || v.curr is Return || v.curr is Print || v.curr is Func,
    ensures
        p_keyword_stmt(v).0 is Ok ==> clean_path(v, p_keyword_stmt(v).1, n),
    decreases lex_measure(v), 15nat,
{
    let t = v.curr;
    let v1 = adv(v);
    if below(v1, v) {
        let a = if t is If {
            lemma_if_clean(v1)
        } else if t is Return {
            lemma_simple_clean(2, v1)
        } else if t is Print {
            lemma_simple_clean(1, v1)
        } else {
            lemma_func_clean(v1)
        };
        lemma_path_step(v);
        if p_keyword_stmt(v).0 is Ok {
            lemma_path_join(v, v1, p_keyword_stmt(v).1, 1, a);
        }
        1 + a
    } else {
        0
    }
}

proof fn lemma_statement_clean(v: LexView) -> (n: nat)
    ensures
        p_statement(v).0 is Ok ==> clean_path(v, p_statement(v).1, n),
    decreases lex_measure(v), 16nat,
{
    let t = v.curr;
    if t is Number || t is LParen {
        lemma_simple_clean(0, v)
    } else if t is Identifier {
        lemma_ident_stmt_clean(v)
    } else if t is If || t is Return || t is Print || t is Func {
        lemma_keyword_stmt_clean(v)
    } else {
        0
    }
}

proof fn lemma_body_rest_clean(acc: Seq<StmtView>, v: LexView) -> (n: nat)
    ensures
        p_body_rest(acc, v).0 is Ok ==> clean_path(v, p_body_rest(acc, v).1, n),
    decreases lex_measure(v), 17nat,
{
    if !(v.curr is RBracket) && !(v.curr is EOF) {
        let a = lemma_statement_clean(v);
        if let (Ok(x), v1) = p_statement(v) {
            if !(x is Func) && below(v1, v) {
                let b = lemma_body_rest_clean(acc.push(x), v1);
                if p_body_rest(acc.push(x), v1).0 is Ok {
                    lemma_path_join(v, v1, p_body_rest(acc.push(x), v1).1, a, b);
                }
                a + b
            } else {
                0
            }
        } else {
            0
        }
    } else {
        lemma_expect_clean(v, TokenView::RBracket, "missing closing brace"@)
    }
}

proof fn lemma_body_clean(v: LexView) -> (n: nat)
    ensures
        p_body(v).0 is Ok ==> clean_path(v, p_body(v).1, n),
    decreases lex_measure(v), 18nat,
{
    let m = "missing opening brace for if statement"@;
    let a = lemma_expect_clean(v, TokenView::LBracket, m);
    if let (Ok(_), v1) = p_expect(v, TokenView::LBracket, m) {
        if below(v1, v) {
            let b = lemma_body_rest_clean(Seq::empty(), v1);
            if p_body_rest(Seq::empty(), v1).0 is Ok {
                lemma_path_join(v, v1, p_body_rest(Seq::empty(), v1).1, a, b);
            }
            a + b
        } else {
            0
        }
    } else {
        0
    }
}

proof fn lemma_if_clean(v: LexView) -> (n: nat)
    ensures
        p_if(v).0 is Ok ==> clean_path(v, p_if(v).1, n),
    decreases lex_measure(v), 19nat,
{
    let a = lemma_expr_clean(v);
    if let (Ok(c), v1) = p_expr(v) {
        if within(v1, v) {
            let b = lemma_body_clean(v1);
            if let (Ok(x), v2) = p_body(v1) {
                lemma_path_join(v, v1, v2, a, b);
                if v2.curr is Else {
                    let v3 = adv(v2);
                    lemma_path_step(v2);
                    lemma_path_join(v, v2, v3, a + b, 1);
                    if v3.curr is If {
                        let v4 = adv(v3);
                        if below(v4, v) {
                            let d = lemma_if_clean(v4);
                            lemma_path_step(v3);
                            lemma_path_join(v, v3, v4, a + b + 1, 1);
                            if p_if(v4).0 is Ok {
                                lemma_path_join(v, v4, p_if(v4).1, a + b + 2, d);
                            }
                            a + b + 2 + d
                        } else {
                            0
                        }
                    } else if below(v3, v) {
                        let d = lemma_body_clean(v3);
                        if p_body(v3).0 is Ok {
                            lemma_path_join(v, v3, p_body(v3).1, a + b + 1, d);
                        }
                        a + b + 1 + d
                    } else {
                        0
                    }
                } else {
                    a + b
                }
            } else {
                0
            }
        } else {
            0
        }
    } else {
        0
    }
}

proof fn lemma_params_rest_clean(acc: Seq<Seq<char>>, v: LexView) -> (n: nat)
    ensures
        p_params_rest(acc, v).0 is Ok ==> clean_path(v, p_params_rest(acc, v).1, n),
    decreases lex_measure(v),
{
    if v.curr is Comma {
        let v1 = adv(v);
        lemma_lex_next_token(v1);
        let (t, v2) = lex_next(v1);
        if t is Identifier && below(v2, v) {
            let b = lemma_params_rest_clean(acc.push(t->Identifier_0), v2);
            lemma_path_step(v);
            lemma_path_step(v1);
            lemma_path_join(v, v1, v2, 1, 1);
            if p_params_rest(acc.push(t->Identifier_0), v2).0 is Ok {
                lemma_path_join(v, v2, p_params_rest(acc.push(t->Identifier_0), v2).1, 2, b);
            }
            2 + b
        } else {
            0
        }
    } else {
        assert(clean_path(v, v, 0));
        0
    }
}

proof fn lemma_params_clean(v: LexView) -> (n: nat)
    ensures
        p_params(v).0 is Ok ==> clean_path(v, p_params(v).1, n),
{
    if v.curr is Identifier {
        let a = lemma_params_rest_clean(seq![v.curr->Identifier_0], adv(v));
        lemma_path_step(v);
        if p_params(v).0 is Ok {
            lemma_path_join(v, adv(v), p_params(v).1, 1, a);
        }
        1 + a
    } else {
        assert(clean_path(v, v, 0));
        0
    }
}

proof fn lemma_func_clean(v: LexView) -> (n: nat)
    ensures
        p_func(v).0 is Ok ==> clean_path(v, p_func(v).1, n),
    decreases lex_measure(v), 19nat,
{
    lemma_lex_next_token(v);
    let (t, v1) = lex_next(v);
    let m1 = "expected opening parentheses after function name"@;
    let m2 = "expected closing parentheses"@;
    if t is Identifier {
        lemma_path_step(v);
        let a = lemma_expect_clean(v1, TokenView::LParen, m1);
        if let (Ok(_), v2) = p_expect(v1, TokenView::LParen, m1) {
            lemma_path_join(v, v1, v2, 1, a);
            let b = lemma_params_clean(v2);
            if let (Ok(ps), v3) = p_params(v2) {
                lemma_path_join(v, v2, v3, 1 + a, b);
                let c = lemma_expect_clean(v3, TokenView::RParen, m2);
                if let (Ok(_), v4) = p_expect(v3, TokenView::RParen, m2) {
                    lemma_path_join(v, v3, v4, 1 + a + b, c);
                    if below(v4, v) {
                        let d = lemma_body_clean(v4);
                        if p_body(v4).0 is Ok {
                            lemma_path_join(v, v4, p_body(v4).1, 1 + a + b + c, d);
                        }
                        1 + a + b + c + d
                    } else {
                        0
                    }
                } else {
                    0
                }
            } else {
                0
            }
        } else {
            0
        }
    } else {
        0
    }
}

proof fn lemma_program_clean(acc: Seq<StmtView>, v: LexView) -> (n: nat)
    ensures
        p_program(acc, v).0 is Ok ==> clean_path(v, p_program(acc, v).1, n) && p_program(acc, v).1.curr is EOF,
    decreases lex_measure(v),
{
    if !(v.curr is EOF) {
        let a = lemma_statement_clean(v);
        if let (Ok(x), v1) = p_statement(v) {
            if below(v1, v) {
                let b = lemma_program_clean(acc.push(x), v1);
                if p_program(acc.push(x), v1).0 is Ok {
                    lemma_path_join(v, v1, p_program(acc.push(x), v1).1, a, b);
                }
                a + b
            } else {
                0
            }
        } else {
            0
        }
    } else {
        assert(clean_path(v, v, 0));
        0
    }
}

/// The lexer's state after `k` more steps from `v`.
pub open spec fn steps(v: LexView, k: nat) -> LexView
    decreases k,
{
    if k == 0 {
        v
    } else {
        steps(adv(v), (k - 1) as nat)
    }
}

/// The token that the lexer over `src` hands out in place `k`, counting
/// from 0; `EOF` once the source is used up.
pub open spec fn token_at(src: Seq<char>, k: nat) -> TokenView {
    steps(lex_next(lex_start(src)).1, k).curr
}

proof fn lemma_steps_wf(v: LexView, k: nat)
    requires
        lex_wf(v),
    ensures
        lex_wf(steps(v, k)),
        v.curr is EOF ==> steps(v, k) == v,
    decreases k,
{
    if k > 0 {
        lemma_lex_next(v);
        lemma_steps_wf(adv(v), (k - 1) as nat);
    }
}

proof fn lemma_path_tokens(v: LexView, w: LexView, n: nat, k: nat)
    requires
        clean_path(v, w, n),
    ensures
        k < n ==> !(steps(v, k).curr is Illegal),
        k >= n ==> steps(v, k) == steps(w, (k - n) as nat),
    decreases n,
{
    if n > 0 && k > 0 {
        lemma_path_tokens(adv(v), w, (n - 1) as nat, (k - 1) as nat);
    }
}

/// A source in which the lexer hands out an `Illegal` token, anywhere, does
/// not parse: the parser accepts a program only when every token up to
/// `EOF` is one that the grammar reads.
pub proof fn law_illegal_token_refused(src: Seq<char>, k: nat)
    requires
        src.len() < usize::MAX,
        token_at(src, k) is Illegal,
    ensures
        parse_source(src) is Err,
{
    let v = lex_next(lex_start(src)).1;
    lemma_lex_next(lex_start(src));
    let n = lemma_program_clean(Seq::empty(), v);
    if parse_source(src) is Ok {
        let w = p_program(Seq::empty(), v).1;
        lemma_path_tokens(v, w, n, k);
        if k >= n {
            lemma_path_tokens(v, w, n, n);
            lemma_steps_wf(v, n);
            assert(steps(v, n) == w);
            lemma_steps_wf(w, (k - n) as nat);
        }
    }
}

/// How loosely the outermost operator of `e` binds: 4 for a comparison, 3
/// for `+` or `-`, 2 for `*` or `/`, 1 for `^`; 0 for an expression that is
/// no binary one.
pub open spec fn level(e: ExprView) -> nat {
    match e {
        ExprView::Binary(_, op, _) => if op is Equal || op is Greater || op is GreaterEqual || op is Less
            || op is LessEqual {
            4
        } else if op is Plus || op is Minus {
            3
        } else if op is Star || op is Slash {
            2
        } else if op is Caret {
            1
        } else {
            5
        },
        _ => 0,
    }
}

/// `e` is an expression of level at most `k` whose operators of level `k`
/// group to the left: if its outermost operator has level `k`, its left
/// operand has level at most `k` and its right operand a lower level.
pub open spec fn grouped(e: ExprView, k: nat) -> bool {
    &&& level(e) <= k
    &&& level(e) == k ==> (e matches ExprView::Binary(l, _, r) && level(*l) <= k && level(*r) < k)
}

proof fn lemma_call_close_is_call(name: Seq<char>, args: Seq<ExprView>, v: LexView)
    ensures
        p_call_close(name, args, v).0 matches Ok(e) ==> e is Call,
{
}

proof fn lemma_call_rest_is_call(name: Seq<char>, args: Seq<ExprView>, v: LexView)
    ensures
        p_call_rest(name, args, v).0 matches Ok(e) ==> e is Call,
    decreases lex_measure(v),
{
    if v.curr is Comma {
        let v1 = adv(v);
        if below(v1, v) {
            if let (Ok(a), v2) = p_expr(v1) {
                if below(v2, v) {
                    lemma_call_rest_is_call(name, args.push(a), v2);
                }
            }
        }
    }
}

proof fn lemma_call_is_call(name: Seq<char>, v: LexView)
    ensures
        p_call(name, v).0 matches Ok(e) ==> e is Call,
{
    if !(v.curr is RParen) {
        if let (Ok(a), v1) = p_expr(v) {
            if within(v1, v) {
                lemma_call_rest_is_call(name, seq![a], v1);
            }
        }
    }
}

proof fn lemma_unary_level(v: LexView)
    ensures
        p_unary(v).0 matches Ok(e) ==> level(e) == 0,
{
    let w = if v.curr is Plus || v.curr is Minus { lex_next(v).1 } else { v };
    let (t, w1) = lex_next(w);
    if let TokenView::Identifier(name) = t {
        lemma_call_is_call(name, adv(w1));
    }
}

proof fn lemma_exponent_grouped(v: LexView)
    ensures
        p_exponent(v).0 matches Ok(e) ==> grouped(e, 1),
{
    lemma_unary_level(v);
    if let (Ok(l), v1) = p_unary(v) {
        if v1.curr is Caret {
            lemma_lex_next_token(v1);
            lemma_unary_level(lex_next(v1).1);
        }
    }
}

proof fn lemma_factor_rest_grouped(e: ExprView, v: LexView)
    requires
        grouped(e, 2),
    ensures
        p_factor_rest(e, v) matches (Ok(x), w) ==> grouped(x, 2) && !(w.curr is Star) && !(w.curr is Slash),
    decreases lex_measure(v),
{
    if is_factor_op(v.curr) {
        lemma_lex_next_token(v);
        let (op, v1) = lex_next(v);
        if below(v1, v) {
            lemma_exponent_grouped(v1);
            if let (Ok(r), v2) = p_exponent(v1) {
                if below(v2, v) {
                    lemma_factor_rest_grouped(ExprView::Binary(Box::new(e), op, Box::new(r)), v2);
                }
            }
        }
    }
}

proof fn lemma_factor_grouped(v: LexView)
    ensures
        p_factor(v) matches (Ok(x), w) ==> grouped(x, 2) && !(w.curr is Star) && !(w.curr is Slash),
{
    lemma_exponent_grouped(v);
    if let (Ok(e), v1) = p_exponent(v) {
        if within(v1, v) {
            lemma_factor_rest_grouped(e, v1);
        }
    }
}

proof fn lemma_term_rest_grouped(e: ExprView, v: LexView)
    requires
        grouped(e, 3),
    ensures
        p_term_rest(e, v) matches (Ok(x), w) ==> grouped(x, 3) && !(w.curr is Plus) && !(w.curr is Minus),
    decreases lex_measure(v),
{
    if is_term_op(v.curr) {
        lemma_lex_next_token(v);
        let (op, v1) = lex_next(v);
        if below(v1, v) {
            lemma_factor_grouped(v1);
            if let (Ok(r), v2) = p_factor(v1) {
                if below(v2, v) {
                    lemma_term_rest_grouped(ExprView::Binary(Box::new(e), op, Box::new(r)), v2);
                }
            }
        }
    }
}

proof fn lemma_term_grouped(v: LexView)
    ensures
        p_term(v) matches (Ok(x), w) ==> grouped(x, 3) && !(w.curr is Plus) && !(w.curr is Minus),
{
    lemma_factor_grouped(v);
    if let (Ok(e), v1) = p_factor(v) {
        if within(v1, v) {
            lemma_term_rest_grouped(e, v1);
        }
    }
}

proof fn lemma_comparison_rest_grouped(e: ExprView, v: LexView)
    requires
        grouped(e, 4),
    ensures
        p_comparison_rest(e, v) matches (Ok(x), w) ==> grouped(x, 4) && !(w.curr is Equal) && !(w.curr is Greater)
            && !(w.curr is GreaterEqual) && !(w.curr is Less) && !(w.curr is LessEqual),
    decreases lex_measure(v),
{
    if is_comparison_op(v.curr) {
        lemma_lex_next_token(v);
        let (op, v1) = lex_next(v);
        if below(v1, v) {
            lemma_term_grouped(v1);
            if let (Ok(r), v2) = p_term(v1) {
                if below(v2, v) {
                    lemma_comparison_rest_grouped(ExprView::Binary(Box::new(e), op, Box::new(r)), v2);
                }
            }
        }
    }
}

/// Chains of operators are read whole and grouped to the left, each level
/// binding tighter than the next: a factor takes every `*` or `/` that
/// follows (no `*` or `/` comes right after it), a term every `+` or `-`, a
/// comparison every comparison operator; and in each, an operator of the
/// level's own kind has a left operand of at most that level and a right
/// operand of a tighter one, so `2 * 3 * 4` is `(2 * 3) * 4` and
/// `1 + 2 * 3` is `1 + (2 * 3)`.
pub proof fn law_operator_chains_group_left(v: LexView)
    ensures
        p_exponent(v).0 matches Ok(x) ==> grouped(x, 1),
        p_factor(v) matches (Ok(x), w) ==> grouped(x, 2) && !(w.curr is Star) && !(w.curr is Slash),
        p_term(v) matches (Ok(x), w) ==> grouped(x, 3) && !(w.curr is Plus) && !(w.curr is Minus),
        p_expr(v) matches (Ok(x), w) ==> grouped(x, 4) && !(w.curr is Equal) && !(w.curr is Greater) && !(
        w.curr is GreaterEqual) && !(w.curr is Less) && !(w.curr is LessEqual),
{
    lemma_exponent_grouped(v);
    lemma_factor_grouped(v);
    lemma_term_grouped(v);
    if let (Ok(e), v1) = p_term(v) {
        if within(v1, v) {
            lemma_comparison_rest_grouped(e, v1);
        }
    }
}

/// The value of a parsing result.
pub open spec fn res_view<T: View>(r: Result<T, Error>) -> Result<T::V, ErrorView> {
    match r {
        Ok(x) => Ok(x@),
        Err(e) => Err(e@),
    }
}

/// The value of a parsed program.
pub open spec fn program_view(r: Result<Vec<Stmt>, Error>) -> Result<Seq<StmtView>, ErrorView> {
    match r {
        Ok(x) => Ok(stmts_view(x@)),
        Err(e) => Err(e@),
    }
}

/// The value of parsed parameters.
pub open spec fn params_view(r: Result<Vec<String>, Error>) -> Result<Seq<Seq<char>>, ErrorView> {
    match r {
        Ok(x) => Ok(names_view(x@)),
        Err(e) => Err(e@),
    }
}

/// A recursive-descent parser over a lexer.
pub struct Parser {
    tokens: Lexer,
}

impl View for Parser {
    type V = LexView;

    closed spec fn view(&self) -> LexView {
        self.tokens@
    }
}

impl Parser {
    /// A parser that reads the tokens of `l`.
    pub fn new(l: Lexer) -> (p: Parser)
        requires
            l.wf(),
        ensures
            p.wf(),
            p@ == l@,
    {
        Parser { tokens: l }
    }

    /// The lexer is in a state that it can reach.
    pub open spec fn wf(&self) -> bool {
        lex_wf(self@)
    }

    fn err(&self, msg: String) -> (e: Error)
        ensures
            e@ == perr(self@, msg@),
    {
        let (line, col) = self.tokens.pos();
        Error { line: line, col: col, msg: msg }
    }

    fn check(&self, t: &Token) -> (b: bool)
        ensures
            b == (self@.curr == t@),
    {
        same_token(self.tokens.current(), t)
    }

    fn advance(&mut self) -> (t: Token)
        requires
            old(self).wf(),
        ensures
            final(self).wf(),
            (t@, final(self)@) == lex_next(old(self)@),
            t@ == old(self)@.curr,
            final(self)@ == adv(old(self)@),
            within(final(self)@, old(self)@),
            !(old(self)@.curr is EOF) ==> below(final(self)@, old(self)@),
    {
        proof {
            lemma_lex_next(self@);
        }
        self.tokens.next()
    }

    fn consumed(&mut self, t: Token) -> (b: bool)
        requires
            old(self).wf(),
            !(t is EOF),
        ensures
            final(self).wf(),
            b == (old(self)@.curr == t@),
            b ==> final(self)@ == adv(old(self)@) && below(final(self)@, old(self)@),
            !b ==> final(self)@ == old(self)@,
    {
        if self.check(&t) {
            self.advance();
            true
        } else {
            false
        }
    }

    fn expect(&mut self, t: Token, msg: &str) -> (r: Result<(), Error>)
        requires
            old(self).wf(),
            !(t is EOF),
        ensures
            final(self).wf(),
            (res_view(r), final(self)@) == p_expect(old(self)@, t@, msg@),
            within(final(self)@, old(self)@),
            r is Ok ==> below(final(self)@, old(self)@),
    {
        if self.consumed(t) {
            Ok(())
        } else {
            Err(self.err(msg.to_string()))
        }
    }

    fn literal(&mut self) -> (r: Result<Expr, Error>)
        requires
            old(self).wf(),
        ensures
            final(self).wf(),
            (res_view(r), final(self)@) == p_literal(old(self)@),
            within(final(self)@, old(self)@),
            r is Ok ==> below(final(self)@, old(self)@),
        decreases lex_measure(old(self)@), 1nat,
    {
        let t = self.advance();
        match t {
            Token::Number(s) => Ok(Expr::Number(s)),
            Token::True => Ok(Expr::Bool(true)),
            Token::False => Ok(Expr::Bool(false)),
            Token::LParen => {
                let e = self.expr()?;
                self.expect(Token::RParen, "expected closing parentheses")?;
                Ok(Expr::Group(Rc::new(e)))
            },
            Token::Identifier(name) => {
                if self.consumed(Token::LParen) {
                    self.call(name)
                } else {
                    Ok(Expr::Var(name))
                }
            },
            tok => {
                let mut m = "expected literal got ".to_string();
                let d = tok.debug_text();
                m.append(d.as_str());
                Err(self.err(m))
            },
        }
    }

    fn unary(&mut self) -> (r: Result<Expr, Error>)
        requires
            old(self).wf(),
        ensures
            final(self).wf(),
            (res_view(r), final(self)@) == p_unary(old(self)@),
            within(final(self)@, old(self)@),
            r is Ok ==> below(final(self)@, old(self)@),
        decreases lex_measure(old(self)@), 2nat,
    {
        if self.check(&Token::Plus) || self.check(&Token::Minus) {
            let op = self.advance();
            let right = self.literal()?;
            Ok(Expr::Unary(op, Rc::new(right)))
        } else {
            self.literal()
        }
    }

    fn exponent(&mut self) -> (r: Result<Expr, Error>)
        requires
            old(self).wf(),
        ensures
            final(self).wf(),
            (res_view(r), final(self)@) == p_exponent(old(self)@),
            within(final(self)@, old(self)@),
            r is Ok ==> below(final(self)@, old(self)@),
        decreases lex_measure(old(self)@), 3nat,
    {
        let left = self.unary()?;
        if self.check(&Token::Caret) {
            let op = self.advance();
            let right = self.unary()?;
            Ok(Expr::Binary(Rc::new(left), op, Rc::new(right)))
        } else {
            Ok(left)
        }
    }

    fn factor(&mut self) -> (r: Result<Expr, Error>)
        requires
            old(self).wf(),
        ensures
            final(self).wf(),
            (res_view(r), final(self)@) == p_factor(old(self)@),
            within(final(self)@, old(self)@),
            r is Ok ==> below(final(self)@, old(self)@),
        decreases lex_measure(old(self)@), 5nat,
    {
        let ghost v = self@;
        let mut e = self.exponent()?;
        while self.check(&Token::Star) || self.check(&Token::Slash)
            invariant
                self.wf(),
                p_factor(v) == p_factor_rest(e@, self@),
                below(self@, v),
                v == old(self)@,
            decreases lex_measure(self@),
        {
            let op = self.advance();
            let right = self.exponent()?;
            e = Expr::Binary(Rc::new(e), op, Rc::new(right));
        }
        Ok(e)
    }

    fn term(&mut self) -> (r: Result<Expr, Error>)
        requires
            old(self).wf(),
        ensures
            final(self).wf(),
            (res_view(r), final(self)@) == p_term(old(self)@),
            within(final(self)@, old(self)@),
            r is Ok ==> below(final(self)@, old(self)@),
        decreases lex_measure(old(self)@), 7nat,
    {
        let ghost v = self@;
        let mut e = self.factor()?;
        while self.check(&Token::Plus) || self.check(&Token::Minus)
            invariant
                self.wf(),
                p_term(v) == p_term_rest(e@, self@),
                below(self@, v),
                v == old(self)@,
            decreases lex_measure(self@),
        {
            let op = self.advance();
            let right = self.factor()?;
            e = Expr::Binary(Rc::new(e), op, Rc::new(right));
        }
        Ok(e)
    }

    fn comparison(&mut self) -> (r: Result<Expr, Error>)
        requires
            old(self).wf(),
        ensures
            final(self).wf(),
            (res_view(r), final(self)@) == p_comparison(old(self)@),
            within(final(self)@, old(self)@),
            r is Ok ==> below(final(self)@, old(self)@),
        decreases lex_measure(old(self)@), 9nat,
    {
        let ghost v = self@;
        let mut e = self.term()?;
        while self.check(&Token::Equal) || self.check(&Token::Greater) || self.check(
            &Token::GreaterEqual,
        ) || self.check(&Token::Less) || self.check(&Token::LessEqual)
            invariant
                self.wf(),
                p_comparison(v) == p_comparison_rest(e@, self@),
                below(self@, v),
                v == old(self)@,
            decreases lex_measure(self@),
        {
            let op = self.advance();
            let right = self.term()?;
            e = Expr::Binary(Rc::new(e), op, Rc::new(right));
        }
        Ok(e)
    }

    fn expr(&mut self) -> (r: Result<Expr, Error>)
        requires
            old(self).wf(),
        ensures
            final(self).wf(),
            (res_view(r), final(self)@) == p_expr(old(self)@),
            within(final(self)@, old(self)@),
            r is Ok ==> below(final(self)@, old(self)@),
        decreases lex_measure(old(self)@), 10nat,
    {
        self.comparison()
    }

    #[verifier::spinoff_prover]
    fn call(&mut self, func_name: String) -> (r: Result<Expr, Error>)
        requires
            old(self).wf(),
        ensures
            final(self).wf(),
            (res_view(r), final(self)@) == p_call(func_name@, old(self)@),
            within(final(self)@, old(self)@),
            r is Ok ==> below(final(self)@, old(self)@),
        decreases lex_measure(old(self)@), 12nat,
    {
        let ghost v = self@;
        let mut args: Vec<Expr> = Vec::new();
        if !self.check(&Token::RParen) {
            let arg = self.expr()?;
            proof {
                lemma_exprs_view_push(args@, arg);
            }
            args.push(arg);
            assert(exprs_view(args@) == seq![arg@]);
            while self.check(&Token::Comma)
                invariant
                    self.wf(),
                    p_call(func_name@, v) == p_call_rest(func_name@, exprs_view(args@), self@),
                    within(self@, v),
                    v == old(self)@,
                decreases lex_measure(self@),
            {
                self.advance();
                let arg = self.expr()?;
                proof {
                    lemma_exprs_view_push(args@, arg);
                }
                args.push(arg);
            }
        } else {
            assert(exprs_view(args@) == Seq::<ExprView>::empty());
        }
        self.expect(Token::RParen, "missing closing parentheses")?;
        Ok(Expr::Call(func_name, args))
    }

    fn terminated(&mut self) -> (r: Result<Expr, Error>)
        requires
            old(self).wf(),
        ensures
            final(self).wf(),
            (res_view(r), final(self)@) == p_terminated(old(self)@),
            within(final(self)@, old(self)@),
            r is Ok ==> below(final(self)@, old(self)@),
        decreases lex_measure(old(self)@), 13nat,
    {
        let e = self.expr()?;
        self.expect(Token::Semicolon, "missing semicolon")?;
        Ok(e)
    }

    fn expression(&mut self) -> (r: Result<Stmt, Error>)
        requires
            old(self).wf(),
        ensures
            final(self).wf(),
            (res_view(r), final(self)@) == p_simple(0, old(self)@),
            within(final(self)@, old(self)@),
            r is Ok ==> below(final(self)@, old(self)@),
        decreases lex_measure(old(self)@), 14nat,
    {
        let e = self.terminated()?;
        Ok(Stmt::Expression(e))
    }

    fn assign(&mut self, var_name: String) -> (r: Result<Stmt, Error>)
        requires
            old(self).wf(),
        ensures
            final(self).wf(),
            (res_view(r), final(self)@) == (match p_terminated(old(self)@) {
                (Ok(e), v1) => (Ok(StmtView::Assign(var_name@, e)), v1),
                (Err(er), v1) => (Err(er), v1),
            }),
            within(final(self)@, old(self)@),
            r is Ok ==> below(final(self)@, old(self)@),
        decreases lex_measure(old(self)@), 14nat,
    {
        let e = self.terminated()?;
        Ok(Stmt::Assign(var_name, e))
    }

    fn return_stmt(&mut self) -> (r: Result<Stmt, Error>)
        requires
            old(self).wf(),
        ensures
            final(self).wf(),
            (res_view(r), final(self)@) == p_simple(2, old(self)@),
            within(final(self)@, old(self)@),
            r is Ok ==> below(final(self)@, old(self)@),
        decreases lex_measure(old(self)@), 14nat,
    {
        let e = self.terminated()?;
        Ok(Stmt::Return(e))
    }

    fn print_stmt(&mut self) -> (r: Result<Stmt, Error>)
        requires
            old(self).wf(),
        ensures
            final(self).wf(),
            (res_view(r), final(self)@) == p_simple(1, old(self)@),
            within(final(self)@, old(self)@),
            r is Ok ==> below(final(self)@, old(self)@),
        decreases lex_measure(old(self)@), 14nat,
    {
        let e = self.terminated()?;
        Ok(Stmt::Print(e))
    }

    fn body(&mut self) -> (r: Result<Stmt, Error>)
        requires
            old(self).wf(),
        ensures
            final(self).wf(),
            (res_view(r), final(self)@) == p_body(old(self)@),
            within(final(self)@, old(self)@),
            r is Ok ==> below(final(self)@, old(self)@),
        decreases lex_measure(old(self)@), 18nat,
    {
        let ghost v = self@;
        self.expect(Token::LBracket, "missing opening brace for if statement")?;
        let mut body: Vec<Stmt> = Vec::new();
        assert(stmts_view(body@) == Seq::<StmtView>::empty());
        while !self.check(&Token::RBracket) && !self.check(&Token::EOF)
            invariant
                self.wf(),
                p_body(v) == p_body_rest(stmts_view(body@), self@),
                below(self@, v),
                v == old(self)@,
            decreases lex_measure(self@),
        {
            let stmt = self.statement()?;
            if let Stmt::Func(_, _, _) = stmt {
                return Err(self.err("function definitions musn't be nested".to_string()));
            }
            proof {
                lemma_stmts_view_push(body@, stmt);
            }
            body.push(stmt);
        }
        self.expect(Token::RBracket, "missing closing brace")?;
        Ok(Stmt::Body(body))
    }

    fn if_stmt(&mut self) -> (r: Result<Stmt, Error>)
        requires
            old(self).wf(),
        ensures
            final(self).wf(),
            (res_view(r), final(self)@) == p_if(old(self)@),
            within(final(self)@, old(self)@),
            r is Ok ==> below(final(self)@, old(self)@),
        decreases lex_measure(old(self)@), 19nat,
    {
        let condition = self.expr()?;
        let body = self.body()?;
        let else_body = if self.consumed(Token::Else) {
            if self.consumed(Token::If) {
                Some(Rc::new(self.if_stmt()?))
            } else {
                Some(Rc::new(self.body()?))
            }
        } else {
            None
        };
        Ok(Stmt::If(condition, Rc::new(body), else_body))
    }

    fn params(&mut self) -> (r: Result<Vec<String>, Error>)
        requires
            old(self).wf(),
        ensures
            final(self).wf(),
            (params_view(r), final(self)@) == p_params(old(self)@),
            within(final(self)@, old(self)@),
    {
        let ghost v = self@;
        let mut args: Vec<String> = Vec::new();
        if let Token::Identifier(arg) = self.tokens.peek() {
            self.advance();
            proof {
                lemma_names_view_push(args@, arg);
            }
            args.push(arg);
            assert(names_view(args@) =~= seq![v.curr->Identifier_0]);
            while self.check(&Token::Comma)
                invariant
                    self.wf(),
                    p_params(v) == p_params_rest(names_view(args@), self@),
                    within(self@, v),
                    v == old(self)@,
                decreases lex_measure(self@),
            {
                self.advance();
                let t = self.advance();
                match t {
                    Token::Identifier(var) => {
                        proof {
                            lemma_names_view_push(args@, var);
                        }
                        args.push(var);
                    },
                    _ => {
                        return Err(self.err("expected variable in function definition".to_string()));
                    },
                }
            }
        } else {
            assert(names_view(args@) =~= Seq::<Seq<char>>::empty());
        }
        Ok(args)
    }

    fn func(&mut self) -> (r: Result<Stmt, Error>)
        requires
            old(self).wf(),
        ensures
            final(self).wf(),
            (res_view(r), final(self)@) == p_func(old(self)@),
            within(final(self)@, old(self)@),
            r is Ok ==> below(final(self)@, old(self)@),
        decreases lex_measure(old(self)@), 19nat,
    {
        let func_name = match self.advance() {
            Token::Identifier(name) => name,
            _ => {
                return Err(self.err("need function name in declaration".to_string()));
            },
        };
        self.expect(Token::LParen, "expected opening parentheses after function name")?;
        let args = self.params()?;
        self.expect(Token::RParen, "expected closing parentheses")?;
        let body = self.body()?;
        Ok(Stmt::Func(func_name, args, Rc::new(body)))
    }

    fn ident_statement(&mut self) -> (r: Result<Stmt, Error>)
        requires
            old(self).wf(),
            old(self)@.curr is Identifier,
        ensures
            final(self).wf(),
            (res_view(r), final(self)@) == p_ident_stmt(old(self)@),
            within(final(self)@, old(self)@),
            r is Ok ==> below(final(self)@, old(self)@),
        decreases lex_measure(old(self)@), 15nat,
    {
        let second = self.tokens.peek_second();
        if let Token::Assign = second {
            let t = self.advance();
            let name = match t {
                Token::Identifier(name) => name,
                _ => String::new(),
            };
            self.advance();
            self.assign(name)
        } else {
            self.expression()
        }
    }

    #[verifier::spinoff_prover]
    #[verifier::rlimit(60)]
    fn keyword_statement(&mut self) -> (r: Result<Stmt, Error>)
        requires
            old(self).wf(),
            old(self)@.curr is If || old(self)@.curr is Return || old(self)@.curr is Print
                || old(self)@.curr is Func,
        ensures
            final(self).wf(),
            (res_view(r), final(self)@) == p_keyword_stmt(old(self)@),
            within(final(self)@, old(self)@),
            r is Ok ==> below(final(self)@, old(self)@),
        decreases lex_measure(old(self)@), 15nat,
    {
        let ghost v = self@;
        if self.check(&Token::If) {
            self.advance();
            assert(p_keyword_stmt(v) == p_if(self@));
            self.if_stmt()
        } else if self.check(&Token::Return) {
            self.advance();
            assert(p_keyword_stmt(v) == p_simple(2, self@));
            self.return_stmt()
        } else if self.check(&Token::Print) {
            self.advance();
            assert(p_keyword_stmt(v) == p_simple(1, self@));
            self.print_stmt()
        } else {
            self.advance();
            assert(p_keyword_stmt(v) == p_func(self@));
            self.func()
        }
    }

    #[verifier::spinoff_prover]
    #[verifier::rlimit(60)]
    fn statement(&mut self) -> (r: Result<Stmt, Error>)
        requires
            old(self).wf(),
        ensures
            final(self).wf(),
            (res_view(r), final(self)@) == p_statement(old(self)@),
            within(final(self)@, old(self)@),
            r is Ok ==> below(final(self)@, old(self)@),
        decreases lex_measure(old(self)@), 16nat,
    {
        let t = self.tokens.current();
        match t {
            Token::Number(_) | Token::LParen => self.expression(),
            Token::Identifier(_) => self.ident_statement(),
            Token::If | Token::Return | Token::Print | Token::Func => self.keyword_statement(),
            _ => {
                let mut m = "unexpected token ".to_string();
                let d = t.debug_text();
                m.append(d.as_str());
                Err(self.err(m))
            },
        }
    }

    /// Parses the statements up to the end of the source.
    pub fn parse(&mut self) -> (r: Result<Vec<Stmt>, Error>)
        requires
            old(self).wf(),
        ensures
            final(self).wf(),
            (program_view(r), final(self)@) == p_program(Seq::empty(), old(self)@),
            r is Ok ==> final(self)@.curr is EOF && final(self)@.index == final(self)@.chars.len(),
    {
        let ghost v = self@;
        let mut stmts: Vec<Stmt> = Vec::new();
        assert(stmts_view(stmts@) == Seq::<StmtView>::empty());
        while !self.check(&Token::EOF)
            invariant
                self.wf(),
                p_program(Seq::empty(), v) == p_program(stmts_view(stmts@), self@),
                v == old(self)@,
            decreases lex_measure(self@),
        {
            let stmt = self.statement()?;
            proof {
                lemma_stmts_view_push(stmts@, stmt);
            }
            stmts.push(stmt);
        }
        Ok(stmts)
    }
}

/// Parses the program in `src`.
pub fn parse_program(src: &str) -> (r: Result<Vec<Stmt>, Error>)
    requires
        src@.len() < usize::MAX,
    ensures
        program_view(r) == parse_source(src@),
{
    let lexer = Lexer::new(src);
    let mut parser = Parser::new(lexer);
    parser.parse()
}

} // verus!
