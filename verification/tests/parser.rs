use mat::parser::{parse_program, Parser};
use mat::lexer::Lexer;

fn parsed(src: &str) -> String {
    format!("{:?}", parse_program(src).ok().unwrap())
}

fn error(src: &str) -> String {
    parse_program(src).err().unwrap().message()
}

#[test]
fn precedence_of_operators() {
    assert_eq!(
        parsed("print 1 + 2 * 3;"),
        "[Print(Binary(Number(\"1\"), Plus, Binary(Number(\"2\"), Star, Number(\"3\"))))]"
    );
}

#[test]
fn operators_group_to_the_left() {
    assert_eq!(
        parsed("x = 1 - 2 - 3;"),
        "[Assign(\"x\", Binary(Binary(Number(\"1\"), Minus, Number(\"2\")), Minus, Number(\"3\")))]"
    );
}

#[test]
fn power_takes_one_right_operand() {
    assert_eq!(
        parsed("print 2 ^ 3 * 4;"),
        "[Print(Binary(Binary(Number(\"2\"), Caret, Number(\"3\")), Star, Number(\"4\")))]"
    );
}

#[test]
fn calls_groups_and_unary() {
    assert_eq!(
        parsed("print f(1, -(x), true);"),
        "[Print(Call(\"f\", [Number(\"1\"), Unary(Minus, Group(Var(\"x\"))), Bool(true)]))]"
    );
}

#[test]
fn function_and_if_else_if() {
    assert_eq!(
        parsed("fn f(a, b) { if a < b { return a; } else if a == b { return 0; } else { return b; } }"),
        "[Func(\"f\", [\"a\", \"b\"], Body([If(Binary(Var(\"a\"), Less, Var(\"b\")), Body([Return(Var(\"a\"))]), Some(If(Binary(Var(\"a\"), Equal, Var(\"b\")), Body([Return(Number(\"0\"))]), Some(Body([Return(Var(\"b\"))])))))]))]"
    );
}

#[test]
fn expression_statement_starting_with_a_call() {
    assert_eq!(
        parsed("f(1, 2);"),
        "[Expression(Call(\"f\", [Number(\"1\"), Number(\"2\")]))]"
    );
    assert_eq!(parsed("f(1);"), "[Expression(Call(\"f\", [Number(\"1\")]))]");
}

#[test]
fn expression_statement_starting_with_a_variable() {
    assert_eq!(
        parsed("x + 1;"),
        "[Expression(Binary(Var(\"x\"), Plus, Number(\"1\")))]"
    );
    assert_eq!(
        parsed("x = y;"),
        "[Assign(\"x\", Var(\"y\"))]"
    );
}

#[test]
fn missing_semicolon() {
    assert_eq!(error("print 1"), "parser error: line 1, col 8: missing semicolon");
}

#[test]
fn unexpected_token() {
    assert_eq!(error("- 5;"), "parser error: line 1, col 2: unexpected token Minus");
}

#[test]
fn expected_literal() {
    assert_eq!(error("x = ;"), "parser error: line 1, col 6: expected literal got Semicolon");
}

#[test]
fn nested_function_is_refused() {
    assert_eq!(
        error("fn f() { fn g() { } }"),
        "parser error: line 1, col 22: function definitions musn't be nested"
    );
}

#[test]
fn function_needs_a_name() {
    assert_eq!(error("fn 1() {}"), "parser error: line 1, col 6: need function name in declaration");
}

#[test]
fn else_needs_a_brace() {
    let e = parse_program("if x { print 1; } else print 2;").err().unwrap();
    assert_eq!(e.msg(), "missing opening brace for if statement");
}

#[test]
fn parser_over_a_lexer() {
    let mut p = Parser::new(Lexer::new("a = 1;\nprint a;"));
    let stmts = p.parse().ok().unwrap();
    assert_eq!(stmts.len(), 2);
}

#[test]
fn error_position_on_a_later_line() {
    let e = parse_program("a = 1;\nprint (2;").err().unwrap();
    assert_eq!((e.line(), e.col()), (2, 10));
    assert_eq!(e.msg(), "expected closing parentheses");
}

#[test]
fn an_illegal_character_is_never_parsed() {
    assert!(parse_program("x = 1 $ 2;").is_err());
    assert!(parse_program("print 1; $").is_err());
    assert!(parse_program("fn f() { return 1; } #").is_err());
    assert!(parse_program("print 1;").is_ok());
}
