use mat::parser::parse_program;
use mat::runtime::{fits, Answers, Arith, Error, Object, Outcome, Query, Runtime};
use mat::table::Table;

fn answer(q: &Query) -> Object {
    match q {
        Query::Literal(text) => Object::Number(text.parse::<f64>().unwrap().to_bits()),
        Query::Binary(k, a, b) => {
            let x = f64::from_bits(*a);
            let y = f64::from_bits(*b);
            match k {
                Arith::Add => Object::Number((x + y).to_bits()),
                Arith::Subtract => Object::Number((x - y).to_bits()),
                Arith::Multiply => Object::Number((x * y).to_bits()),
                Arith::Divide => Object::Number((x / y).to_bits()),
                Arith::Power => Object::Number(x.powf(y).to_bits()),
                Arith::Less => Object::Bool(x < y),
                Arith::LessEqual => Object::Bool(x <= y),
                Arith::Equal => Object::Bool(x == y),
                Arith::Greater => Object::Bool(x > y),
                Arith::GreaterEqual => Object::Bool(x >= y),
            }
        }
        Query::Negate(a) => Object::Number((-f64::from_bits(*a)).to_bits()),
        Query::IsZero(a) => Object::Bool(f64::from_bits(*a) == 0.0),
    }
}

fn show(o: &Object) -> String {
    match o {
        Object::Number(bits) => format!("{}", f64::from_bits(*bits)),
        Object::Bool(v) => format!("{}", v),
    }
}

/// Runs a program, answering its queries and giving it more depth when it
/// needs it, and gives what it printed and the runtime error it ended with.
fn run(src: &str) -> (Vec<String>, Option<String>) {
    let stmts = parse_program(src).ok().unwrap();
    let mut answers = Answers::new();
    let mut depth: usize = 16;
    loop {
        let mut rt = Runtime::new();
        match rt.eval(&stmts, &answers, depth) {
            Outcome::Need(q) => {
                let a = answer(&q);
                answers.add(q, a);
            }
            Outcome::TooDeep => depth *= 2,
            Outcome::Done(res) => {
                let out = rt.output().iter().map(show).collect();
                return (out, res.err().map(|e| e.message()));
            }
        }
    }
}

fn printed(src: &str) -> Vec<String> {
    let (out, err) = run(src);
    assert_eq!(err, None);
    out
}

fn failure(src: &str) -> String {
    run(src).1.unwrap()
}

#[test]
fn arithmetic() {
    assert_eq!(printed("print 1 + 2 * 3; print 2 ^ 10; print 7 / 2; print - (2);"), vec!["7", "1024", "3.5", "-2"]);
}

#[test]
fn comparisons_and_truth_values() {
    assert_eq!(
        printed("print 3 > 2; print 2 >= 3; print 1 == 1; print true == false; print 1 <= 1; print 0 < -1;"),
        vec!["true", "false", "true", "false", "true", "false"]
    );
}

#[test]
fn recursion() {
    assert_eq!(
        printed("fn f(n) { if n < 2 { return n; } return f(n - 1) + f(n - 2); } print f(10);"),
        vec!["55"]
    );
}

#[test]
fn variables_and_scopes() {
    assert_eq!(
        printed("x = 1; fn g(x) { x = x + 10; return x; } print g(5); print x;"),
        vec!["15", "1"]
    );
}

#[test]
fn globals_are_visible_in_functions() {
    assert_eq!(printed("y = 4; fn h() { return y * 2; } print h();"), vec!["8"]);
}

#[test]
fn division_by_zero() {
    assert_eq!(run("print 1; print 1 / 0; print 2;"), (vec!["1".to_string()], Some("runtime error: division by zero".to_string())));
}

#[test]
fn return_at_global_scope() {
    assert_eq!(failure("return 1;"), "runtime error: can't return from global scope");
}

#[test]
fn unknown_variable() {
    assert_eq!(failure("print y;"), "runtime error: variable 'y' not found");
}

#[test]
fn wrong_number_of_arguments() {
    assert_eq!(
        failure("fn f(a) { return a; } print f(1, 2);"),
        "runtime error: function 'f' expects 1 arg(s) but got 2 arg(s)"
    );
}

#[test]
fn unknown_function() {
    assert_eq!(failure("print g();"), "runtime error: function 'g' doesn't exist");
}

#[test]
fn function_without_return() {
    assert_eq!(failure("fn f() { x = 1; } print f();"), "runtime error: function 'f' doesn't return a value");
}

#[test]
fn redefinition() {
    assert_eq!(
        failure("fn f() { return 1; } fn f() { return 2; }"),
        "runtime error: redefinition of function 'f'"
    );
}

#[test]
fn error_in_an_if_branch_is_dropped() {
    assert_eq!(printed("fn f() { return 1 / 0; } if true { print f(); } print 7;"), vec!["7"]);
}

#[test]
fn condition_must_be_a_truth_value() {
    assert_eq!(failure("if 1 { print 1; }"), "runtime error: invalid expression for if statement");
}

#[test]
fn invalid_operands() {
    assert_eq!(failure("print 1 == true;"), "runtime error: invalid binary operands");
    assert_eq!(failure("print - true;"), "runtime error: invalid unary operands");
}

#[test]
fn else_branches() {
    assert_eq!(
        printed("fn s(n) { if n < 0 { return -1; } else if n == 0 { return 0; } else { return 1; } } print s(-5); print s(0); print s(3);"),
        vec!["-1", "0", "1"]
    );
}

#[test]
fn deep_recursion_is_computed() {
    assert_eq!(
        printed("fn sum(n) { if n == 0 { return 0; } return n + sum(n - 1); } print sum(600);"),
        vec!["180300"]
    );
}

/// Runs a program with a fixed depth, answering its queries.
fn outcome_with_depth(src: &str, depth: usize) -> Outcome {
    let stmts = parse_program(src).ok().unwrap();
    let mut answers = Answers::new();
    loop {
        let mut rt = Runtime::new();
        match rt.eval(&stmts, &answers, depth) {
            Outcome::Need(q) => {
                let a = answer(&q);
                answers.add(q, a);
            }
            o => return o,
        }
    }
}

#[test]
fn depth_bounds_a_run() {
    let src = "fn f(n) { if n == 0 { return 0; } return f(n - 1); } print f(3);";
    assert!(matches!(outcome_with_depth(src, 3), Outcome::TooDeep));
    assert!(matches!(outcome_with_depth(src, 4), Outcome::Done(Ok(()))));
    assert!(matches!(outcome_with_depth("fn g() { return g(); } print g();", 50), Outcome::TooDeep));
}

#[test]
fn depth_stop_is_not_swallowed_by_an_if() {
    let src = "fn f(n) { if true { return f(n); } return 1; } print f(1);";
    assert!(matches!(outcome_with_depth(src, 8), Outcome::TooDeep));
}

#[test]
fn needs_the_literal_first() {
    let stmts = parse_program("print 2;").ok().unwrap();
    let answers = Answers::new();
    let mut rt = Runtime::new();
    match rt.eval(&stmts, &answers, 0) {
        Outcome::Need(Query::Literal(t)) => assert_eq!(t, "2"),
        _ => panic!("expected a query for the literal"),
    }
}

#[test]
fn answers_use_the_first_entry() {
    let mut a = Answers::new();
    a.add(Query::Negate(3), Object::Number(1));
    a.add(Query::Negate(3), Object::Number(2));
    assert_eq!(a.lookup(&Query::Negate(3)), Some(Object::Number(1)));
    assert_eq!(a.lookup(&Query::IsZero(3)), None);
}

#[test]
fn error_message_text() {
    assert_eq!(Error::new("boom".to_string()).message(), "runtime error: boom");
}

#[test]
fn more_answers_leave_a_finished_run_unchanged() {
    let src = "fn sq(n) { return n * n; } print sq(3) + 1;";
    let stmts = parse_program(src).ok().unwrap();
    let mut answers = Answers::new();
    let first = loop {
        let mut rt = Runtime::new();
        match rt.eval(&stmts, &answers, 4) {
            Outcome::Need(q) => {
                let a = answer(&q);
                answers.add(q, a);
            }
            Outcome::Done(res) => break (rt.output().clone(), res.is_ok()),
            Outcome::TooDeep => panic!("one call needs no more than four levels"),
        }
    };
    answers.add(Query::Negate(7), Object::Number(0));
    answers.add(Query::Literal("3".to_string()), Object::Number(0));
    let mut rt = Runtime::new();
    match rt.eval(&stmts, &answers, 4) {
        Outcome::Done(res) => assert_eq!((rt.output().clone(), res.is_ok()), first),
        _ => panic!("a finished run must stay finished"),
    }
    assert_eq!(first.0.len(), 1);
    assert_eq!(show(&first.0[0]), "10");
}

#[test]
fn tables_keep_the_last_value_for_a_name() {
    let mut t: Table<Object> = Table::new();
    t.insert("a".to_string(), Object::Bool(true));
    t.insert("b".to_string(), Object::Number(5));
    t.insert("a".to_string(), Object::Number(9));
    assert_eq!(t.get(&"a".to_string()), Some(Object::Number(9)));
    assert_eq!(t.get(&"b".to_string()), Some(Object::Number(5)));
    assert_eq!(t.get(&"c".to_string()), None);
    assert!(t.contains(&"b".to_string()));
}

#[test]
fn decimal_text() {
    assert_eq!(mat::text::usize_to_string(0), "0");
    assert_eq!(mat::text::usize_to_string(1207), "1207");
}

#[test]
fn expression_statement_runs_its_call() {
    assert_eq!(printed("fn f(x) { print x; return 0; } f(5); f(6);"), vec!["5", "6"]);
}

#[test]
fn return_skips_the_statements_after_it() {
    assert_eq!(printed("fn f() { return 1; print 9; } print f();"), vec!["1"]);
}

#[test]
fn a_group_is_its_expression() {
    assert_eq!(printed("x = 4; print (x); print ((x + 1)) * 2;"), vec!["4", "10"]);
}

#[test]
fn calls_leave_globals_and_functions_alone() {
    assert_eq!(
        printed("x = 1; fn f() { x = 2; return x; } print f(); print x;"),
        vec!["2", "1"]
    );
}

#[test]
fn unary_plus_keeps_a_number_and_fails_on_truth_values() {
    assert_eq!(printed("print + (3);"), vec!["3"]);
    assert_eq!(failure("print -(true);"), "runtime error: invalid unary operands");
}

#[test]
fn more_depth_leaves_a_finished_run_unchanged() {
    let src = "fn f(n) { if n == 0 { return 0; } return f(n - 1) + 1; } print f(5);";
    let stmts = parse_program(src).ok().unwrap();
    let mut answers = Answers::new();
    let shallow = loop {
        let mut rt = Runtime::new();
        match rt.eval(&stmts, &answers, 6) {
            Outcome::Need(q) => {
                let a = answer(&q);
                answers.add(q, a);
            }
            Outcome::Done(res) => break (rt.output().clone(), res.is_ok()),
            Outcome::TooDeep => panic!("six levels are enough"),
        }
    };
    let mut rt = Runtime::new();
    match rt.eval(&stmts, &answers, 1000) {
        Outcome::Done(res) => assert_eq!((rt.output().clone(), res.is_ok()), shallow),
        _ => panic!("a finished run must stay finished with more depth"),
    }
    assert_eq!(show(&shallow.0[0]), "5");
}

#[test]
fn answers_must_fit_their_queries() {
    assert!(fits(&Query::Literal("1".to_string()), &Object::Number(0)));
    assert!(!fits(&Query::Literal("1".to_string()), &Object::Bool(true)));
    assert!(fits(&Query::Binary(Arith::Less, 0, 0), &Object::Bool(false)));
    assert!(!fits(&Query::Binary(Arith::Add, 0, 0), &Object::Bool(false)));
    assert!(fits(&Query::Binary(Arith::Power, 0, 0), &Object::Number(7)));
    assert!(fits(&Query::IsZero(0), &Object::Bool(true)));
    assert!(!fits(&Query::Negate(0), &Object::Bool(true)));
    assert_eq!(failure("print 1 == true;"), "runtime error: invalid binary operands");
}

#[test]
fn a_return_in_an_if_ends_the_call() {
    assert_eq!(printed("fn f() { if true { return 5; } return 6; } print f();"), vec!["5"]);
    assert_eq!(printed("fn f() { if false { return 5; } return 6; } print f();"), vec!["6"]);
}

#[test]
fn calls_give_back_their_scopes() {
    assert_eq!(
        printed("fn f() { return 1; } a = f(); fn g() { return a; } print g();"),
        vec!["1"]
    );
}

#[test]
fn a_dropped_error_leaves_a_scope_behind() {
    assert_eq!(
        failure("fn h() { return 1 / 0; } fn k() { if true { x = h(); } return 2; } fn g() { return b; } b = k(); print g();"),
        "runtime error: variable 'b' not found"
    );
    assert_eq!(
        failure("fn h() { return 1 / 0; } fn k() { if true { x = h(); } return 2; } b = k(); fn g() { return b; }"),
        "runtime error: function definitions musn't be nested"
    );
}

#[test]
fn two_runs_in_turn_are_one_run() {
    let first = "x = 2; fn f(n) { return n * x; }";
    let second = "print f(3); x = 5; print f(3);";
    let whole = format!("{} {}", first, second);
    let stmts = parse_program(&whole).ok().unwrap();
    let mut answers = Answers::new();
    let expected = loop {
        let mut rt = Runtime::new();
        match rt.eval(&stmts, &answers, 8) {
            Outcome::Need(q) => {
                let a = answer(&q);
                answers.add(q, a);
            }
            Outcome::Done(res) => {
                assert!(res.is_ok());
                break rt.output().clone();
            }
            Outcome::TooDeep => panic!("two levels are enough"),
        }
    };
    let s1 = parse_program(first).ok().unwrap();
    let s2 = parse_program(second).ok().unwrap();
    let mut rt = Runtime::new();
    assert!(matches!(rt.eval(&s1, &answers, 8), Outcome::Done(Ok(()))));
    assert!(matches!(rt.eval(&s2, &answers, 8), Outcome::Done(Ok(()))));
    assert_eq!(rt.output().clone(), expected);
    assert_eq!(expected.iter().map(show).collect::<Vec<_>>(), vec!["6", "15"]);
}
