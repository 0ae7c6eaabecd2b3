use vstd::prelude::*;

use crate::ast::{
    Expr, ExprView, Stmt, StmtView, exprs_view, lemma_exprs_view_index, lemma_stmts_view_index,
    names_view, stmts_view,
};
use crate::lexer::{Token, TokenView};
use crate::table::Table;
use crate::text::{decimal, usize_to_string};
use vstd::string::*;

verus! {

broadcast use vstd::string::group_string_axioms;

/// A value: a number, held as the bits of an IEEE 754 double, or a truth value.
#[derive(Clone, Copy, Debug, PartialEq, Eq, Structural)]
pub enum Object {
    Number(u64),
    Bool(bool),
}

impl View for Object {
    type V = Object;

    open spec fn view(&self) -> Object {
        *self
    }
}

/// An operation on two numbers.
#[derive(Clone, Copy, Debug, PartialEq, Eq, Structural)]
pub enum Arith {
    Add,
    Subtract,
    Multiply,
    Divide,
    Power,
    Less,
    LessEqual,
    Equal,
    Greater,
    GreaterEqual,
}

/// A piece of floating-point work that the evaluator needs done, on numbers
/// held as IEEE 754 bits. Its answer is expected to be: for `Literal`, the
/// double that the text reads as; for `Binary`, the number that `Add`,
/// `Subtract`, `Multiply`, `Divide` or `Power` gives, or the truth value that
/// a comparison gives; for `Negate`, the negated number; for `IsZero`,
/// whether the number equals zero (of either sign).
pub enum Query {
    Literal(String),
    Binary(Arith, u64, u64),
    Negate(u64),
    IsZero(u64),
}

/// The mathematical value of a query.
pub enum QueryView {
    Literal(Seq<char>),
    Binary(Arith, u64, u64),
    Negate(u64),
    IsZero(u64),
}

impl View for Query {
    type V = QueryView;

    open spec fn view(&self) -> QueryView {
        match self {
            Query::Literal(s) => QueryView::Literal(s@),
            Query::Binary(k, a, b) => QueryView::Binary(*k, *a, *b),
            Query::Negate(a) => QueryView::Negate(*a),
            Query::IsZero(a) => QueryView::IsZero(*a),
        }
    }
}

/// A comparison: its answer is a truth value.
pub open spec fn is_comparison(k: Arith) -> bool {
    k is Less || k is LessEqual || k is Equal || k is Greater || k is GreaterEqual
}

/// `o` is an answer of the kind that `q` calls for: a number for a literal,
/// an arithmetic operation or a negation; a truth value for a comparison or
/// a zero test.
pub open spec fn answer_fits(q: QueryView, o: Object) -> bool {
    match q {
        QueryView::Literal(_) => o is Number,
        QueryView::Negate(_) => o is Number,
        QueryView::IsZero(_) => o is Bool,
        QueryView::Binary(k, _, _) => if is_comparison(k) {
            o is Bool
        } else {
            o is Number
        },
    }
}

/// Every answer in `s` is of the kind its query calls for.
pub open spec fn answers_fit(s: Seq<(QueryView, Object)>) -> bool {
    forall|i: int| 0 <= i < s.len() ==> answer_fits(#[trigger] s[i].0, s[i].1)
}

/// The answer that a list of answered queries gives to `q`: that of the
/// first entry for `q`, if any.
pub open spec fn answer(ans: Seq<(QueryView, Object)>, q: QueryView) -> Option<Object>
    decreases ans.len(),
{
    if ans.len() == 0 {
        None
    } else if ans[0].0 == q {
        Some(ans[0].1)
    } else {
        answer(ans.drop_first(), q)
    }
}

/// How evaluation of a part of a program ends: with a value, with a runtime
/// error and its message, waiting for the answer to a query, or stopped
/// because calls nested deeper than the depth it was given.
pub enum Flow<T> {
    Value(T),
    Fail(Seq<char>),
    Need(QueryView),
    Deep,
}

/// A function definition: its parameters and its body.
pub struct FuncView {
    pub params: Seq<Seq<char>>,
    pub body: StmtView,
}

/// The state of the runtime: the functions defined, the global variables,
/// the stack of local scopes of the calls under way, and the values printed.
pub struct State {
    pub funcs: Map<Seq<char>, FuncView>,
    pub globals: Map<Seq<char>, Object>,
    pub locals: Seq<Map<Seq<char>, Object>>,
    pub output: Seq<Object>,
}

/// The state before any statement runs.
pub open spec fn initial_state() -> State {
    State { funcs: Map::empty(), globals: Map::empty(), locals: Seq::empty(), output: Seq::empty() }
}

/// The size of an expression.
pub open spec fn expr_size(e: ExprView) -> nat
    decreases e, 1nat,
{
    match e {
        ExprView::Binary(l, _, r) => 1 + expr_size(*l) + expr_size(*r),
        ExprView::Unary(_, r) => 1 + expr_size(*r),
        ExprView::Group(g) => 1 + expr_size(*g),
        ExprView::Call(_, args) => 1 + exprs_size(args),
        _ => 1,
    }
}

/// The size of a sequence of expressions.
pub open spec fn exprs_size(s: Seq<ExprView>) -> nat
    decreases s, 0nat,
{
    if s.len() == 0 {
        0
    } else {
        expr_size(s[0]) + exprs_size(s.drop_first())
    }
}

/// The size of a statement; a function definition counts 1 (its body does
/// not run where it is defined).
pub open spec fn stmt_size(s: StmtView) -> nat
    decreases s, 1nat,
{
    match s {
        StmtView::Body(v) => 1 + stmts_size(v),
        StmtView::If(c, b, e) => 1 + expr_size(c) + stmt_size(*b) + match e {
            Some(x) => stmt_size(*x),
            None => 0,
        },
        StmtView::Func(_, _, _) => 1,
        StmtView::Assign(_, e) => 1 + expr_size(e),
        StmtView::Print(e) => 1 + expr_size(e),
        StmtView::Return(e) => 1 + expr_size(e),
        StmtView::Expression(e) => 1 + expr_size(e),
    }
}

/// The size of a sequence of statements.
pub open spec fn stmts_size(s: Seq<StmtView>) -> nat
    decreases s, 0nat,
{
    if s.len() == 0 {
        0
    } else {
        stmt_size(s[0]) + stmts_size(s.drop_first())
    }
}

/// Every expression and statement has size at least 1.
pub proof fn lemma_sizes_positive(e: ExprView, s: StmtView)
    ensures
        expr_size(e) >= 1,
        stmt_size(s) >= 1,
{
}

/// The value of a query from the answers, or the need for its answer.
pub open spec fn ask(ans: Seq<(QueryView, Object)>, q: QueryView) -> Flow<Object> {
    match answer(ans, q) {
        Some(o) => Flow::Value(o),
        None => Flow::Need(q),
    }
}

/// The operation on numbers that a binary operator token stands for.
pub open spec fn arith_of(op: TokenView) -> Option<Arith> {
    match op {
        TokenView::Plus => Some(Arith::Add),
        TokenView::Minus => Some(Arith::Subtract),
        TokenView::Star => Some(Arith::Multiply),
        TokenView::Slash => Some(Arith::Divide),
        TokenView::Caret => Some(Arith::Power),
        TokenView::Less => Some(Arith::Less),
        TokenView::LessEqual => Some(Arith::LessEqual),
        TokenView::Equal => Some(Arith::Equal),
        TokenView::Greater => Some(Arith::Greater),
        TokenView::GreaterEqual => Some(Arith::GreaterEqual),
        _ => None,
    }
}

/// The message of a binary operator applied to operands it does not take.
pub open spec fn invalid_binary() -> Seq<char> {
    "invalid binary operands"@
}

/// The result of the binary operator `op` on the values `x` and `y`.
/// A division asks first whether the divisor is zero.
pub open spec fn binary_value(op: TokenView, x: Object, y: Object, ans: Seq<(QueryView, Object)>) -> Flow<Object> {
    match (x, y) {
        (Object::Number(a), Object::Number(b)) => match arith_of(op) {
            Some(Arith::Divide) => match answer(ans, QueryView::IsZero(b)) {
                None => Flow::Need(QueryView::IsZero(b)),
                Some(Object::Bool(true)) => Flow::Fail("division by zero"@),
                Some(_) => ask(ans, QueryView::Binary(Arith::Divide, a, b)),
            },
            Some(k) => ask(ans, QueryView::Binary(k, a, b)),
            None => Flow::Fail(invalid_binary()),
        },
        (Object::Bool(a), Object::Bool(b)) => if op is Equal {
            Flow::Value(Object::Bool(a == b))
        } else {
            Flow::Fail(invalid_binary())
        },
        _ => Flow::Fail(invalid_binary()),
    }
}

/// The result of the unary operator `op` on the value `x`.
pub open spec fn unary_value(op: TokenView, x: Object, ans: Seq<(QueryView, Object)>) -> Flow<Object> {
    match x {
        Object::Number(a) => if op is Minus {
            ask(ans, QueryView::Negate(a))
        } else if op is Plus {
            Flow::Value(x)
        } else {
            Flow::Fail("invalid unary operands"@)
        },
        _ => Flow::Fail("invalid unary operands"@),
    }
}

/// The value of the variable `name`: from the innermost local scope, else
/// from the globals.
pub open spec fn lookup_var(st: State, name: Seq<char>) -> Flow<Object> {
    if st.locals.len() > 0 && st.locals.last().contains_key(name) {
        Flow::Value(st.locals.last()[name])
    } else if st.globals.contains_key(name) {
        Flow::Value(st.globals[name])
    } else {
        Flow::Fail("variable '"@ + name + "' not found"@)
    }
}

/// The state after giving `name` the value `v`: in the innermost local
/// scope if there is one, else among the globals.
pub open spec fn assign_var(st: State, name: Seq<char>, v: Object) -> State {
    if st.locals.len() > 0 {
        State { locals: st.locals.update(st.locals.len() - 1, st.locals.last().insert(name, v)), ..st }
    } else {
        State { globals: st.globals.insert(name, v), ..st }
    }
}

/// The state after the innermost local scope is dropped.
pub open spec fn pop_scope(st: State) -> State {
    State { locals: st.locals.drop_last(), ..st }
}

/// The message of a call with the wrong number of arguments.
pub open spec fn arity_message(name: Seq<char>, expected: nat, got: nat) -> Seq<char> {
    "function '"@ + name + "' expects "@ + decimal(expected) + " arg(s) but got "@ + decimal(got)
        + " arg(s)"@
}

/// Evaluates the expression `e` in state `st`, with `depth` calls left to nest.
pub open spec fn sem_expr(st: State, e: ExprView, ans: Seq<(QueryView, Object)>, depth: nat) -> (State, Flow<Object>)
    decreases depth, expr_size(e), 0nat,
{
    match e {
        ExprView::Number(text) => (st, ask(ans, QueryView::Literal(text))),
        ExprView::Bool(b) => (st, Flow::Value(Object::Bool(b))),
        ExprView::Var(name) => (st, lookup_var(st, name)),
        ExprView::Group(g) => sem_expr(st, *g, ans, depth),
        ExprView::Unary(op, r) => {
            let (st1, f) = sem_expr(st, *r, ans, depth);
            match f {
                Flow::Value(x) => (st1, unary_value(op, x, ans)),
                Flow::Fail(m) => (st1, Flow::Fail(m)),
                Flow::Need(q) => (st1, Flow::Need(q)),
                Flow::Deep => (st1, Flow::Deep),
            }
        },
        ExprView::Binary(l, op, r) => {
            let (st1, f1) = sem_expr(st, *l, ans, depth);
            match f1 {
                Flow::Value(x) => {
                    let (st2, f2) = sem_expr(st1, *r, ans, depth);
                    match f2 {
                        Flow::Value(y) => (st2, binary_value(op, x, y, ans)),
                        Flow::Fail(m) => (st2, Flow::Fail(m)),
                        Flow::Need(q) => (st2, Flow::Need(q)),
                        Flow::Deep => (st2, Flow::Deep),
                    }
                },
                Flow::Fail(m) => (st1, Flow::Fail(m)),
                Flow::Need(q) => (st1, Flow::Need(q)),
                Flow::Deep => (st1, Flow::Deep),
            }
        },
        ExprView::Call(name, args) => sem_call(st, name, args, ans, depth),
    }
}

/// Evaluates the arguments `args` in order, binding each to the parameter
/// in the same place, into `scope`.
pub open spec fn sem_args(
    st: State,
    params: Seq<Seq<char>>,
    args: Seq<ExprView>,
    scope: Map<Seq<char>, Object>,
    ans: Seq<(QueryView, Object)>,
    depth: nat,
) -> (State, Flow<Map<Seq<char>, Object>>)
    decreases depth, exprs_size(args), 1nat,
{
    if args.len() == 0 {
        (st, Flow::Value(scope))
    } else {
        let (st1, f) = sem_expr(st, args[0], ans, depth);
        proof {
            lemma_sizes_positive(args[0], StmtView::Body(Seq::empty()));
        }
        match f {
            Flow::Value(v) => sem_args(st1, params.drop_first(), args.drop_first(), scope.insert(params[0], v), ans, depth),
            Flow::Fail(m) => (st1, Flow::Fail(m)),
            Flow::Need(q) => (st1, Flow::Need(q)),
            Flow::Deep => (st1, Flow::Deep),
        }
    }
}

/// The values of the arguments `args`, evaluated in order from `st`, with
/// the state that leaves; or how their evaluation stopped.
pub open spec fn arg_values(st: State, args: Seq<ExprView>, ans: Seq<(QueryView, Object)>, depth: nat) -> (State, Flow<Seq<Object>>)
    decreases args.len(),
{
    if args.len() == 0 {
        (st, Flow::Value(Seq::empty()))
    } else {
        let (st1, f) = sem_expr(st, args[0], ans, depth);
        match f {
            Flow::Value(v) => {
                let (st2, g) = arg_values(st1, args.drop_first(), ans, depth);
                match g {
                    Flow::Value(vs) => (st2, Flow::Value(seq![v] + vs)),
                    Flow::Fail(m) => (st2, Flow::Fail(m)),
                    Flow::Need(q) => (st2, Flow::Need(q)),
                    Flow::Deep => (st2, Flow::Deep),
                }
            },
            Flow::Fail(m) => (st1, Flow::Fail(m)),
            Flow::Need(q) => (st1, Flow::Need(q)),
            Flow::Deep => (st1, Flow::Deep),
        }
    }
}

/// Calls the function `name` with the arguments `args`: the arguments are
/// evaluated in the caller's scope, the body runs in a new local scope, and
/// the value of its `return` is the result. A failure in the body leaves
/// its scope in place.
pub open spec fn sem_call(st: State, name: Seq<char>, args: Seq<ExprView>, ans: Seq<(QueryView, Object)>, depth: nat) -> (State, Flow<Object>)
    decreases depth, exprs_size(args), 2nat,
{
    if !st.funcs.contains_key(name) {
        (st, Flow::Fail("function '"@ + name + "' doesn't exist"@))
    } else {
        let f = st.funcs[name];
        if args.len() != f.params.len() {
            (st, Flow::Fail(arity_message(name, f.params.len(), args.len())))
        } else {
            let (st1, fa) = sem_args(st, f.params, args, Map::empty(), ans, depth);
            match fa {
                Flow::Value(scope) => if depth == 0 {
                    (st1, Flow::Deep)
                } else {
                    let st2 = State { locals: st1.locals.push(scope), ..st1 };
                    let (st3, fb) = sem_block(st2, f.body, ans, (depth - 1) as nat);
                    match fb {
                        Flow::Value(Some(o)) => (pop_scope(st3), Flow::Value(o)),
                        Flow::Value(None) => (pop_scope(st3), Flow::Fail("function '"@ + name + "' doesn't return a value"@)),
                        Flow::Fail(m) => (st3, Flow::Fail(m)),
                        Flow::Need(q) => (st3, Flow::Need(q)),
                        Flow::Deep => (st3, Flow::Deep),
                    }
                },
                Flow::Fail(m) => (st1, Flow::Fail(m)),
                Flow::Need(q) => (st1, Flow::Need(q)),
                Flow::Deep => (st1, Flow::Deep),
            }
        }
    }
}

/// How a branch of an `if` ends for the statements after the `if`: a
/// `return` is passed on, a runtime error in the branch is dropped, and a
/// pending query or a stop for depth is passed on.
pub open spec fn branch_flow(f: Flow<Option<Object>>) -> Flow<Option<Object>> {
    match f {
        Flow::Value(Some(o)) => Flow::Value(Some(o)),
        Flow::Value(None) => Flow::Value(None),
        Flow::Fail(_) => Flow::Value(None),
        Flow::Need(q) => Flow::Need(q),
        Flow::Deep => Flow::Deep,
    }
}

/// Runs the statement `s`. The value is `Some` for a `return`.
pub open spec fn sem_stmt(st: State, s: StmtView, ans: Seq<(QueryView, Object)>, depth: nat) -> (State, Flow<Option<Object>>)
    decreases depth, stmt_size(s), 0nat,
{
    match s {
        StmtView::If(c, b, e) => {
            let (st1, fc) = sem_expr(st, c, ans, depth);
            match fc {
                Flow::Value(Object::Bool(true)) => {
                    let (st2, fb) = sem_block(st1, *b, ans, depth);
                    (st2, branch_flow(fb))
                },
                Flow::Value(Object::Bool(false)) => match e {
                    Some(eb) => {
                        let (st2, fb) = sem_block(st1, *eb, ans, depth);
                        (st2, branch_flow(fb))
                    },
                    None => (st1, Flow::Value(None)),
                },
                Flow::Value(Object::Number(_)) => (st1, Flow::Fail("invalid expression for if statement"@)),
                Flow::Fail(m) => (st1, Flow::Fail(m)),
                Flow::Need(q) => (st1, Flow::Need(q)),
                Flow::Deep => (st1, Flow::Deep),
            }
        },
        StmtView::Func(name, params, body) => if st.locals.len() > 0 {
            (st, Flow::Fail("function definitions musn't be nested"@))
        } else if st.funcs.contains_key(name) {
            (st, Flow::Fail("redefinition of function '"@ + name + "'"@))
        } else {
            (State { funcs: st.funcs.insert(name, FuncView { params: params, body: *body }), ..st }, Flow::Value(None))
        },
        StmtView::Assign(name, e) => {
            let (st1, f) = sem_expr(st, e, ans, depth);
            match f {
                Flow::Value(v) => (assign_var(st1, name, v), Flow::Value(None)),
                Flow::Fail(m) => (st1, Flow::Fail(m)),
                Flow::Need(q) => (st1, Flow::Need(q)),
                Flow::Deep => (st1, Flow::Deep),
            }
        },
        StmtView::Print(e) => {
            let (st1, f) = sem_expr(st, e, ans, depth);
            match f {
                Flow::Value(v) => (State { output: st1.output.push(v), ..st1 }, Flow::Value(None)),
                Flow::Fail(m) => (st1, Flow::Fail(m)),
                Flow::Need(q) => (st1, Flow::Need(q)),
                Flow::Deep => (st1, Flow::Deep),
            }
        },
        StmtView::Return(e) => if st.locals.len() > 0 {
            let (st1, f) = sem_expr(st, e, ans, depth);
            match f {
                Flow::Value(v) => (st1, Flow::Value(Some(v))),
                Flow::Fail(m) => (st1, Flow::Fail(m)),
                Flow::Need(q) => (st1, Flow::Need(q)),
                Flow::Deep => (st1, Flow::Deep),
            }
        } else {
            (st, Flow::Fail("can't return from global scope"@))
        },
        StmtView::Expression(e) => {
            let (st1, f) = sem_expr(st, e, ans, depth);
            match f {
                Flow::Value(_) => (st1, Flow::Value(None)),
                Flow::Fail(m) => (st1, Flow::Fail(m)),
                Flow::Need(q) => (st1, Flow::Need(q)),
                Flow::Deep => (st1, Flow::Deep),
            }
        },
        StmtView::Body(v) => sem_stmts(st, v, ans, depth),
    }
}

/// Runs the statements `ss` in order, up to the first that returns, fails
/// or waits.
pub open spec fn sem_stmts(st: State, ss: Seq<StmtView>, ans: Seq<(QueryView, Object)>, depth: nat) -> (State, Flow<Option<Object>>)
    decreases depth, stmts_size(ss), 1nat,
{
    if ss.len() == 0 {
        (st, Flow::Value(None))
    } else {
        let (st1, f) = sem_stmt(st, ss[0], ans, depth);
        proof {
            lemma_sizes_positive(ExprView::Bool(true), ss[0]);
        }
        match f {
            Flow::Value(None) => sem_stmts(st1, ss.drop_first(), ans, depth),
            _ => (st1, f),
        }
    }
}

/// Runs a block: the statements of a `Body`, or a single statement.
pub open spec fn sem_block(st: State, b: StmtView, ans: Seq<(QueryView, Object)>, depth: nat) -> (State, Flow<Option<Object>>)
    decreases depth, stmt_size(b), 2nat,
{
    match b {
        StmtView::Body(v) => sem_stmts(st, v, ans, depth),
        _ => sem_stmt(st, b, ans, depth),
    }
}

/// Runs a program from state `st` with the answers `ans`, with calls
/// allowed to nest `depth` deep.
pub open spec fn sem_program(st: State, stmts: Seq<StmtView>, ans: Seq<(QueryView, Object)>, depth: nat) -> (State, Flow<Option<Object>>) {
    sem_stmts(st, stmts, ans, depth)
}

/// An answer found among the answers stays the answer when more are added
/// after them; a query without an answer gets the first of the added ones.
pub proof fn lemma_answer_extend(ans: Seq<(QueryView, Object)>, extra: Seq<(QueryView, Object)>, q: QueryView)
    ensures
        answer(ans, q) is Some ==> answer(ans + extra, q) == answer(ans, q),
        answer(ans, q) is None ==> answer(ans + extra, q) == answer(extra, q),
    decreases ans.len(),
{
    if ans.len() > 0 {
        assert((ans + extra).drop_first() =~= ans.drop_first() + extra);
        assert((ans + extra)[0] == ans[0]);
        lemma_answer_extend(ans.drop_first(), extra, q);
    } else {
        assert(ans + extra =~= extra);
    }
}

/// Adding an answer for `q` answers `q` unless it was answered already.
pub proof fn law_first_answer_wins(ans: Seq<(QueryView, Object)>, q: QueryView, o: Object)
    ensures
        answer(ans.push((q, o)), q) == match answer(ans, q) {
            Some(x) => Some(x),
            None => Some(o),
        },
{
    lemma_answer_extend(ans, seq![(q, o)], q);
    assert(ans + seq![(q, o)] =~= ans.push((q, o)));
    assert(seq![(q, o)].drop_first() =~= Seq::<(QueryView, Object)>::empty());
}

/// Each binary operator on two numbers asks for its own operation: `+` for
/// an addition, `-` a subtraction, `*` a multiplication, `^` a power, `<`,
/// `<=`, `==`, `>` and `>=` for the comparison of the same name; `/` asks
/// first whether the divisor is zero, fails if it is, and else asks for the
/// division.
pub proof fn law_each_operator_asks_its_own_operation(a: u64, b: u64, ans: Seq<(QueryView, Object)>)
    ensures
        binary_value(TokenView::Plus, Object::Number(a), Object::Number(b), ans) == ask(ans, QueryView::Binary(Arith::Add, a, b)),
        binary_value(TokenView::Minus, Object::Number(a), Object::Number(b), ans) == ask(ans, QueryView::Binary(Arith::Subtract, a, b)),
        binary_value(TokenView::Star, Object::Number(a), Object::Number(b), ans) == ask(ans, QueryView::Binary(Arith::Multiply, a, b)),
        binary_value(TokenView::Caret, Object::Number(a), Object::Number(b), ans) == ask(ans, QueryView::Binary(Arith::Power, a, b)),
        binary_value(TokenView::Less, Object::Number(a), Object::Number(b), ans) == ask(ans, QueryView::Binary(Arith::Less, a, b)),
        binary_value(TokenView::LessEqual, Object::Number(a), Object::Number(b), ans) == ask(ans, QueryView::Binary(Arith::LessEqual, a, b)),
        binary_value(TokenView::Equal, Object::Number(a), Object::Number(b), ans) == ask(ans, QueryView::Binary(Arith::Equal, a, b)),
        binary_value(TokenView::Greater, Object::Number(a), Object::Number(b), ans) == ask(ans, QueryView::Binary(Arith::Greater, a, b)),
        binary_value(TokenView::GreaterEqual, Object::Number(a), Object::Number(b), ans) == ask(ans, QueryView::Binary(Arith::GreaterEqual, a, b)),
        binary_value(TokenView::Slash, Object::Number(a), Object::Number(b), ans) == (if answer(ans, QueryView::IsZero(b)) is None {
            Flow::Need(QueryView::IsZero(b))
        } else if answer(ans, QueryView::IsZero(b)) == Some(Object::Bool(true)) {
            Flow::Fail("division by zero"@)
        } else {
            ask(ans, QueryView::Binary(Arith::Divide, a, b))
        }),
{
}

proof fn lemma_answer_fits(ans: Seq<(QueryView, Object)>, q: QueryView)
    requires
        answers_fit(ans),
    ensures
        answer(ans, q) matches Some(o) ==> answer_fits(q, o),
    decreases ans.len(),
{
    if ans.len() > 0 {
        assert(answer_fits(ans[0].0, ans[0].1));
        assert forall|i: int| 0 <= i < ans.drop_first().len() implies answer_fits(
            #[trigger] ans.drop_first()[i].0,
            ans.drop_first()[i].1,
        ) by {
            assert(ans.drop_first()[i] == ans[i + 1]);
        }
        lemma_answer_fits(ans.drop_first(), q);
    }
}

/// With answers of the kinds their queries call for, values keep their
/// kinds: a literal reads as a number, a negation gives a number, and a
/// binary operator gives a truth value exactly when it compares or is `==`
/// on truth values; so `1 == true` fails rather than giving a truth value.
pub proof fn law_fitting_answers_give_kinds(op: TokenView, x: Object, y: Object, text: Seq<char>, ans: Seq<(QueryView, Object)>)
    requires
        answers_fit(ans),
    ensures
        ask(ans, QueryView::Literal(text)) matches Flow::Value(o) ==> o is Number,
        unary_value(op, x, ans) matches Flow::Value(o) ==> o is Number,
        binary_value(op, x, y, ans) matches Flow::Value(o) ==> (o is Bool <==> (x is Bool || (
        arith_of(op) matches Some(k) && is_comparison(k)))),
        (x is Number) != (y is Number) ==> binary_value(op, x, y, ans) == Flow::<Object>::Fail(invalid_binary()),
{
    lemma_answer_fits(ans, QueryView::Literal(text));
    if let Object::Number(a) = x {
        lemma_answer_fits(ans, QueryView::Negate(a));
        if let Object::Number(b) = y {
            if let Some(k) = arith_of(op) {
                lemma_answer_fits(ans, QueryView::Binary(k, a, b));
            }
        }
    }
}

/// The answers' extension keeps a settled flow and an unanswered need.
pub open spec fn stable<T>(
    r: (State, Flow<T>),
    r2: (State, Flow<T>),
    ans: Seq<(QueryView, Object)>,
) -> bool {
    &&& !(r.1 is Need) ==> r2 == r
    &&& r.1 matches Flow::Need(q) ==> answer(ans, q) is None
}

proof fn lemma_ask_extend(ans: Seq<(QueryView, Object)>, extra: Seq<(QueryView, Object)>, q: QueryView)
    ensures
        !(ask(ans, q) is Need) ==> ask(ans + extra, q) == ask(ans, q),
        ask(ans, q) matches Flow::Need(x) ==> answer(ans, x) is None,
{
    lemma_answer_extend(ans, extra, q);
}

proof fn lemma_unary_extend(op: TokenView, x: Object, ans: Seq<(QueryView, Object)>, extra: Seq<(QueryView, Object)>)
    ensures
        !(unary_value(op, x, ans) is Need) ==> unary_value(op, x, ans + extra) == unary_value(op, x, ans),
        unary_value(op, x, ans) matches Flow::Need(q) ==> answer(ans, q) is None,
{
    if let Object::Number(a) = x {
        lemma_ask_extend(ans, extra, QueryView::Negate(a));
    }
}

proof fn lemma_binary_extend(op: TokenView, x: Object, y: Object, ans: Seq<(QueryView, Object)>, extra: Seq<(QueryView, Object)>)
    ensures
        !(binary_value(op, x, y, ans) is Need) ==> binary_value(op, x, y, ans + extra) == binary_value(op, x, y, ans),
        binary_value(op, x, y, ans) matches Flow::Need(q) ==> answer(ans, q) is None,
{
    if let (Object::Number(a), Object::Number(b)) = (x, y) {
        lemma_answer_extend(ans, extra, QueryView::IsZero(b));
        lemma_ask_extend(ans, extra, QueryView::Binary(Arith::Divide, a, b));
        if let Some(k) = arith_of(op) {
            lemma_ask_extend(ans, extra, QueryView::Binary(k, a, b));
        }
    }
}

proof fn lemma_expr_extend(st: State, e: ExprView, ans: Seq<(QueryView, Object)>, extra: Seq<(QueryView, Object)>, depth: nat)
    ensures
        stable(sem_expr(st, e, ans, depth), sem_expr(st, e, ans + extra, depth), ans),
    decreases depth, expr_size(e), 0nat,
{
    match e {
        ExprView::Number(text) => lemma_ask_extend(ans, extra, QueryView::Literal(text)),
        ExprView::Group(g) => lemma_expr_extend(st, *g, ans, extra, depth),
        ExprView::Unary(op, r) => {
            lemma_expr_extend(st, *r, ans, extra, depth);
            if let (st1, Flow::Value(x)) = sem_expr(st, *r, ans, depth) {
                lemma_unary_extend(op, x, ans, extra);
            }
        },
        ExprView::Binary(l, op, r) => {
            lemma_expr_extend(st, *l, ans, extra, depth);
            if let (st1, Flow::Value(x)) = sem_expr(st, *l, ans, depth) {
                lemma_expr_extend(st1, *r, ans, extra, depth);
                if let (st2, Flow::Value(y)) = sem_expr(st1, *r, ans, depth) {
                    lemma_binary_extend(op, x, y, ans, extra);
                }
            }
        },
        ExprView::Call(name, args) => lemma_call_extend(st, name, args, ans, extra, depth),
        _ => {},
    }
}

proof fn lemma_args_extend(
    st: State,
    params: Seq<Seq<char>>,
    args: Seq<ExprView>,
    scope: Map<Seq<char>, Object>,
    ans: Seq<(QueryView, Object)>,
    extra: Seq<(QueryView, Object)>,
    depth: nat,
)
    ensures
        stable(sem_args(st, params, args, scope, ans, depth), sem_args(st, params, args, scope, ans + extra, depth), ans),
    decreases depth, exprs_size(args), 1nat,
{
    if args.len() > 0 {
        lemma_sizes_positive(args[0], StmtView::Body(Seq::empty()));
        lemma_expr_extend(st, args[0], ans, extra, depth);
        if let (st1, Flow::Value(v)) = sem_expr(st, args[0], ans, depth) {
            lemma_args_extend(st1, params.drop_first(), args.drop_first(), scope.insert(params[0], v), ans, extra, depth);
        }
    }
}

proof fn lemma_call_extend(st: State, name: Seq<char>, args: Seq<ExprView>, ans: Seq<(QueryView, Object)>, extra: Seq<(QueryView, Object)>, depth: nat)
    ensures
        stable(sem_call(st, name, args, ans, depth), sem_call(st, name, args, ans + extra, depth), ans),
    decreases depth, exprs_size(args), 2nat,
{
    if st.funcs.contains_key(name) {
        let f = st.funcs[name];
        if args.len() == f.params.len() {
            lemma_args_extend(st, f.params, args, Map::empty(), ans, extra, depth);
            if let (st1, Flow::Value(scope)) = sem_args(st, f.params, args, Map::empty(), ans, depth) {
                if depth > 0 {
                    let st2 = State { locals: st1.locals.push(scope), ..st1 };
                    lemma_block_extend(st2, f.body, ans, extra, (depth - 1) as nat);
                }
            }
        }
    }
}

proof fn lemma_stmt_extend(st: State, s: StmtView, ans: Seq<(QueryView, Object)>, extra: Seq<(QueryView, Object)>, depth: nat)
    ensures
        stable(sem_stmt(st, s, ans, depth), sem_stmt(st, s, ans + extra, depth), ans),
    decreases depth, stmt_size(s), 0nat,
{
    match s {
        StmtView::If(c, b, e) => {
            lemma_expr_extend(st, c, ans, extra, depth);
            let (st1, fc) = sem_expr(st, c, ans, depth);
            match fc {
                Flow::Value(Object::Bool(true)) => lemma_block_extend(st1, *b, ans, extra, depth),
                Flow::Value(Object::Bool(false)) => if let Some(eb) = e {
                    lemma_block_extend(st1, *eb, ans, extra, depth);
                },
                _ => {},
            }
        },
        StmtView::Assign(_, e) => lemma_expr_extend(st, e, ans, extra, depth),
        StmtView::Print(e) => lemma_expr_extend(st, e, ans, extra, depth),
        StmtView::Return(e) => lemma_expr_extend(st, e, ans, extra, depth),
        StmtView::Expression(e) => lemma_expr_extend(st, e, ans, extra, depth),
        StmtView::Body(v) => lemma_stmts_extend(st, v, ans, extra, depth),
        StmtView::Func(_, _, _) => {},
    }
}

proof fn lemma_stmts_extend(st: State, ss: Seq<StmtView>, ans: Seq<(QueryView, Object)>, extra: Seq<(QueryView, Object)>, depth: nat)
    ensures
        stable(sem_stmts(st, ss, ans, depth), sem_stmts(st, ss, ans + extra, depth), ans),
    decreases depth, stmts_size(ss), 1nat,
{
    if ss.len() > 0 {
        lemma_sizes_positive(ExprView::Bool(true), ss[0]);
        lemma_stmt_extend(st, ss[0], ans, extra, depth);
        if let (st1, Flow::Value(None)) = sem_stmt(st, ss[0], ans, depth) {
            lemma_stmts_extend(st1, ss.drop_first(), ans, extra, depth);
        }
    }
}

proof fn lemma_block_extend(st: State, b: StmtView, ans: Seq<(QueryView, Object)>, extra: Seq<(QueryView, Object)>, depth: nat)
    ensures
        stable(sem_block(st, b, ans, depth), sem_block(st, b, ans + extra, depth), ans),
    decreases depth, stmt_size(b), 2nat,
{
    match b {
        StmtView::Body(v) => lemma_stmts_extend(st, v, ans, extra, depth),
        _ => lemma_stmt_extend(st, b, ans, extra, depth),
    }
}

/// Answers only ever settle a run: a run that ends without waiting ends the
/// same way, in the same state, when more answers are given after the ones
/// it had; and a run waits only for a query that its answers do not answer.
pub proof fn law_more_answers_same_run(st: State, stmts: Seq<StmtView>, ans: Seq<(QueryView, Object)>, extra: Seq<(QueryView, Object)>, depth: nat)
    ensures
        !(sem_program(st, stmts, ans, depth).1 is Need) ==> sem_program(st, stmts, ans + extra, depth) == sem_program(st, stmts, ans, depth),
        sem_program(st, stmts, ans, depth).1 matches Flow::Need(q) ==> answer(ans, q) is None,
{
    lemma_stmts_extend(st, stmts, ans, extra, depth);
}

/// A run with more depth agrees with `r` unless `r` stopped for depth.
pub open spec fn deeper<T>(r: (State, Flow<T>), r2: (State, Flow<T>)) -> bool {
    !(r.1 is Deep) ==> r2 == r
}

proof fn lemma_expr_deeper(st: State, e: ExprView, ans: Seq<(QueryView, Object)>, d: nat, d2: nat)
    requires
        d <= d2,
    ensures
        deeper(sem_expr(st, e, ans, d), sem_expr(st, e, ans, d2)),
    decreases d, expr_size(e), 0nat,
{
    match e {
        ExprView::Group(g) => lemma_expr_deeper(st, *g, ans, d, d2),
        ExprView::Unary(op, r) => lemma_expr_deeper(st, *r, ans, d, d2),
        ExprView::Binary(l, op, r) => {
            lemma_expr_deeper(st, *l, ans, d, d2);
            if let (st1, Flow::Value(x)) = sem_expr(st, *l, ans, d) {
                lemma_expr_deeper(st1, *r, ans, d, d2);
            }
        },
        ExprView::Call(name, args) => lemma_call_deeper(st, name, args, ans, d, d2),
        _ => {},
    }
}

proof fn lemma_args_deeper(
    st: State,
    params: Seq<Seq<char>>,
    args: Seq<ExprView>,
    scope: Map<Seq<char>, Object>,
    ans: Seq<(QueryView, Object)>,
    d: nat,
    d2: nat,
)
    requires
        d <= d2,
    ensures
        deeper(sem_args(st, params, args, scope, ans, d), sem_args(st, params, args, scope, ans, d2)),
    decreases d, exprs_size(args), 1nat,
{
    if args.len() > 0 {
        lemma_sizes_positive(args[0], StmtView::Body(Seq::empty()));
        lemma_expr_deeper(st, args[0], ans, d, d2);
        if let (st1, Flow::Value(v)) = sem_expr(st, args[0], ans, d) {
            lemma_args_deeper(st1, params.drop_first(), args.drop_first(), scope.insert(params[0], v), ans, d, d2);
        }
    }
}

proof fn lemma_call_deeper(st: State, name: Seq<char>, args: Seq<ExprView>, ans: Seq<(QueryView, Object)>, d: nat, d2: nat)
    requires
        d <= d2,
    ensures
        deeper(sem_call(st, name, args, ans, d), sem_call(st, name, args, ans, d2)),
    decreases d, exprs_size(args), 2nat,
{
    if st.funcs.contains_key(name) {
        let f = st.funcs[name];
        if args.len() == f.params.len() {
            lemma_args_deeper(st, f.params, args, Map::empty(), ans, d, d2);
            if let (st1, Flow::Value(scope)) = sem_args(st, f.params, args, Map::empty(), ans, d) {
                if d > 0 {
                    let st2 = State { locals: st1.locals.push(scope), ..st1 };
                    lemma_block_deeper(st2, f.body, ans, (d - 1) as nat, (d2 - 1) as nat);
                }
            }
        }
    }
}

proof fn lemma_stmt_deeper(st: State, s: StmtView, ans: Seq<(QueryView, Object)>, d: nat, d2: nat)
    requires
        d <= d2,
    ensures
        deeper(sem_stmt(st, s, ans, d), sem_stmt(st, s, ans, d2)),
    decreases d, stmt_size(s), 0nat,
{
    match s {
        StmtView::If(c, b, e) => {
            lemma_expr_deeper(st, c, ans, d, d2);
            let (st1, fc) = sem_expr(st, c, ans, d);
            match fc {
                Flow::Value(Object::Bool(true)) => lemma_block_deeper(st1, *b, ans, d, d2),
                Flow::Value(Object::Bool(false)) => if let Some(eb) = e {
                    lemma_block_deeper(st1, *eb, ans, d, d2);
                },
                _ => {},
            }
        },
        StmtView::Assign(_, e) => lemma_expr_deeper(st, e, ans, d, d2),
        StmtView::Print(e) => lemma_expr_deeper(st, e, ans, d, d2),
        StmtView::Return(e) => lemma_expr_deeper(st, e, ans, d, d2),
        StmtView::Expression(e) => lemma_expr_deeper(st, e, ans, d, d2),
        StmtView::Body(v) => lemma_stmts_deeper(st, v, ans, d, d2),
        StmtView::Func(_, _, _) => {},
    }
}

proof fn lemma_stmts_deeper(st: State, ss: Seq<StmtView>, ans: Seq<(QueryView, Object)>, d: nat, d2: nat)
    requires
        d <= d2,
    ensures
        deeper(sem_stmts(st, ss, ans, d), sem_stmts(st, ss, ans, d2)),
    decreases d, stmts_size(ss), 1nat,
{
    if ss.len() > 0 {
        lemma_sizes_positive(ExprView::Bool(true), ss[0]);
        lemma_stmt_deeper(st, ss[0], ans, d, d2);
        if let (st1, Flow::Value(None)) = sem_stmt(st, ss[0], ans, d) {
            lemma_stmts_deeper(st1, ss.drop_first(), ans, d, d2);
        }
    }
}

proof fn lemma_block_deeper(st: State, b: StmtView, ans: Seq<(QueryView, Object)>, d: nat, d2: nat)
    requires
        d <= d2,
    ensures
        deeper(sem_block(st, b, ans, d), sem_block(st, b, ans, d2)),
    decreases d, stmt_size(b), 2nat,
{
    match b {
        StmtView::Body(v) => lemma_stmts_deeper(st, v, ans, d, d2),
        _ => lemma_stmt_deeper(st, b, ans, d, d2),
    }
}

/// The depth given to a run only bounds it: a run that ends without
/// stopping for depth ends the same way, in the same state, with any
/// greater depth.
pub proof fn law_more_depth_same_run(st: State, stmts: Seq<StmtView>, ans: Seq<(QueryView, Object)>, depth: nat, more: nat)
    requires
        depth <= more,
    ensures
        !(sem_program(st, stmts, ans, depth).1 is Deep) ==> sem_program(st, stmts, ans, more) == sem_program(st, stmts, ans, depth),
{
    lemma_stmts_deeper(st, stmts, ans, depth, more);
}

/// `out` is `scope` with the `i`-th of `params` mapped to the `i`-th of `vs`.
pub open spec fn binds(out: Map<Seq<char>, Object>, scope: Map<Seq<char>, Object>, params: Seq<Seq<char>>, vs: Seq<Object>) -> bool {
    &&& (forall|i: int| 0 <= i < params.len() ==> out.contains_key(#[trigger] params[i]) && out[params[i]] == vs[i])
    &&& (forall|k: Seq<char>|
        #![trigger out.contains_key(k)]
        !params.contains(k) ==> (out.contains_key(k) == scope.contains_key(k) && (scope.contains_key(k) ==> out[k] == scope[k])))
}

proof fn lemma_binds_intro(out: Map<Seq<char>, Object>, scope: Map<Seq<char>, Object>, params: Seq<Seq<char>>, vs: Seq<Object>)
    requires
        forall|i: int| 0 <= i < params.len() ==> out.contains_key(#[trigger] params[i]) && out[params[i]] == vs[i],
        forall|k: Seq<char>|
            #![trigger out.contains_key(k)]
            !params.contains(k) ==> (out.contains_key(k) == scope.contains_key(k) && (scope.contains_key(k) ==> out[k] == scope[k])),
    ensures
        binds(out, scope, params, vs),
{
}

proof fn lemma_args_bind(
    st: State,
    params: Seq<Seq<char>>,
    args: Seq<ExprView>,
    scope: Map<Seq<char>, Object>,
    ans: Seq<(QueryView, Object)>,
    depth: nat,
)
    requires
        params.len() == args.len(),
        params.no_duplicates(),
    ensures
        sem_args(st, params, args, scope, ans, depth).0 == arg_values(st, args, ans, depth).0,
        arg_values(st, args, ans, depth).1 matches Flow::Value(vs) ==> vs.len() == params.len() && (sem_args(
            st,
            params,
            args,
            scope,
            ans,
            depth,
        ).1 matches Flow::Value(out) && binds(out, scope, params, vs)),
        arg_values(st, args, ans, depth).1 matches Flow::Fail(m) ==> sem_args(st, params, args, scope, ans, depth).1
            == Flow::<Map<Seq<char>, Object>>::Fail(m),
        arg_values(st, args, ans, depth).1 matches Flow::Need(q) ==> sem_args(st, params, args, scope, ans, depth).1
            == Flow::<Map<Seq<char>, Object>>::Need(q),
        arg_values(st, args, ans, depth).1 is Deep ==> sem_args(st, params, args, scope, ans, depth).1
            == Flow::<Map<Seq<char>, Object>>::Deep,
    decreases args.len(),
{
    if args.len() > 0 {
        lemma_sizes_positive(args[0], StmtView::Body(Seq::empty()));
        let (st1, f) = sem_expr(st, args[0], ans, depth);
        if let Flow::Value(v) = f {
            let rest = params.drop_first();
            assert(rest.no_duplicates()) by {
                assert forall|i: int, j: int| 0 <= i < j < rest.len() implies rest[i] != rest[j] by {
                    assert(rest[i] == params[i + 1] && rest[j] == params[j + 1]);
                }
            }
            assert(!rest.contains(params[0])) by {
                if rest.contains(params[0]) {
                    let j = choose|j: int| 0 <= j < rest.len() && rest[j] == params[0];
                    assert(rest[j] == params[j + 1]);
                }
            }
            let sc = scope.insert(params[0], v);
            lemma_args_bind(st1, rest, args.drop_first(), sc, ans, depth);
            assert(sem_args(st, params, args, scope, ans, depth) == sem_args(st1, rest, args.drop_first(), sc, ans, depth));
            if !(arg_values(st1, args.drop_first(), ans, depth).1 is Value) {
                assert(!(arg_values(st, args, ans, depth).1 is Value));
            }
            if let Flow::Value(vs2) = arg_values(st1, args.drop_first(), ans, depth).1 {
                let vs = seq![v] + vs2;
                assert(arg_values(st, args, ans, depth).1 == Flow::Value(vs));
                assert(sem_args(st, params, args, scope, ans, depth) == sem_args(st1, rest, args.drop_first(), sc, ans, depth));
                assert(vs.len() == params.len());
                let out = sem_args(st1, rest, args.drop_first(), sc, ans, depth).1->Value_0;
                assert forall|i: int| 0 <= i < params.len() implies out.contains_key(#[trigger] params[i]) && out[params[i]]
                    == vs[i] by {
                    if i == 0 {
                        assert(sc.contains_key(params[0]) && sc[params[0]] == v);
                        assert(out.contains_key(params[0]) == sc.contains_key(params[0]));
                        assert(vs[0] == v);
                    } else {
                        assert(params[i] == rest[i - 1]);
                        assert(vs[i] == vs2[i - 1]);
                    }
                }
                assert forall|k: Seq<char>|
                    #![trigger out.contains_key(k)]
                    !params.contains(k) implies (out.contains_key(k) == scope.contains_key(k) && (scope.contains_key(k)
                        ==> out[k] == scope[k])) by {
                    assert(k != params[0]) by {
                        if k == params[0] {
                            assert(params.contains(params[0]));
                        }
                    }
                    if rest.contains(k) {
                        let j = choose|j: int| 0 <= j < rest.len() && rest[j] == k;
                        assert(params[j + 1] == k);
                    }
                }
                lemma_binds_intro(out, scope, params, vs);
            }
        } else {
            assert(!(arg_values(st, args, ans, depth).1 is Value));
        }
    } else {
        assert(arg_values(st, args, ans, depth).1 == Flow::Value(Seq::<Object>::empty()));
        assert(sem_args(st, params, args, scope, ans, depth).1 == Flow::Value(scope));
        assert(binds(scope, scope, params, Seq::<Object>::empty()));
    }
}

/// A call binds its arguments to its parameters in order: the arguments are
/// evaluated left to right, giving values `v0, v1, ...`, and the local
/// scope that the call's body runs in maps the `i`-th parameter to `vi` and
/// holds no other name. (Evaluation of the arguments that stops stops the
/// call in the same way, in the same state.)
pub proof fn law_arguments_bind_in_order(
    st: State,
    params: Seq<Seq<char>>,
    args: Seq<ExprView>,
    ans: Seq<(QueryView, Object)>,
    depth: nat,
)
    requires
        params.len() == args.len(),
        params.no_duplicates(),
    ensures
        sem_args(st, params, args, Map::empty(), ans, depth).0 == arg_values(st, args, ans, depth).0,
        arg_values(st, args, ans, depth).1 matches Flow::Value(vs) ==> (sem_args(st, params, args, Map::empty(), ans, depth).1
            matches Flow::Value(scope) && scope.dom() == params.to_set() && forall|i: int|
            0 <= i < params.len() ==> scope[#[trigger] params[i]] == vs[i]),
        !(arg_values(st, args, ans, depth).1 is Value) ==> !(sem_args(st, params, args, Map::empty(), ans, depth).1 is Value),
{
    lemma_args_bind(st, params, args, Map::empty(), ans, depth);
    if let Flow::Value(vs) = arg_values(st, args, ans, depth).1 {
        let scope = sem_args(st, params, args, Map::empty(), ans, depth).1->Value_0;
        assert forall|k: Seq<char>| #[trigger] scope.dom().contains(k) == params.to_set().contains(k) by {
            if params.contains(k) {
                let j = choose|j: int| 0 <= j < params.len() && params[j] == k;
                assert(scope.contains_key(params[j]));
            }
        }
        assert(scope.dom() =~= params.to_set());
    }
}

/// A variable reads back the value last given to it.
pub proof fn law_read_after_assign(st: State, name: Seq<char>, v: Object)
    ensures
        lookup_var(assign_var(st, name, v), name) == Flow::Value(v),
{
}

/// A group evaluates as the expression inside it.
pub proof fn law_group_is_transparent(st: State, e: ExprView, ans: Seq<(QueryView, Object)>, depth: nat)
    ensures
        sem_expr(st, ExprView::Group(Box::new(e)), ans, depth) == sem_expr(st, e, ans, depth),
{
}

/// A variable is read from the innermost local scope, else from the
/// globals, else it is missing; reading it changes nothing.
pub proof fn law_variable_read(st: State, name: Seq<char>, ans: Seq<(QueryView, Object)>, depth: nat)
    ensures
        sem_expr(st, ExprView::Var(name), ans, depth) == (st, if st.locals.len() > 0
            && st.locals.last().contains_key(name) {
            Flow::Value(st.locals.last()[name])
        } else if st.globals.contains_key(name) {
            Flow::Value(st.globals[name])
        } else {
            Flow::Fail("variable '"@ + name + "' not found"@)
        }),
{
}

/// A binary expression evaluates its left operand, then its right one, and
/// then applies the operator: on two numbers, an arithmetic operator or a
/// comparison gives the answer to its query, and a division first asks
/// whether the divisor is zero and fails if it is; on two truth values only
/// `==` applies; any other pair of operands fails.
pub proof fn law_binary_operands(
    st: State,
    l: ExprView,
    op: TokenView,
    r: ExprView,
    ans: Seq<(QueryView, Object)>,
    depth: nat,
    x: Object,
    y: Object,
)
    requires
        sem_expr(st, l, ans, depth).1 == Flow::Value(x),
        sem_expr(sem_expr(st, l, ans, depth).0, r, ans, depth).1 == Flow::Value(y),
    ensures
        sem_expr(st, ExprView::Binary(Box::new(l), op, Box::new(r)), ans, depth) == (
            sem_expr(sem_expr(st, l, ans, depth).0, r, ans, depth).0,
            binary_value(op, x, y, ans),
        ),
        (x, y) matches (Object::Number(a), Object::Number(b)) ==> binary_value(op, x, y, ans) == match arith_of(op) {
            None => Flow::Fail(invalid_binary()),
            Some(Arith::Divide) => if answer(ans, QueryView::IsZero(b)) == Some(Object::Bool(true)) {
                Flow::Fail("division by zero"@)
            } else if answer(ans, QueryView::IsZero(b)) is None {
                Flow::Need(QueryView::IsZero(b))
            } else {
                ask(ans, QueryView::Binary(Arith::Divide, a, b))
            },
            Some(k) => ask(ans, QueryView::Binary(k, a, b)),
        },
        (x, y) matches (Object::Bool(p), Object::Bool(q)) ==> binary_value(op, x, y, ans) == if op is Equal {
            Flow::Value(Object::Bool(p == q))
        } else {
            Flow::Fail(invalid_binary())
        },
        (x is Number) != (y is Number) ==> binary_value(op, x, y, ans) == Flow::<Object>::Fail(invalid_binary()),
{
}

/// A unary expression evaluates its operand and then applies the operator:
/// `-` on a number gives the answer to its negation query, `+` on a number
/// gives the number, and anything else fails.
pub proof fn law_unary_operand(st: State, op: TokenView, e: ExprView, ans: Seq<(QueryView, Object)>, depth: nat, x: Object)
    requires
        sem_expr(st, e, ans, depth).1 == Flow::Value(x),
    ensures
        sem_expr(st, ExprView::Unary(op, Box::new(e)), ans, depth) == (
            sem_expr(st, e, ans, depth).0,
            match x {
                Object::Number(a) => if op is Minus {
                    ask(ans, QueryView::Negate(a))
                } else if op is Plus {
                    Flow::Value(x)
                } else {
                    Flow::Fail("invalid unary operands"@)
                },
                Object::Bool(_) => Flow::Fail("invalid unary operands"@),
            },
        ),
{
}

/// An assignment evaluates its expression and gives the variable its value:
/// in the innermost local scope when there is one, else among the globals;
/// nothing else changes.
pub proof fn law_assignment(st: State, name: Seq<char>, e: ExprView, ans: Seq<(QueryView, Object)>, depth: nat, v: Object)
    requires
        sem_expr(st, e, ans, depth).1 == Flow::Value(v),
    ensures
        ({
            let st1 = sem_expr(st, e, ans, depth).0;
            let (st2, f) = sem_stmt(st, StmtView::Assign(name, e), ans, depth);
            &&& f == Flow::<Option<Object>>::Value(None)
            &&& st2.funcs == st1.funcs
            &&& st2.output == st1.output
            &&& st2.locals.len() == st1.locals.len()
            &&& st1.locals.len() == 0 ==> st2.globals == st1.globals.insert(name, v)
            &&& st1.locals.len() > 0 ==> {
                &&& st2.globals == st1.globals
                &&& st2.locals.last() == st1.locals.last().insert(name, v)
                &&& forall|i: int| 0 <= i < st1.locals.len() - 1 ==> #[trigger] st2.locals[i] == st1.locals[i]
            }
        }),
{
}

/// A `print` statement evaluates its expression and appends the value to
/// what was printed; nothing else changes.
pub proof fn law_print(st: State, e: ExprView, ans: Seq<(QueryView, Object)>, depth: nat, v: Object)
    requires
        sem_expr(st, e, ans, depth).1 == Flow::Value(v),
    ensures
        sem_stmt(st, StmtView::Print(e), ans, depth) == ({
            let st1 = sem_expr(st, e, ans, depth).0;
            (State { output: st1.output.push(v), ..st1 }, Flow::<Option<Object>>::Value(None))
        }),
{
}

/// An expression statement evaluates its expression and drops the value: it
/// ends in the same state, and fails, waits or stops as the expression does.
pub proof fn law_expression_statement(st: State, e: ExprView, ans: Seq<(QueryView, Object)>, depth: nat)
    ensures
        sem_stmt(st, StmtView::Expression(e), ans, depth).0 == sem_expr(st, e, ans, depth).0,
        sem_stmt(st, StmtView::Expression(e), ans, depth).1 == match sem_expr(st, e, ans, depth).1 {
            Flow::Value(_) => Flow::<Option<Object>>::Value(None),
            Flow::Fail(m) => Flow::Fail(m),
            Flow::Need(q) => Flow::Need(q),
            Flow::Deep => Flow::Deep,
        },
{
}

/// Inside a call, a `return` whose expression has a value ends the
/// statements with that value: none of the statements after it runs.
pub proof fn law_return_ends_the_statements(
    st: State,
    e: ExprView,
    rest: Seq<StmtView>,
    ans: Seq<(QueryView, Object)>,
    depth: nat,
    v: Object,
)
    requires
        st.locals.len() > 0,
        sem_expr(st, e, ans, depth).1 == Flow::Value(v),
    ensures
        sem_stmts(st, seq![StmtView::Return(e)] + rest, ans, depth) == (
            sem_expr(st, e, ans, depth).0,
            Flow::Value(Some(v)),
        ),
{
    let ss = seq![StmtView::Return(e)] + rest;
    assert(ss[0] == StmtView::Return(e));
    assert(ss.len() > 0);
    assert(sem_stmt(st, ss[0], ans, depth) == (sem_expr(st, e, ans, depth).0, Flow::Value(Some(v))));
}

/// `st2` keeps what `st` had printed, as the start of its own output, and
/// every function that `st` had defined, unchanged.
pub open spec fn keeps(st: State, st2: State) -> bool {
    &&& st.output.len() <= st2.output.len()
    &&& forall|i: int| 0 <= i < st.output.len() ==> #[trigger] st2.output[i] == st.output[i]
    &&& forall|k: Seq<char>| #[trigger] st.funcs.contains_key(k) ==> st2.funcs.contains_key(k) && st2.funcs[k] == st.funcs[k]
}

proof fn lemma_expr_keeps(st: State, e: ExprView, ans: Seq<(QueryView, Object)>, depth: nat)
    ensures
        keeps(st, sem_expr(st, e, ans, depth).0),
    decreases depth, expr_size(e), 0nat,
{
    match e {
        ExprView::Group(g) => lemma_expr_keeps(st, *g, ans, depth),
        ExprView::Unary(op, r) => lemma_expr_keeps(st, *r, ans, depth),
        ExprView::Binary(l, op, r) => {
            lemma_expr_keeps(st, *l, ans, depth);
            if let (st1, Flow::Value(x)) = sem_expr(st, *l, ans, depth) {
                lemma_expr_keeps(st1, *r, ans, depth);
            }
        },
        ExprView::Call(name, args) => lemma_call_keeps(st, name, args, ans, depth),
        _ => {},
    }
}

proof fn lemma_args_keeps(
    st: State,
    params: Seq<Seq<char>>,
    args: Seq<ExprView>,
    scope: Map<Seq<char>, Object>,
    ans: Seq<(QueryView, Object)>,
    depth: nat,
)
    ensures
        keeps(st, sem_args(st, params, args, scope, ans, depth).0),
    decreases depth, exprs_size(args), 1nat,
{
    if args.len() > 0 {
        lemma_sizes_positive(args[0], StmtView::Body(Seq::empty()));
        lemma_expr_keeps(st, args[0], ans, depth);
        if let (st1, Flow::Value(v)) = sem_expr(st, args[0], ans, depth) {
            lemma_args_keeps(st1, params.drop_first(), args.drop_first(), scope.insert(params[0], v), ans, depth);
        }
    }
}

proof fn lemma_call_keeps(st: State, name: Seq<char>, args: Seq<ExprView>, ans: Seq<(QueryView, Object)>, depth: nat)
    ensures
        keeps(st, sem_call(st, name, args, ans, depth).0),
    decreases depth, exprs_size(args), 2nat,
{
    if st.funcs.contains_key(name) {
        let f = st.funcs[name];
        if args.len() == f.params.len() {
            lemma_args_keeps(st, f.params, args, Map::empty(), ans, depth);
            if let (st1, Flow::Value(scope)) = sem_args(st, f.params, args, Map::empty(), ans, depth) {
                if depth > 0 {
                    let st2 = State { locals: st1.locals.push(scope), ..st1 };
                    lemma_block_keeps(st2, f.body, ans, (depth - 1) as nat);
                }
            }
        }
    }
}

proof fn lemma_stmt_keeps(st: State, s: StmtView, ans: Seq<(QueryView, Object)>, depth: nat)
    ensures
        keeps(st, sem_stmt(st, s, ans, depth).0),
    decreases depth, stmt_size(s), 0nat,
{
    match s {
        StmtView::If(c, b, e) => {
            lemma_expr_keeps(st, c, ans, depth);
            let (st1, fc) = sem_expr(st, c, ans, depth);
            match fc {
                Flow::Value(Object::Bool(true)) => lemma_block_keeps(st1, *b, ans, depth),
                Flow::Value(Object::Bool(false)) => if let Some(eb) = e {
                    lemma_block_keeps(st1, *eb, ans, depth);
                },
                _ => {},
            }
        },
        StmtView::Assign(_, e) => lemma_expr_keeps(st, e, ans, depth),
        StmtView::Print(e) => lemma_expr_keeps(st, e, ans, depth),
        StmtView::Return(e) => lemma_expr_keeps(st, e, ans, depth),
        StmtView::Expression(e) => lemma_expr_keeps(st, e, ans, depth),
        StmtView::Body(v) => lemma_stmts_keeps(st, v, ans, depth),
        StmtView::Func(_, _, _) => {},
    }
}

proof fn lemma_stmts_keeps(st: State, ss: Seq<StmtView>, ans: Seq<(QueryView, Object)>, depth: nat)
    ensures
        keeps(st, sem_stmts(st, ss, ans, depth).0),
    decreases depth, stmts_size(ss), 1nat,
{
    if ss.len() > 0 {
        lemma_sizes_positive(ExprView::Bool(true), ss[0]);
        lemma_stmt_keeps(st, ss[0], ans, depth);
        if let (st1, Flow::Value(None)) = sem_stmt(st, ss[0], ans, depth) {
            lemma_stmts_keeps(st1, ss.drop_first(), ans, depth);
        }
    }
}

proof fn lemma_block_keeps(st: State, b: StmtView, ans: Seq<(QueryView, Object)>, depth: nat)
    ensures
        keeps(st, sem_block(st, b, ans, depth).0),
    decreases depth, stmt_size(b), 2nat,
{
    match b {
        StmtView::Body(v) => lemma_stmts_keeps(st, v, ans, depth),
        _ => lemma_stmt_keeps(st, b, ans, depth),
    }
}

/// Running a program never takes back what was printed, and never drops or
/// changes a function once it is defined.
pub proof fn law_output_and_functions_kept(st: State, stmts: Seq<StmtView>, ans: Seq<(QueryView, Object)>, depth: nat)
    ensures
        keeps(st, sem_program(st, stmts, ans, depth).0),
{
    lemma_stmts_keeps(st, stmts, ans, depth);
}

/// An `if` evaluates its condition and runs the branch it selects: `true`
/// runs the first block; `false` runs the `else` block if there is one and
/// otherwise does nothing more; a number fails. A `return` in the branch is
/// passed on, a runtime error in the branch is dropped (the statement then
/// ends without a value, in the state the branch left), and a wait or a
/// stop for depth is passed on.
pub proof fn law_if_statement(
    st: State,
    c: ExprView,
    b: StmtView,
    e: Option<Box<StmtView>>,
    ans: Seq<(QueryView, Object)>,
    depth: nat,
)
    ensures
        ({
            let (st1, fc) = sem_expr(st, c, ans, depth);
            let (st2, f) = sem_stmt(st, StmtView::If(c, Box::new(b), e), ans, depth);
            let chosen = match fc {
                Flow::Value(Object::Bool(true)) => Some(b),
                Flow::Value(Object::Bool(false)) => match e {
                    Some(eb) => Some(*eb),
                    None => None,
                },
                _ => None,
            };
            &&& fc == Flow::<Object>::Value(Object::Bool(false)) && e is None ==> st2 == st1 && f
                == Flow::<Option<Object>>::Value(None)
            &&& fc matches Flow::Value(Object::Number(_)) ==> st2 == st1 && f
                == Flow::<Option<Object>>::Fail("invalid expression for if statement"@)
            &&& fc matches Flow::Fail(m) ==> st2 == st1 && f == Flow::<Option<Object>>::Fail(m)
            &&& fc matches Flow::Need(q) ==> st2 == st1 && f == Flow::<Option<Object>>::Need(q)
            &&& fc is Deep ==> st2 == st1 && f == Flow::<Option<Object>>::Deep
            &&& chosen matches Some(blk) ==> {
                let (st3, fb) = sem_block(st1, blk, ans, depth);
                &&& st2 == st3
                &&& fb matches Flow::Value(r) ==> f == Flow::Value(r)
                &&& fb is Fail ==> f == Flow::<Option<Object>>::Value(None)
                &&& fb matches Flow::Need(q) ==> f == Flow::<Option<Object>>::Need(q)
                &&& fb is Deep ==> f == Flow::<Option<Object>>::Deep
            }
        }),
{
}

/// Running `s1` and then `s2` is running `s1` and, if it ended without a
/// value, then `s2` from the state it left; otherwise the run ends as `s1`
/// ended.
pub proof fn law_runs_compose(st: State, s1: Seq<StmtView>, s2: Seq<StmtView>, ans: Seq<(QueryView, Object)>, depth: nat)
    ensures
        sem_program(st, s1 + s2, ans, depth) == match sem_program(st, s1, ans, depth) {
            (st1, Flow::Value(None)) => sem_program(st1, s2, ans, depth),
            r => r,
        },
    decreases s1.len(),
{
    if s1.len() == 0 {
        assert(s1 + s2 =~= s2);
    } else {
        let ss = s1 + s2;
        assert(ss[0] == s1[0]);
        assert(ss.drop_first() =~= s1.drop_first() + s2);
        let (st1, f) = sem_stmt(st, s1[0], ans, depth);
        if f == Flow::<Option<Object>>::Value(None) {
            law_runs_compose(st1, s1.drop_first(), s2, ans, depth);
        }
    }
}

/// `st2` has the functions and globals of `st`, and at least as many local
/// scopes.
pub open spec fn frames_only(st: State, st2: State) -> bool {
    &&& st2.funcs == st.funcs
    &&& st2.globals == st.globals
    &&& st2.locals.len() >= st.locals.len()
}

proof fn lemma_expr_frames(st: State, e: ExprView, ans: Seq<(QueryView, Object)>, depth: nat)
    ensures
        frames_only(st, sem_expr(st, e, ans, depth).0),
    decreases depth, expr_size(e), 0nat,
{
    match e {
        ExprView::Group(g) => lemma_expr_frames(st, *g, ans, depth),
        ExprView::Unary(op, r) => lemma_expr_frames(st, *r, ans, depth),
        ExprView::Binary(l, op, r) => {
            lemma_expr_frames(st, *l, ans, depth);
            if let (st1, Flow::Value(x)) = sem_expr(st, *l, ans, depth) {
                lemma_expr_frames(st1, *r, ans, depth);
            }
        },
        ExprView::Call(name, args) => lemma_call_frames(st, name, args, ans, depth),
        _ => {},
    }
}

proof fn lemma_args_frames(
    st: State,
    params: Seq<Seq<char>>,
    args: Seq<ExprView>,
    scope: Map<Seq<char>, Object>,
    ans: Seq<(QueryView, Object)>,
    depth: nat,
)
    ensures
        frames_only(st, sem_args(st, params, args, scope, ans, depth).0),
    decreases depth, exprs_size(args), 1nat,
{
    if args.len() > 0 {
        lemma_sizes_positive(args[0], StmtView::Body(Seq::empty()));
        lemma_expr_frames(st, args[0], ans, depth);
        if let (st1, Flow::Value(v)) = sem_expr(st, args[0], ans, depth) {
            lemma_args_frames(st1, params.drop_first(), args.drop_first(), scope.insert(params[0], v), ans, depth);
        }
    }
}

proof fn lemma_call_frames(st: State, name: Seq<char>, args: Seq<ExprView>, ans: Seq<(QueryView, Object)>, depth: nat)
    ensures
        frames_only(st, sem_call(st, name, args, ans, depth).0),
    decreases depth, exprs_size(args), 2nat,
{
    if st.funcs.contains_key(name) {
        let f = st.funcs[name];
        if args.len() == f.params.len() {
            lemma_args_frames(st, f.params, args, Map::empty(), ans, depth);
            if let (st1, Flow::Value(scope)) = sem_args(st, f.params, args, Map::empty(), ans, depth) {
                if depth > 0 {
                    let st2 = State { locals: st1.locals.push(scope), ..st1 };
                    lemma_block_frames(st2, f.body, ans, (depth - 1) as nat);
                }
            }
        }
    }
}

proof fn lemma_stmt_frames(st: State, s: StmtView, ans: Seq<(QueryView, Object)>, depth: nat)
    requires
        st.locals.len() > 0,
    ensures
        frames_only(st, sem_stmt(st, s, ans, depth).0),
    decreases depth, stmt_size(s), 0nat,
{
    match s {
        StmtView::If(c, b, e) => {
            lemma_expr_frames(st, c, ans, depth);
            let (st1, fc) = sem_expr(st, c, ans, depth);
            match fc {
                Flow::Value(Object::Bool(true)) => lemma_block_frames(st1, *b, ans, depth),
                Flow::Value(Object::Bool(false)) => if let Some(eb) = e {
                    lemma_block_frames(st1, *eb, ans, depth);
                },
                _ => {},
            }
        },
        StmtView::Assign(_, e) => lemma_expr_frames(st, e, ans, depth),
        StmtView::Print(e) => lemma_expr_frames(st, e, ans, depth),
        StmtView::Return(e) => lemma_expr_frames(st, e, ans, depth),
        StmtView::Expression(e) => lemma_expr_frames(st, e, ans, depth),
        StmtView::Body(v) => lemma_stmts_frames(st, v, ans, depth),
        StmtView::Func(_, _, _) => {},
    }
}

proof fn lemma_stmts_frames(st: State, ss: Seq<StmtView>, ans: Seq<(QueryView, Object)>, depth: nat)
    requires
        st.locals.len() > 0,
    ensures
        frames_only(st, sem_stmts(st, ss, ans, depth).0),
    decreases depth, stmts_size(ss), 1nat,
{
    if ss.len() > 0 {
        lemma_sizes_positive(ExprView::Bool(true), ss[0]);
        lemma_stmt_frames(st, ss[0], ans, depth);
        if let (st1, Flow::Value(None)) = sem_stmt(st, ss[0], ans, depth) {
            lemma_stmts_frames(st1, ss.drop_first(), ans, depth);
        }
    }
}

proof fn lemma_block_frames(st: State, b: StmtView, ans: Seq<(QueryView, Object)>, depth: nat)
    requires
        st.locals.len() > 0,
    ensures
        frames_only(st, sem_block(st, b, ans, depth).0),
    decreases depth, stmt_size(b), 2nat,
{
    match b {
        StmtView::Body(v) => lemma_stmts_frames(st, v, ans, depth),
        _ => lemma_stmt_frames(st, b, ans, depth),
    }
}

/// Evaluating an expression, whatever its end, never defines a function or
/// changes a global, and never leaves fewer local scopes than it found; the
/// same holds of statements run inside a call.
pub proof fn law_expressions_keep_functions_and_globals(
    st: State,
    e: ExprView,
    ss: Seq<StmtView>,
    ans: Seq<(QueryView, Object)>,
    depth: nat,
)
    ensures
        frames_only(st, sem_expr(st, e, ans, depth).0),
        st.locals.len() > 0 ==> frames_only(st, sem_stmts(st, ss, ans, depth).0),
{
    lemma_expr_frames(st, e, ans, depth);
    if st.locals.len() > 0 {
        lemma_stmts_frames(st, ss, ans, depth);
    }
}

/// No `if` drops a runtime error while the expression `e` is evaluated.
pub open spec fn no_drop_expr(st: State, e: ExprView, ans: Seq<(QueryView, Object)>, depth: nat) -> bool
    decreases depth, expr_size(e), 0nat,
{
    match e {
        ExprView::Group(g) => no_drop_expr(st, *g, ans, depth),
        ExprView::Unary(_, r) => no_drop_expr(st, *r, ans, depth),
        ExprView::Binary(l, _, r) => no_drop_expr(st, *l, ans, depth) && match sem_expr(st, *l, ans, depth) {
            (st1, Flow::Value(_)) => no_drop_expr(st1, *r, ans, depth),
            _ => true,
        },
        ExprView::Call(name, args) => no_drop_call(st, name, args, ans, depth),
        _ => true,
    }
}

/// No `if` drops a runtime error while the arguments `args` are evaluated.
pub open spec fn no_drop_args(
    st: State,
    params: Seq<Seq<char>>,
    args: Seq<ExprView>,
    scope: Map<Seq<char>, Object>,
    ans: Seq<(QueryView, Object)>,
    depth: nat,
) -> bool
    decreases depth, exprs_size(args), 1nat,
{
    if args.len() == 0 {
        true
    } else {
        proof {
            lemma_sizes_positive(args[0], StmtView::Body(Seq::empty()));
        }
        no_drop_expr(st, args[0], ans, depth) && match sem_expr(st, args[0], ans, depth) {
            (st1, Flow::Value(v)) => no_drop_args(st1, params.drop_first(), args.drop_first(), scope.insert(params[0], v), ans, depth),
            _ => true,
        }
    }
}

/// No `if` drops a runtime error during the call of `name` on `args`.
pub open spec fn no_drop_call(st: State, name: Seq<char>, args: Seq<ExprView>, ans: Seq<(QueryView, Object)>, depth: nat) -> bool
    decreases depth, exprs_size(args), 2nat,
{
    if st.funcs.contains_key(name) && args.len() == st.funcs[name].params.len() {
        let f = st.funcs[name];
        no_drop_args(st, f.params, args, Map::empty(), ans, depth) && match sem_args(st, f.params, args, Map::empty(), ans, depth) {
            (st1, Flow::Value(scope)) => if depth > 0 {
                no_drop_block(State { locals: st1.locals.push(scope), ..st1 }, f.body, ans, (depth - 1) as nat)
            } else {
                true
            },
            _ => true,
        }
    } else {
        true
    }
}

/// No `if` drops a runtime error while the statement `s` runs.
pub open spec fn no_drop_stmt(st: State, s: StmtView, ans: Seq<(QueryView, Object)>, depth: nat) -> bool
    decreases depth, stmt_size(s), 0nat,
{
    match s {
        StmtView::If(c, b, e) => no_drop_expr(st, c, ans, depth) && match sem_expr(st, c, ans, depth) {
            (st1, Flow::Value(Object::Bool(true))) => no_drop_block(st1, *b, ans, depth) && !(sem_block(st1, *b, ans, depth).1 is Fail),
            (st1, Flow::Value(Object::Bool(false))) => match e {
                Some(eb) => no_drop_block(st1, *eb, ans, depth) && !(sem_block(st1, *eb, ans, depth).1 is Fail),
                None => true,
            },
            _ => true,
        },
        StmtView::Assign(_, e) => no_drop_expr(st, e, ans, depth),
        StmtView::Print(e) => no_drop_expr(st, e, ans, depth),
        StmtView::Return(e) => no_drop_expr(st, e, ans, depth),
        StmtView::Expression(e) => no_drop_expr(st, e, ans, depth),
        StmtView::Body(v) => no_drop_stmts(st, v, ans, depth),
        StmtView::Func(_, _, _) => true,
    }
}

/// No `if` drops a runtime error while the statements `ss` run.
pub open spec fn no_drop_stmts(st: State, ss: Seq<StmtView>, ans: Seq<(QueryView, Object)>, depth: nat) -> bool
    decreases depth, stmts_size(ss), 1nat,
{
    if ss.len() == 0 {
        true
    } else {
        proof {
            lemma_sizes_positive(ExprView::Bool(true), ss[0]);
        }
        no_drop_stmt(st, ss[0], ans, depth) && match sem_stmt(st, ss[0], ans, depth) {
            (st1, Flow::Value(None)) => no_drop_stmts(st1, ss.drop_first(), ans, depth),
            _ => true,
        }
    }
}

/// No `if` drops a runtime error while the block `b` runs.
pub open spec fn no_drop_block(st: State, b: StmtView, ans: Seq<(QueryView, Object)>, depth: nat) -> bool
    decreases depth, stmt_size(b), 2nat,
{
    match b {
        StmtView::Body(v) => no_drop_stmts(st, v, ans, depth),
        _ => no_drop_stmt(st, b, ans, depth),
    }
}

/// `st2` has as many local scopes as `st`, and the same ones but for the
/// innermost.
pub open spec fn same_outer_scopes(st: State, st2: State) -> bool {
    &&& st2.locals.len() == st.locals.len()
    &&& forall|i: int| 0 <= i < st.locals.len() - 1 ==> #[trigger] st2.locals[i] == st.locals[i]
}

proof fn lemma_expr_restores(st: State, e: ExprView, ans: Seq<(QueryView, Object)>, depth: nat)
    ensures
        no_drop_expr(st, e, ans, depth) && sem_expr(st, e, ans, depth).1 is Value ==> sem_expr(st, e, ans, depth).0.locals
            == st.locals,
    decreases depth, expr_size(e), 0nat,
{
    match e {
        ExprView::Group(g) => lemma_expr_restores(st, *g, ans, depth),
        ExprView::Unary(op, r) => lemma_expr_restores(st, *r, ans, depth),
        ExprView::Binary(l, op, r) => {
            lemma_expr_restores(st, *l, ans, depth);
            if let (st1, Flow::Value(x)) = sem_expr(st, *l, ans, depth) {
                lemma_expr_restores(st1, *r, ans, depth);
            }
        },
        ExprView::Call(name, args) => lemma_call_restores(st, name, args, ans, depth),
        _ => {},
    }
}

proof fn lemma_args_restores(
    st: State,
    params: Seq<Seq<char>>,
    args: Seq<ExprView>,
    scope: Map<Seq<char>, Object>,
    ans: Seq<(QueryView, Object)>,
    depth: nat,
)
    ensures
        no_drop_args(st, params, args, scope, ans, depth) && sem_args(st, params, args, scope, ans, depth).1 is Value
            ==> sem_args(st, params, args, scope, ans, depth).0.locals == st.locals,
    decreases depth, exprs_size(args), 1nat,
{
    if args.len() > 0 {
        lemma_sizes_positive(args[0], StmtView::Body(Seq::empty()));
        lemma_expr_restores(st, args[0], ans, depth);
        if let (st1, Flow::Value(v)) = sem_expr(st, args[0], ans, depth) {
            lemma_args_restores(st1, params.drop_first(), args.drop_first(), scope.insert(params[0], v), ans, depth);
        }
    }
}

proof fn lemma_call_restores(st: State, name: Seq<char>, args: Seq<ExprView>, ans: Seq<(QueryView, Object)>, depth: nat)
    ensures
        no_drop_call(st, name, args, ans, depth) && sem_call(st, name, args, ans, depth).1 is Value ==> sem_call(
            st,
            name,
            args,
            ans,
            depth,
        ).0.locals == st.locals,
    decreases depth, exprs_size(args), 2nat,
{
    if st.funcs.contains_key(name) {
        let f = st.funcs[name];
        if args.len() == f.params.len() {
            lemma_args_restores(st, f.params, args, Map::empty(), ans, depth);
            if let (st1, Flow::Value(scope)) = sem_args(st, f.params, args, Map::empty(), ans, depth) {
                if depth > 0 {
                    let st2 = State { locals: st1.locals.push(scope), ..st1 };
                    lemma_block_restores(st2, f.body, ans, (depth - 1) as nat);
                    let (st3, fb) = sem_block(st2, f.body, ans, (depth - 1) as nat);
                    if no_drop_call(st, name, args, ans, depth) && sem_call(st, name, args, ans, depth).1 is Value {
                        assert(st3.locals.drop_last() =~= st1.locals);
                    }
                }
            }
        }
    }
}

proof fn lemma_stmt_restores(st: State, s: StmtView, ans: Seq<(QueryView, Object)>, depth: nat)
    requires
        st.locals.len() > 0,
    ensures
        no_drop_stmt(st, s, ans, depth) && sem_stmt(st, s, ans, depth).1 is Value ==> same_outer_scopes(
            st,
            sem_stmt(st, s, ans, depth).0,
        ),
    decreases depth, stmt_size(s), 0nat,
{
    match s {
        StmtView::If(c, b, e) => {
            lemma_expr_restores(st, c, ans, depth);
            lemma_expr_frames(st, c, ans, depth);
            let (st1, fc) = sem_expr(st, c, ans, depth);
            match fc {
                Flow::Value(Object::Bool(true)) => lemma_block_restores(st1, *b, ans, depth),
                Flow::Value(Object::Bool(false)) => if let Some(eb) = e {
                    lemma_block_restores(st1, *eb, ans, depth);
                },
                _ => {},
            }
        },
        StmtView::Assign(_, e) => lemma_expr_restores(st, e, ans, depth),
        StmtView::Print(e) => lemma_expr_restores(st, e, ans, depth),
        StmtView::Return(e) => lemma_expr_restores(st, e, ans, depth),
        StmtView::Expression(e) => lemma_expr_restores(st, e, ans, depth),
        StmtView::Body(v) => lemma_stmts_restores(st, v, ans, depth),
        StmtView::Func(_, _, _) => {},
    }
}

proof fn lemma_stmts_restores(st: State, ss: Seq<StmtView>, ans: Seq<(QueryView, Object)>, depth: nat)
    requires
        st.locals.len() > 0,
    ensures
        no_drop_stmts(st, ss, ans, depth) && sem_stmts(st, ss, ans, depth).1 is Value ==> same_outer_scopes(
            st,
            sem_stmts(st, ss, ans, depth).0,
        ),
    decreases depth, stmts_size(ss), 1nat,
{
    if ss.len() > 0 {
        lemma_sizes_positive(ExprView::Bool(true), ss[0]);
        lemma_stmt_restores(st, ss[0], ans, depth);
        lemma_stmt_frames(st, ss[0], ans, depth);
        if let (st1, Flow::Value(None)) = sem_stmt(st, ss[0], ans, depth) {
            lemma_stmts_restores(st1, ss.drop_first(), ans, depth);
        }
    }
}

proof fn lemma_block_restores(st: State, b: StmtView, ans: Seq<(QueryView, Object)>, depth: nat)
    requires
        st.locals.len() > 0,
    ensures
        no_drop_block(st, b, ans, depth) && sem_block(st, b, ans, depth).1 is Value ==> same_outer_scopes(
            st,
            sem_block(st, b, ans, depth).0,
        ),
    decreases depth, stmt_size(b), 2nat,
{
    match b {
        StmtView::Body(v) => lemma_stmts_restores(st, v, ans, depth),
        _ => lemma_stmt_restores(st, b, ans, depth),
    }
}

/// When no `if` drops a runtime error along the way, calls give back the
/// local scopes they found: an expression that ends with a value leaves the
/// local scopes exactly as they were, and statements run inside a call that
/// end without failing change no scope but the innermost one.
pub proof fn law_calls_restore_scopes(
    st: State,
    e: ExprView,
    ss: Seq<StmtView>,
    ans: Seq<(QueryView, Object)>,
    depth: nat,
)
    ensures
        no_drop_expr(st, e, ans, depth) && sem_expr(st, e, ans, depth).1 is Value ==> sem_expr(st, e, ans, depth).0.locals
            == st.locals,
        st.locals.len() > 0 && no_drop_stmts(st, ss, ans, depth) && sem_stmts(st, ss, ans, depth).1 is Value
            ==> same_outer_scopes(st, sem_stmts(st, ss, ans, depth).0),
{
    lemma_expr_restores(st, e, ans, depth);
    if st.locals.len() > 0 {
        lemma_stmts_restores(st, ss, ans, depth);
    }
}

/// At global scope, defining a function that is already defined fails, and
/// leaves the definition as it was.
pub proof fn law_redefinition_refused(st: State, name: Seq<char>, params: Seq<Seq<char>>, body: StmtView, ans: Seq<(QueryView, Object)>, depth: nat)
    requires
        st.locals.len() == 0,
        st.funcs.contains_key(name),
    ensures
        sem_stmt(st, StmtView::Func(name, params, Box::new(body)), ans, depth) == (st, Flow::<Option<Object>>::Fail("redefinition of function '"@ + name + "'"@)),
{
}

/// An expression's size is at most that of a sequence that holds it.
pub proof fn lemma_exprs_size_elem(s: Seq<ExprView>, i: int)
    requires
        0 <= i < s.len(),
    ensures
        expr_size(s[i]) <= exprs_size(s),
    decreases s.len(),
{
    if i > 0 {
        lemma_exprs_size_elem(s.drop_first(), i - 1);
    }
}

/// A statement's size is at most that of a sequence that holds it.
pub proof fn lemma_stmts_size_elem(s: Seq<StmtView>, i: int)
    requires
        0 <= i < s.len(),
    ensures
        stmt_size(s[i]) <= stmts_size(s),
    decreases s.len(),
{
    if i > 0 {
        lemma_stmts_size_elem(s.drop_first(), i - 1);
    }
}

/// A runtime error and its message.
pub struct Error {
    msg: String,
}

impl View for Error {
    type V = Seq<char>;

    closed spec fn view(&self) -> Seq<char> {
        self.msg@
    }
}

/// The text that a runtime error is reported with.
pub open spec fn runtime_error_text(msg: Seq<char>) -> Seq<char> {
    "runtime error: "@ + msg
}

impl Error {
    /// A runtime error with the message `msg`.
    pub fn new(msg: String) -> (e: Error)
        ensures
            e@ == msg@,
    {
        Error { msg: msg }
    }

    /// The message.
    pub fn msg(&self) -> (m: &String)
        ensures
            m@ == self@,
    {
        &self.msg
    }

    /// The text that the error is reported with: `runtime error: MESSAGE`.
    pub fn message(&self) -> (s: String)
        ensures
            s@ == runtime_error_text(self@),
    {
        let mut s = "runtime error: ".to_string();
        s.append(self.msg.as_str());
        s
    }
}

/// Why evaluation stopped before its end: a runtime error, a query that
/// the answers do not answer, or calls nested deeper than allowed.
pub enum Halt {
    Error(Error),
    Need(Query),
    Deep,
}

/// How an evaluation that returned `r` ends.
pub open spec fn flow_of<T>(r: Result<T, Halt>) -> Flow<T> {
    match r {
        Ok(v) => Flow::Value(v),
        Err(Halt::Error(e)) => Flow::Fail(e@),
        Err(Halt::Need(q)) => Flow::Need(q@),
        Err(Halt::Deep) => Flow::Deep,
    }
}

/// The result of running a program: finished, with or without a runtime
/// error; waiting for the answer to a query; or stopped because calls nested
/// deeper than the depth the run was given, so that a run with more depth
/// is owed.
pub enum Outcome {
    Done(Result<(), Error>),
    Need(Query),
    TooDeep,
}

/// The outcome `o` reports how a program's run ends, `f`.
pub open spec fn outcome_reports(o: Outcome, f: Flow<Option<Object>>) -> bool {
    match f {
        Flow::Value(_) => o matches Outcome::Done(Ok(())),
        Flow::Fail(m) => o matches Outcome::Done(Err(e)) && e@ == m,
        Flow::Need(q) => o matches Outcome::Need(x) && x@ == q,
        Flow::Deep => o is TooDeep,
    }
}

/// The values of answered queries.
pub open spec fn answers_view(s: Seq<(Query, Object)>) -> Seq<(QueryView, Object)> {
    s.map_values(|p: (Query, Object)| (p.0@, p.1))
}

/// Answered queries, in the order they were answered; each answer is of
/// the kind its query calls for.
pub struct Answers {
    entries: Vec<(Query, Object)>,
}

impl Answers {
    #[verifier::type_invariant]
    closed spec fn fitting(&self) -> bool {
        answers_fit(answers_view(self.entries@))
    }
}

fn is_number(o: &Object) -> (b: bool)
    ensures
        b == (*o is Number),
{
    match o {
        Object::Number(_) => true,
        Object::Bool(_) => false,
    }
}

/// Whether `o` is an answer of the kind that `q` calls for.
pub fn fits(q: &Query, o: &Object) -> (b: bool)
    ensures
        b == answer_fits(q@, *o),
{
    match q {
        Query::Literal(_) => is_number(o),
        Query::Negate(_) => is_number(o),
        Query::IsZero(_) => !is_number(o),
        Query::Binary(k, _, _) => match k {
            Arith::Less | Arith::LessEqual | Arith::Equal | Arith::Greater | Arith::GreaterEqual => !is_number(o),
            _ => is_number(o),
        },
    }
}

impl View for Answers {
    type V = Seq<(QueryView, Object)>;

    closed spec fn view(&self) -> Seq<(QueryView, Object)> {
        answers_view(self.entries@)
    }
}

/// Whether two queries are the same query.
pub fn same_query(a: &Query, b: &Query) -> (r: bool)
    ensures
        r == (a@ == b@),
{
    match (a, b) {
        (Query::Literal(x), Query::Literal(y)) => *x == *y,
        (Query::Binary(k1, a1, b1), Query::Binary(k2, a2, b2)) => *k1 == *k2 && *a1 == *a2 && *b1
            == *b2,
        (Query::Negate(x), Query::Negate(y)) => *x == *y,
        (Query::IsZero(x), Query::IsZero(y)) => *x == *y,
        _ => false,
    }
}

impl Answers {
    /// No answers.
    pub fn new() -> (a: Answers)
        ensures
            a@ == Seq::<(QueryView, Object)>::empty(),
    {
        let a = Answers { entries: Vec::new() };
        assert(answers_view(a.entries@) =~= Seq::<(QueryView, Object)>::empty());
        a
    }

    /// Every answer held is of the kind its query calls for.
    pub fn check_fit(&self)
        ensures
            answers_fit(self@),
    {
        proof {
            use_type_invariant(self);
        }
    }

    /// Adds the answer `o` to the query `q`; the answer must be of the kind
    /// that the query calls for.
    pub fn add(&mut self, q: Query, o: Object)
        requires
            answer_fits(q@, o),
        ensures
            final(self)@ == old(self)@.push((q@, o)),
            answers_fit(final(self)@),
    {
        proof {
            use_type_invariant(&*self);
        }
        let mut entries: Vec<(Query, Object)> = Vec::new();
        assert(answers_view(entries@) =~= Seq::<(QueryView, Object)>::empty());
        std::mem::swap(&mut entries, &mut self.entries);
        entries.push((q, o));
        assert(answers_view(entries@) =~= answers_view(old(self).entries@).push((q@, o)));
        self.entries = entries;
    }

    /// The answer to `q`: that of its first entry.
    pub fn lookup(&self, q: &Query) -> (r: Option<Object>)
        ensures
            r == answer(self@, q@),
    {
        let ghost s = self@;
        let mut i: usize = 0;
        assert(s.skip(0) =~= s);
        while i < self.entries.len()
            invariant
                i <= self.entries.len(),
                s == answers_view(self.entries@),
                answer(s, q@) == answer(s.skip(i as int), q@),
            decreases self.entries.len() - i,
        {
            assert(s.skip(i as int)[0] == s[i as int]);
            if same_query(&self.entries[i].0, q) {
                return Some(self.entries[i].1);
            }
            assert(s.skip(i as int).drop_first() =~= s.skip(i + 1));
            i = i + 1;
        }
        None
    }
}

fn fail<T>(msg: String) -> (r: Result<T, Halt>)
    ensures
        flow_of(r) == Flow::<T>::Fail(msg@),
{
    Err(Halt::Error(Error { msg: msg }))
}

fn message_with(prefix: &str, name: &String, suffix: &str) -> (s: String)
    ensures
        s@ == prefix@ + name@ + suffix@,
{
    let mut s = prefix.to_string();
    s.append(name.as_str());
    s.append(suffix);
    s
}

fn ask_answer(ans: &Answers, q: Query) -> (r: Result<Object, Halt>)
    ensures
        flow_of(r) == ask(ans@, q@),
{
    match ans.lookup(&q) {
        Some(o) => Ok(o),
        None => Err(Halt::Need(q)),
    }
}

fn arith_of_token(op: &Token) -> (k: Option<Arith>)
    ensures
        k == arith_of(op@),
{
    match op {
        Token::Plus => Some(Arith::Add),
        Token::Minus => Some(Arith::Subtract),
        Token::Star => Some(Arith::Multiply),
        Token::Slash => Some(Arith::Divide),
        Token::Caret => Some(Arith::Power),
        Token::Less => Some(Arith::Less),
        Token::LessEqual => Some(Arith::LessEqual),
        Token::Equal => Some(Arith::Equal),
        Token::Greater => Some(Arith::Greater),
        Token::GreaterEqual => Some(Arith::GreaterEqual),
        _ => None,
    }
}

fn unary(op: &Token, x: Object, ans: &Answers) -> (r: Result<Object, Halt>)
    ensures
        flow_of(r) == unary_value(op@, x, ans@),
{
    match x {
        Object::Number(a) => match op {
            Token::Minus => ask_answer(ans, Query::Negate(a)),
            Token::Plus => Ok(x),
            _ => fail("invalid unary operands".to_string()),
        },
        _ => fail("invalid unary operands".to_string()),
    }
}

fn binary(op: &Token, x: Object, y: Object, ans: &Answers) -> (r: Result<Object, Halt>)
    ensures
        flow_of(r) == binary_value(op@, x, y, ans@),
{
    match (x, y) {
        (Object::Number(a), Object::Number(b)) => match arith_of_token(op) {
            Some(Arith::Divide) => match ans.lookup(&Query::IsZero(b)) {
                None => Err(Halt::Need(Query::IsZero(b))),
                Some(Object::Bool(true)) => fail("division by zero".to_string()),
                Some(_) => ask_answer(ans, Query::Binary(Arith::Divide, a, b)),
            },
            Some(k) => ask_answer(ans, Query::Binary(k, a, b)),
            None => fail("invalid binary operands".to_string()),
        },
        (Object::Bool(a), Object::Bool(b)) => match op {
            Token::Equal => Ok(Object::Bool(a == b)),
            _ => fail("invalid binary operands".to_string()),
        },
        _ => fail("invalid binary operands".to_string()),
    }
}

/// A defined function: its parameters and body, in the program.
#[derive(Clone, Copy)]
struct Func<'p> {
    params: &'p Vec<String>,
    body: &'p Stmt,
}

impl<'p> View for Func<'p> {
    type V = FuncView;

    closed spec fn view(&self) -> FuncView {
        FuncView { params: names_view(self.params@), body: self.body@ }
    }
}

/// The values of a stack of scopes.
pub open spec fn scopes_view(s: Seq<Table<Object>>) -> Seq<Map<Seq<char>, Object>> {
    s.map_values(|t: Table<Object>| t@)
}

/// The interpreter's state over a program whose statements live for `'p`.
pub struct Runtime<'p> {
    func_table: Table<Func<'p>>,
    global_scope: Table<Object>,
    local_scope: Vec<Table<Object>>,
    output: Vec<Object>,
}

impl<'p> View for Runtime<'p> {
    type V = State;

    closed spec fn view(&self) -> State {
        State {
            funcs: self.func_table@,
            globals: self.global_scope@,
            locals: scopes_view(self.local_scope@),
            output: self.output@,
        }
    }
}

impl<'p> Runtime<'p> {
    /// The tables keep each name once.
    pub closed spec fn wf(&self) -> bool {
        &&& self.func_table.wf()
        &&& self.global_scope.wf()
        &&& forall|i: int| 0 <= i < self.local_scope.len() ==> #[trigger] self.local_scope@[i].wf()
    }

    /// A runtime with no functions, no variables and nothing printed.
    pub fn new() -> (r: Runtime<'p>)
        ensures
            r.wf(),
            r@ == initial_state(),
    {
        let r = Runtime {
            func_table: Table::new(),
            global_scope: Table::new(),
            local_scope: Vec::new(),
            output: Vec::new(),
        };
        assert(scopes_view(r.local_scope@) =~= Seq::<Map<Seq<char>, Object>>::empty());
        r
    }

    /// The values printed, in order.
    pub fn output(&self) -> (o: &Vec<Object>)
        ensures
            o@ == self@.output,
    {
        &self.output
    }

    fn variable(&self, name: &String) -> (r: Result<Object, Halt>)
        requires
            self.wf(),
        ensures
            flow_of(r) == lookup_var(self@, name@),
    {
        let n = self.local_scope.len();
        if n > 0 {
            assert(self.local_scope@[n - 1].wf());
            if let Some(o) = self.local_scope[n - 1].get(name) {
                return Ok(o);
            }
        }
        match self.global_scope.get(name) {
            Some(o) => Ok(o),
            None => fail(message_with("variable '", name, "' not found")),
        }
    }

    fn assign(&mut self, name: String, v: Object)
        requires
            old(self).wf(),
        ensures
            final(self).wf(),
            final(self)@ == assign_var(old(self)@, name@, v),
    {
        if self.local_scope.len() > 0 {
            let mut top = self.local_scope.pop().unwrap();
            assert(top.wf());
            top.insert(name, v);
            self.local_scope.push(top);
            assert(scopes_view(self.local_scope@) =~= scopes_view(old(self).local_scope@).update(
                old(self).local_scope.len() - 1,
                old(self)@.locals.last().insert(name@, v),
            ));
        } else {
            self.global_scope.insert(name, v);
        }
    }

    fn expression(&mut self, e: &'p Expr, ans: &Answers, depth: usize) -> (r: Result<Object, Halt>)
        requires
            old(self).wf(),
        ensures
            final(self).wf(),
            (final(self)@, flow_of(r)) == sem_expr(old(self)@, e@, ans@, depth as nat),
            final(self)@.locals.len() >= old(self)@.locals.len(),
        decreases depth, expr_size(e@), 0nat,
    {
        match e {
            Expr::Number(text) => Ok(ask_answer(ans, Query::Literal(text.clone()))?),
            Expr::Bool(b) => Ok(Object::Bool(*b)),
            Expr::Var(name) => self.variable(name),
            Expr::Group(g) => self.expression(&**g, ans, depth),
            Expr::Unary(op, right) => {
                let x = self.expression(&**right, ans, depth)?;
                unary(op, x, ans)
            },
            Expr::Binary(left, op, right) => {
                let x = self.expression(&**left, ans, depth)?;
                let y = self.expression(&**right, ans, depth)?;
                binary(op, x, y, ans)
            },
            Expr::Call(name, args) => self.call(name, args, ans, depth),
        }
    }

    fn call(&mut self, func_name: &String, input: &'p Vec<Expr>, ans: &Answers, depth: usize) -> (r: Result<Object, Halt>)
        requires
            old(self).wf(),
        ensures
            final(self).wf(),
            (final(self)@, flow_of(r)) == sem_call(old(self)@, func_name@, exprs_view(input@), ans@, depth as nat),
            final(self)@.locals.len() >= old(self)@.locals.len(),
        decreases depth, exprs_size(exprs_view(input@)), 2nat,
    {
        let ghost st0 = self@;
        let ghost av = exprs_view(input@);
        proof {
            lemma_exprs_view_index(input@);
        }
        let func = match self.func_table.get(func_name) {
            Some(f) => f,
            None => {
                return fail(message_with("function '", func_name, "' doesn't exist"));
            },
        };
        let ghost pv = names_view(func.params@);
        assert(pv.len() == func.params.len());
        if input.len() != func.params.len() {
            let mut m = message_with("function '", func_name, "' expects ");
            let a = usize_to_string(func.params.len());
            m.append(a.as_str());
            m.append(" arg(s) but got ");
            let b = usize_to_string(input.len());
            m.append(b.as_str());
            m.append(" arg(s)");
            return fail(m);
        }
        let mut scope: Table<Object> = Table::new();
        let mut i: usize = 0;
        assert(av.skip(0) =~= av);
        assert(pv.skip(0) =~= pv);
        while i < input.len()
            invariant
                self.wf(),
                scope.wf(),
                i <= input.len(),
                input.len() == func.params.len(),
                av == exprs_view(input@),
                av.len() == input.len(),
                pv == names_view(func.params@),
                pv.len() == func.params.len(),
                forall|k: int| 0 <= k < input.len() ==> #[trigger] av[k] == input@[k]@,
                st0 == old(self)@,
                self@.locals.len() >= st0.locals.len(),
                st0.funcs.contains_key(func_name@),
                st0.funcs[func_name@] == func@,
                sem_args(st0, pv, av, Map::empty(), ans@, depth as nat) == sem_args(
                    self@,
                    pv.skip(i as int),
                    av.skip(i as int),
                    scope@,
                    ans@,
                    depth as nat,
                ),
            decreases input.len() - i,
        {
            proof {
                lemma_exprs_size_elem(av, i as int);
                assert(av.skip(i as int)[0] == av[i as int]);
                assert(pv.skip(i as int)[0] == pv[i as int]);
                assert(av.skip(i as int).drop_first() =~= av.skip(i + 1));
                assert(pv.skip(i as int).drop_first() =~= pv.skip(i + 1));
            }
            let v = self.expression(&input[i], ans, depth)?;
            let p = func.params[i].clone();
            scope.insert(p, v);
            i = i + 1;
        }
        if depth == 0 {
            return Err(Halt::Deep);
        }
        let ghost before_push = self.local_scope@;
        self.local_scope.push(scope);
        assert(scopes_view(self.local_scope@) =~= scopes_view(before_push).push(scope@));
        let ret = self.block(func.body, ans, depth - 1)?;
        let ghost before_pop = self@;
        assert(self.local_scope.len() > 0);
        self.local_scope.pop();
        assert(scopes_view(self.local_scope@) =~= before_pop.locals.drop_last());
        match ret {
            Some(obj) => Ok(obj),
            None => fail(message_with("function '", func_name, "' doesn't return a value")),
        }
    }

    fn block(&mut self, b: &'p Stmt, ans: &Answers, depth: usize) -> (r: Result<Option<Object>, Halt>)
        requires
            old(self).wf(),
        ensures
            final(self).wf(),
            (final(self)@, flow_of(r)) == sem_block(old(self)@, b@, ans@, depth as nat),
            final(self)@.locals.len() >= old(self)@.locals.len(),
        decreases depth, stmt_size(b@), 2nat,
    {
        match b {
            Stmt::Body(v) => self.body(v, ans, depth),
            _ => self.statement(b, ans, depth),
        }
    }

    fn body(&mut self, stmts: &'p Vec<Stmt>, ans: &Answers, depth: usize) -> (r: Result<Option<Object>, Halt>)
        requires
            old(self).wf(),
        ensures
            final(self).wf(),
            (final(self)@, flow_of(r)) == sem_stmts(old(self)@, stmts_view(stmts@), ans@, depth as nat),
            final(self)@.locals.len() >= old(self)@.locals.len(),
        decreases depth, stmts_size(stmts_view(stmts@)), 1nat,
    {
        let ghost sv = stmts_view(stmts@);
        let ghost st0 = self@;
        proof {
            lemma_stmts_view_index(stmts@);
        }
        let mut i: usize = 0;
        assert(sv.skip(0) =~= sv);
        while i < stmts.len()
            invariant
                self.wf(),
                i <= stmts.len(),
                sv == stmts_view(stmts@),
                sv.len() == stmts.len(),
                st0 == old(self)@,
                self@.locals.len() >= st0.locals.len(),
                forall|k: int| 0 <= k < stmts.len() ==> #[trigger] sv[k] == stmts@[k]@,
                sem_stmts(st0, sv, ans@, depth as nat) == sem_stmts(self@, sv.skip(i as int), ans@, depth as nat),
            decreases stmts.len() - i,
        {
            proof {
                lemma_stmts_size_elem(sv, i as int);
                assert(sv.skip(i as int)[0] == sv[i as int]);
                assert(sv.skip(i as int).drop_first() =~= sv.skip(i + 1));
            }
            let ret = self.statement(&stmts[i], ans, depth)?;
            if ret.is_some() {
                return Ok(ret);
            }
            i = i + 1;
        }
        Ok(None)
    }

    fn statement(&mut self, s: &'p Stmt, ans: &Answers, depth: usize) -> (r: Result<Option<Object>, Halt>)
        requires
            old(self).wf(),
        ensures
            final(self).wf(),
            (final(self)@, flow_of(r)) == sem_stmt(old(self)@, s@, ans@, depth as nat),
            final(self)@.locals.len() >= old(self)@.locals.len(),
        decreases depth, stmt_size(s@), 0nat,
    {
        match s {
            Stmt::If(cond, body, else_body) => {
                let c = self.expression(cond, ans, depth)?;
                match c {
                    Object::Bool(true) => {
                        let ret = self.block(&**body, ans, depth);
                        branch(ret)
                    },
                    Object::Bool(false) => match else_body {
                        Some(eb) => {
                            let ret = self.block(&**eb, ans, depth);
                            branch(ret)
                        },
                        None => Ok(None),
                    },
                    Object::Number(_) => fail("invalid expression for if statement".to_string()),
                }
            },
            Stmt::Func(func_name, args, body) => {
                if self.local_scope.len() > 0 {
                    fail("function definitions musn't be nested".to_string())
                } else if self.func_table.contains(func_name) {
                    fail(message_with("redefinition of function '", func_name, "'"))
                } else {
                    let f = Func { params: args, body: &**body };
                    self.func_table.insert(func_name.clone(), f);
                    Ok(None)
                }
            },
            Stmt::Assign(var_name, expr) => {
                let val = self.expression(expr, ans, depth)?;
                self.assign(var_name.clone(), val);
                Ok(None)
            },
            Stmt::Print(expr) => {
                let obj = self.expression(expr, ans, depth)?;
                self.output.push(obj);
                Ok(None)
            },
            Stmt::Return(expr) => {
                if self.local_scope.len() > 0 {
                    let obj = self.expression(expr, ans, depth)?;
                    Ok(Some(obj))
                } else {
                    fail("can't return from global scope".to_string())
                }
            },
            Stmt::Expression(expr) => {
                self.expression(expr, ans, depth)?;
                Ok(None)
            },
            Stmt::Body(v) => self.body(v, ans, depth),
        }
    }

    /// Runs the program `stmts` with the answers `answers`, with calls
    /// allowed to nest `depth` deep: up to its end, to a runtime error, to the
    /// first query that `answers` lacks, or to the first call nested deeper.
    pub fn eval(&mut self, stmts: &'p Vec<Stmt>, answers: &Answers, depth: usize) -> (o: Outcome)
        requires
            old(self).wf(),
        ensures
            final(self).wf(),
            final(self)@ == sem_program(old(self)@, stmts_view(stmts@), answers@, depth as nat).0,
            outcome_reports(o, sem_program(old(self)@, stmts_view(stmts@), answers@, depth as nat).1),
            answers_fit(answers@),
    {
        answers.check_fit();
        match self.body(stmts, answers, depth) {
            Ok(_) => Outcome::Done(Ok(())),
            Err(Halt::Error(e)) => Outcome::Done(Err(e)),
            Err(Halt::Need(q)) => Outcome::Need(q),
            Err(Halt::Deep) => Outcome::TooDeep,
        }
    }
}

fn branch(ret: Result<Option<Object>, Halt>) -> (r: Result<Option<Object>, Halt>)
    ensures
        flow_of(r) == branch_flow(flow_of(ret)),
{
    match ret {
        Ok(v) => Ok(v),
        Err(Halt::Error(_)) => Ok(None),
        Err(Halt::Need(q)) => Err(Halt::Need(q)),
        Err(Halt::Deep) => Err(Halt::Deep),
    }
}

} // verus!
