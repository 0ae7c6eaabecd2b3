# mat

An interpreter for a small language with functions, conditions, arithmetic
and variables, written in Verus.

    statement  ::= simple_statement | compound_statement
    simple     ::= identifier '=' expression ';' | 'return' expression ';'
                 | 'print' expression ';' | expression ';'
    compound   ::= 'fn' identifier '(' params ')' body
                 | 'if' expression body ('else' 'if' ... | 'else' body)?
    body       ::= '{' statement* '}'
    expression ::= comparison
    comparison ::= term (('==' | '>' | '>=' | '<' | '<=') term)*
    term       ::= factor (('+' | '-') factor)*
    factor     ::= exponent (('*' | '/') exponent)*
    exponent   ::= unary ('^' unary)?
    unary      ::= ('+' | '-')? literal
    literal    ::= '(' expression ')' | number | 'true' | 'false'
                 | identifier | identifier '(' arguments ')'
    identifier ::= [_a-zA-Z]+ [a-zA-Z0-9]*
    number     ::= ('+' | '-')? [0-9]+ ('.' [0-9]+)?

Layout:

- `src/lexer.rs`: tokens and the lexer, specified by `lex_next`.
- `src/ast.rs`: expressions and statements, and their mathematical values.
- `src/parser.rs`: the recursive-descent parser, specified by the `p_*`
  functions, one per rule.
- `src/runtime.rs`: the evaluator, specified by the big-step semantics
  `sem_*`. Numbers are IEEE 754 doubles held as their bits; the evaluator
  asks for every floating-point operation as a `Query` and reads the
  answers from `Answers`, so the floating-point work stays outside the
  verified code. A run that lacks an answer stops with `Outcome::Need`.
  An answer must be of the kind its query calls for (`fits`): a number for
  a literal, an arithmetic operation or a negation, a truth value for a
  comparison or a zero test.
  A run is given a bound on how deep calls nest; one that reaches it stops
  with `Outcome::TooDeep`, and a run with more depth ends the same way as
  any run that did not stop for depth.
- `src/table.rs`: maps from names to values.
- `src/text.rs`: decimal text of numbers.
- `app/main.rs`: reads a file, answers the queries with `f64`, doubles the
  depth when a run stops for it, and prints.
