use rslisp::eval::{create_env, eval, EvalError};
use rslisp::lexer::Lexer;
use rslisp::parser::parse_all;
use rslisp::types::{Scope, Type};

fn run(code: &str) -> Vec<Result<Type, EvalError>> {
    let mut lex = Lexer::new(code);
    let forms = parse_all(&mut lex).unwrap();
    let mut env = create_env();
    forms.into_iter().map(|f| eval(f, &mut env)).collect()
}

fn last(code: &str) -> Result<Type, EvalError> {
    run(code).pop().unwrap()
}

#[test]
fn eval_arithmetic() {
    assert_eq!(last("(+ (- 6 5) 4)"), Ok(Type::Int(5)));
    assert_eq!(last("(* 2 3 7)"), Ok(Type::Int(42)));
    assert_eq!(last("(add 1 2)"), Ok(Type::Int(3)));
    assert_eq!(last("(- 5)"), Ok(Type::Int(-5)));
    assert_eq!(last("(+)"), Ok(Type::Int(0)));
    assert_eq!(last("(*)"), Ok(Type::Int(1)));
}

#[test]
fn eval_define_variable() {
    let results = run("(define x 5) x");
    assert_eq!(results, vec![Ok(Type::Nil), Ok(Type::Int(5))]);
}

#[test]
fn eval_define_function() {
    let results = run("(define (add-new x y) (+ x y)) (add-new 1 1)");
    assert_eq!(results, vec![Ok(Type::Nil), Ok(Type::Int(2))]);
}

#[test]
fn eval_arity_mismatch() {
    assert_eq!(last("(define (f x) x) (f 1 2)"), Err(EvalError::ArityMismatch));
    assert_eq!(last("(define (f x) x) (f)"), Err(EvalError::ArityMismatch));
}

#[test]
fn eval_quote_symbol() {
    assert_eq!(last("'symbolname"), Ok(Type::Symbol("symbolname".to_string())));
}

#[test]
fn eval_double_quote_takes_two_passes() {
    let mut env = create_env();
    let once = last("''x").unwrap();
    assert_eq!(once, Type::Quoted(Box::new(Type::Symbol("x".to_string()))));
    assert_eq!(eval(once, &mut env), Ok(Type::Symbol("x".to_string())));
}

#[test]
fn eval_quoted_form_evaluates_quoted_elements() {
    assert_eq!(
        last("'(a 1 (b))"),
        Ok(Type::List(vec![
            Type::Symbol("a".to_string()),
            Type::Int(1),
            Type::List(vec![Type::Symbol("b".to_string())]),
        ]))
    );
}

#[test]
fn eval_closure_captures_snapshot() {
    let results = run("(define y 1) (define (g) y) (define y 2) (g) y");
    assert_eq!(results[3], Ok(Type::Int(1)));
    assert_eq!(results[4], Ok(Type::Int(2)));
}

#[test]
fn eval_define_value_in_copy_of_scope() {
    let results = run("(define x (define z 1)) x z");
    assert_eq!(results[1], Ok(Type::Nil));
    assert_eq!(results[2], Err(EvalError::UnboundSymbol));
}

#[test]
fn eval_errors() {
    assert_eq!(last("nope"), Err(EvalError::UnboundSymbol));
    assert_eq!(last("(1 2)"), Err(EvalError::NotCallable));
    assert_eq!(last("(+ 1 \"a\")"), Err(EvalError::TypeMismatch));
    assert_eq!(last("(+ 1 2.5)"), Err(EvalError::FloatArithmetic));
    assert_eq!(last("(* 9223372036854775807 2)"), Err(EvalError::Overflow));
    assert_eq!(last("(- -9223372036854775808)"), Err(EvalError::Overflow));
    assert_eq!(last("(define)"), Err(EvalError::MissingArgument));
    assert_eq!(last("(define x)"), Err(EvalError::MissingArgument));
    assert_eq!(last("(define 1 2)"), Err(EvalError::MalformedDefine));
    assert_eq!(last("(define (1 x) x)"), Err(EvalError::NotASymbol));
    assert_eq!(last("(define (f 1) 1) (f 2)"), Err(EvalError::NotASymbol));
}

#[test]
fn eval_closure_does_not_see_its_own_name() {
    assert_eq!(last("(define (f x) (f x)) (f 1)"), Err(EvalError::UnboundSymbol));
}

#[test]
fn eval_deep_nesting_is_bounded() {
    let deep = format!("{}1{}", "(+ ".repeat(300), ")".repeat(300));
    assert_eq!(last(&deep), Err(EvalError::DepthExceeded));
    let shallow = format!("{}1{}", "(+ ".repeat(100), ")".repeat(100));
    assert_eq!(last(&shallow), Ok(Type::Int(1)));
}

#[test]
fn eval_self_evaluating_atoms() {
    assert_eq!(last("7"), Ok(Type::Int(7)));
    assert_eq!(last("\"s\""), Ok(Type::StrLit("s".to_string())));
    assert_eq!(last("()"), Ok(Type::Nil));
}

#[test]
fn scope_put_get_fork() {
    let mut scope = Scope::new(vec![("a".to_string(), Type::Int(1))]);
    scope.put("b".to_string(), Type::Int(2));
    scope.put("a".to_string(), Type::Int(3));
    assert_eq!(scope.get(&"a".to_string()), Some(Type::Int(3)));
    assert_eq!(scope.get(&"b".to_string()), Some(Type::Int(2)));
    assert_eq!(scope.get(&"c".to_string()), None);
    let snapshot = Scope::new(scope.fork());
    scope.put("b".to_string(), Type::Int(9));
    assert_eq!(snapshot.get(&"a".to_string()), Some(Type::Int(3)));
    assert_eq!(snapshot.get(&"b".to_string()), Some(Type::Int(2)));
}
