use vstd::prelude::*;
use crate::builtins::{builtin_result, call_builtin, define};
use crate::types::{
    lemma_bindings_of, lemma_values_of, lemma_values_of_push, values_of, Builtin, Closure, Env,
    Function, Scope, Special, Type, Value,
};

verus! {

/// The ways in which evaluating a form can fail.
#[derive(Debug, PartialEq, Eq, Clone, Copy, Structural)]
pub enum EvalError {
    /// A symbol with no binding in scope.
    UnboundSymbol,
    /// A call whose head is no function, builtin or special form.
    NotCallable,
    /// A function called with another number of arguments than it has parameters.
    ArityMismatch,
    /// A value that had to be a symbol, to be bound, and is not.
    NotASymbol,
    /// A special form without the arguments that it needs.
    MissingArgument,
    /// A `define` whose first argument is neither a symbol nor a form.
    MalformedDefine,
    /// An argument of an arithmetic builtin that is not a number.
    TypeMismatch,
    /// An arithmetic builtin given a float, which this interpreter does not compute with.
    FloatArithmetic,
    /// An integer result out of the range of `i64`.
    Overflow,
    /// Evaluation nested deeper than its depth bound.
    DepthExceeded,
}

/// The nesting depth that evaluating one top-level form may reach.
pub const MAX_DEPTH: usize = 256;

/// Each element wrapped in one quote.
pub open spec fn quote_each(items: Seq<Value>) -> Seq<Value> {
    items.map_values(|v: Value| Value::Quoted(Box::new(v)))
}

/// The local bindings of a call: each parameter's name to its argument.
pub open spec fn bind_params(params: Seq<Value>, args: Seq<Value>) -> Seq<(Seq<char>, Value)> {
    Seq::new(params.len(), |i: int| (params[i]->Symbol_0, args[i]))
}

pub open spec fn all_symbols(s: Seq<Value>) -> bool {
    forall|i: int| 0 <= i < s.len() ==> (#[trigger] s[i]) is Symbol
}

/// Evaluates `e` in `env` with `fuel` levels of nesting left: the result, and
/// the scope as the evaluation leaves it.
pub open spec fn eval_spec(e: Value, env: Env, fuel: nat) -> (Result<Value, EvalError>, Env)
    decreases fuel, 0nat, 0nat,
{
    if fuel == 0 {
        (Err(EvalError::DepthExceeded), env)
    } else {
        let f = (fuel - 1) as nat;
        match e {
            Value::Nil => (Ok(Value::Nil), env),
            Value::Quoted(inner) => match *inner {
                Value::SExpr(items) => match eval_seq(quote_each(items), env, f) {
                    (Ok(vs), env2) => (Ok(Value::List(vs)), env2),
                    (Err(x), env2) => (Err(x), env2),
                },
                other => (Ok(other), env),
            },
            Value::Symbol(k) => match env.get(k) {
                Some(v) => (Ok(v), env),
                None => (Err(EvalError::UnboundSymbol), env),
            },
            Value::SExpr(items) => if items.len() == 0 {
                (Err(EvalError::NotCallable), env)
            } else {
                let rest = items.drop_first();
                match eval_spec(items[0], env, f) {
                    (Err(x), env1) => (Err(x), env1),
                    (Ok(Value::Macro(m)), env1) => match define_spec(rest, env1, f) {
                        (Err(x), env2) => (Err(x), env2),
                        (Ok(form), env2) => eval_spec(form, env2, f),
                    },
                    (Ok(Value::Function(c)), env1) => match eval_seq(rest, env1, f) {
                        (Err(x), env2) => (Err(x), env2),
                        (Ok(args), env2) => (apply_spec(c, args, f), env2),
                    },
                    (Ok(Value::Builtin(b)), env1) => match eval_seq(rest, env1, f) {
                        (Err(x), env2) => (Err(x), env2),
                        (Ok(args), env2) => (builtin_result(b, args), env2),
                    },
                    (Ok(_), env1) => (Err(EvalError::NotCallable), env1),
                }
            },
            other => (Ok(other), env),
        }
    }
}

/// Evaluates the forms in order, each in the scope that the one before left;
/// the first error stops it.
pub open spec fn eval_seq(items: Seq<Value>, env: Env, fuel: nat) -> (
    Result<Seq<Value>, EvalError>,
    Env,
)
    decreases fuel, 1nat, items.len(),
{
    if items.len() == 0 {
        (Ok(Seq::empty()), env)
    } else {
        match eval_seq(items.drop_last(), env, fuel) {
            (Err(x), env1) => (Err(x), env1),
            (Ok(vs), env1) => match eval_spec(items.last(), env1, fuel) {
                (Err(x), env2) => (Err(x), env2),
                (Ok(v), env2) => (Ok(vs.push(v)), env2),
            },
        }
    }
}

/// Calls a closure: the arguments are bound to the parameters in a scope whose
/// base is the captured environment, and the body is evaluated there; the
/// value of its last form is the result, `Nil` for an empty body.
pub open spec fn apply_spec(c: Closure, args: Seq<Value>, fuel: nat) -> Result<Value, EvalError>
    decreases fuel, 2nat, 0nat,
{
    if args.len() != c.params.len() {
        Err(EvalError::ArityMismatch)
    } else if !all_symbols(c.params) {
        Err(EvalError::NotASymbol)
    } else {
        let env = Env { environ: c.environ, local: bind_params(c.params, args) };
        match eval_seq(c.body, env, fuel).0 {
            Err(x) => Err(x),
            Ok(vs) => Ok(
                if vs.len() == 0 {
                    Value::Nil
                } else {
                    vs.last()
                },
            ),
        }
    }
}

/// `define` on its unevaluated arguments. `(define name form)` binds `name` to
/// the value of `form`, evaluated in a copy of the scope; `(define (name
/// param...) body...)` binds `name` to a closure over a snapshot of the scope.
/// The result is `Nil`.
pub open spec fn define_spec(args: Seq<Value>, env: Env, fuel: nat) -> (
    Result<Value, EvalError>,
    Env,
)
    decreases fuel, 2nat, 0nat,
{
    if args.len() == 0 {
        (Err(EvalError::MissingArgument), env)
    } else {
        match args[0] {
            Value::Symbol(k) => if args.len() < 2 {
                (Err(EvalError::MissingArgument), env)
            } else {
                match eval_spec(args[1], env, fuel).0 {
                    Err(x) => (Err(x), env),
                    Ok(v) => (Ok(Value::Nil), env.put(k, v)),
                }
            },
            Value::SExpr(parts) => if parts.len() == 0 {
                (Err(EvalError::MalformedDefine), env)
            } else {
                match parts[0] {
                    Value::Symbol(k) => (
                        Ok(Value::Nil),
                        env.put(
                            k,
                            Value::Function(
                                Closure {
                                    params: parts.drop_first(),
                                    body: args.drop_first(),
                                    environ: env.fork(),
                                },
                            ),
                        ),
                    ),
                    _ => (Err(EvalError::NotASymbol), env),
                }
            },
            _ => (Err(EvalError::MalformedDefine), env),
        }
    }
}

pub open spec fn result_model(r: Result<Type, EvalError>) -> Result<Value, EvalError> {
    match r {
        Ok(v) => Ok(v.model()),
        Err(e) => Err(e),
    }
}

pub open spec fn results_model(r: Result<Vec<Type>, EvalError>) -> Result<Seq<Value>, EvalError> {
    match r {
        Ok(v) => Ok(values_of(v@)),
        Err(e) => Err(e),
    }
}

/// Copies of the elements after the first.
pub fn tail(items: &Vec<Type>) -> (r: Vec<Type>)
    requires
        items.len() > 0,
    ensures
        values_of(r@) == values_of(items@).drop_first(),
{
    let mut r: Vec<Type> = Vec::new();
    let mut i: usize = 1;
    proof {
        lemma_values_of(items@);
        assert(values_of(r@) =~= values_of(items@).subrange(1, 1));
    }
    while i < items.len()
        invariant
            1 <= i <= items.len(),
            values_of(items@).len() == items.len(),
            forall|x: int| 0 <= x < items.len() ==> #[trigger] values_of(items@)[x] == items@[x].model(),
            values_of(r@) == values_of(items@).subrange(1, i as int),
        decreases items.len() - i,
    {
        let c = items[i].copy();
        proof {
            lemma_values_of_push(r@, c);
            assert(values_of(items@).subrange(1, i + 1) =~= values_of(items@).subrange(
                1,
                i as int,
            ).push(c.model()));
        }
        r.push(c);
        i = i + 1;
    }
    assert(values_of(items@).subrange(1, items.len() as int) =~= values_of(items@).drop_first());
    r
}

/// Copies of the elements, each wrapped in one quote.
fn quote_all(items: &Vec<Type>) -> (r: Vec<Type>)
    ensures
        values_of(r@) == quote_each(values_of(items@)),
{
    let mut r: Vec<Type> = Vec::new();
    let mut i: usize = 0;
    proof {
        lemma_values_of(items@);
        assert(values_of(r@) =~= quote_each(values_of(items@)).take(0));
    }
    while i < items.len()
        invariant
            i <= items.len(),
            values_of(items@).len() == items.len(),
            forall|x: int| 0 <= x < items.len() ==> #[trigger] values_of(items@)[x] == items@[x].model(),
            values_of(r@) == quote_each(values_of(items@)).take(i as int),
        decreases items.len() - i,
    {
        let c = Type::Quoted(Box::new(items[i].copy()));
        proof {
            lemma_values_of_push(r@, c);
            assert(quote_each(values_of(items@)).take(i + 1) =~= quote_each(
                values_of(items@),
            ).take(i as int).push(c.model()));
        }
        r.push(c);
        i = i + 1;
    }
    assert(quote_each(values_of(items@)).take(items.len() as int) =~= quote_each(
        values_of(items@),
    ));
    r
}

/// Evaluates the forms in order in `scope`, stopping at the first error.
pub fn eval_each(items: &Vec<Type>, scope: &mut Scope, fuel: usize) -> (r: Result<
    Vec<Type>,
    EvalError,
>)
    ensures
        (results_model(r), final(scope)@) == eval_seq(values_of(items@), old(scope)@, fuel as nat),
    decreases fuel, 1nat, 0nat,
{
    let ghost vs = values_of(items@);
    proof {
        lemma_values_of(items@);
        assert(vs.take(0) =~= Seq::<Value>::empty());
    }
    let mut out: Vec<Type> = Vec::new();
    let mut i: usize = 0;
    while i < items.len()
        invariant
            i <= items.len(),
            vs == values_of(items@),
            vs.len() == items.len(),
            forall|x: int| 0 <= x < items.len() ==> #[trigger] vs[x] == items@[x].model(),
            (Ok::<Seq<Value>, EvalError>(values_of(out@)), scope@) == eval_seq(
                vs.take(i as int),
                old(scope)@,
                fuel as nat,
            ),
        decreases items.len() - i,
    {
        assert(vs.take(i + 1).drop_last() =~= vs.take(i as int));
        assert(vs.take(i + 1).last() == items@[i as int].model());
        let v = match eval_depth(&items[i], scope, fuel) {
            Ok(v) => v,
            Err(e) => {
                proof {
                    lemma_eval_seq_prefix_err(vs, old(scope)@, fuel as nat, i + 1);
                }
                return Err(e);
            },
        };
        proof {
            lemma_values_of_push(out@, v);
        }
        out.push(v);
        i = i + 1;
    }
    assert(vs.take(items.len() as int) =~= vs);
    Ok(out)
}

/// Once a prefix of the forms fails, the whole sequence fails the same way.
pub proof fn lemma_eval_seq_prefix_err(items: Seq<Value>, env: Env, fuel: nat, n: int)
    requires
        0 <= n <= items.len(),
        eval_seq(items.take(n), env, fuel).0 is Err,
    ensures
        eval_seq(items, env, fuel) == eval_seq(items.take(n), env, fuel),
    decreases items.len() - n,
{
    if n < items.len() {
        assert(items.take(n + 1).drop_last() =~= items.take(n));
        lemma_eval_seq_prefix_err(items, env, fuel, n + 1);
    } else {
        assert(items.take(n) =~= items);
    }
}

/// Calls a user function on evaluated arguments. Another number of arguments
/// than of parameters is an arity mismatch.
pub fn apply(fun: &Function, args: Vec<Type>, fuel: usize) -> (r: Result<Type, EvalError>)
    ensures
        result_model(r) == apply_spec(fun.model(), values_of(args@), fuel as nat),
        args.len() != fun.params.len() ==> r == Err::<Type, EvalError>(EvalError::ArityMismatch),
    decreases fuel, 2nat, 0nat,
{
    let ghost c = fun.model();
    let ghost am = values_of(args@);
    proof {
        lemma_values_of(args@);
        lemma_values_of(fun.params@);
    }
    if args.len() != fun.params.len() {
        return Err(EvalError::ArityMismatch);
    }
    let mut scope = Scope::new(crate::types::copy_bindings(&fun.environ));
    let mut i: usize = 0;
    proof {
        assert(bind_params(c.params.take(0), am.take(0)) =~= Seq::empty());
    }
    while i < args.len()
        invariant
            i <= args.len(),
            args.len() == fun.params.len(),
            c == fun.model(),
            am == values_of(args@),
            am.len() == args.len(),
            c.params.len() == args.len(),
            forall|x: int| 0 <= x < args.len() ==> #[trigger] am[x] == args@[x].model(),
            forall|x: int|
                0 <= x < args.len() ==> #[trigger] c.params[x] == fun.params@[x].model(),
            forall|x: int| 0 <= x < i ==> (#[trigger] c.params[x]) is Symbol,
            scope@ == (Env {
                environ: c.environ,
                local: bind_params(c.params.take(i as int), am.take(i as int)),
            }),
        decreases args.len() - i,
    {
        let key = match fun.params[i].as_key() {
            Some(k) => k,
            None => {
                assert(!(c.params[i as int] is Symbol));
                return Err(EvalError::NotASymbol);
            },
        };
        let v = args[i].copy();
        scope.put(key, v);
        assert(bind_params(c.params.take(i + 1), am.take(i + 1)) =~= bind_params(
            c.params.take(i as int),
            am.take(i as int),
        ).push((c.params[i as int]->Symbol_0, am[i as int])));
        i = i + 1;
    }
    assert(c.params.take(args.len() as int) =~= c.params);
    assert(am.take(args.len() as int) =~= am);
    let mut vs = match eval_each(&fun.body, &mut scope, fuel) {
        Ok(vs) => vs,
        Err(e) => {
            return Err(e);
        },
    };
    proof {
        lemma_values_of(vs@);
    }
    match vs.pop() {
        Some(v) => Ok(v),
        None => Ok(Type::Nil),
    }
}

/// Evaluates `expr` in `scope` with `fuel` levels of nesting left.
pub fn eval_depth(expr: &Type, scope: &mut Scope, fuel: usize) -> (r: Result<Type, EvalError>)
    ensures
        (result_model(r), final(scope)@) == eval_spec(expr.model(), old(scope)@, fuel as nat),
    decreases fuel, 0nat, 0nat,
{
    if fuel == 0 {
        return Err(EvalError::DepthExceeded);
    }
    let f = fuel - 1;
    match expr {
        Type::Nil => Ok(Type::Nil),
        Type::Quoted(inner) => match &**inner {
            Type::SExpr(items) => {
                assert((**inner).model() == Value::SExpr(values_of(items@)));
                assert(expr.model() == Value::Quoted(Box::new((**inner).model())));
                let quoted = quote_all(items);
                match eval_each(&quoted, scope, f) {
                    Ok(vs) => Ok(Type::List(vs)),
                    Err(e) => Err(e),
                }
            },
            other => {
                assert(expr.model() == Value::Quoted(Box::new(other.model())));
                Ok(other.copy())
            },
        },
        Type::Symbol(k) => match scope.get(k) {
            Some(v) => Ok(v),
            None => Err(EvalError::UnboundSymbol),
        },
        Type::SExpr(items) => {
            proof {
                lemma_values_of(items@);
            }
            assert(expr.model() == Value::SExpr(values_of(items@)));
            if items.len() == 0 {
                return Err(EvalError::NotCallable);
            }
            assert(values_of(items@)[0] == items@[0].model());
            let head = match eval_depth(&items[0], scope, f) {
                Ok(h) => h,
                Err(e) => {
                    return Err(e);
                },
            };
            let rest = tail(items);
            match head {
                Type::Macro(Special::Define) => {
                    let form = match define(&rest, scope, f) {
                        Ok(form) => form,
                        Err(e) => {
                            return Err(e);
                        },
                    };
                    eval_depth(&form, scope, f)
                },
                Type::Function(fun) => {
                    let args = match eval_each(&rest, scope, f) {
                        Ok(args) => args,
                        Err(e) => {
                            return Err(e);
                        },
                    };
                    apply(&fun, args, f)
                },
                Type::Builtin(b) => {
                    let args = match eval_each(&rest, scope, f) {
                        Ok(args) => args,
                        Err(e) => {
                            return Err(e);
                        },
                    };
                    call_builtin(b, &args)
                },
                _ => Err(EvalError::NotCallable),
            }
        },
        other => Ok(other.copy()),
    }
}

/// Evaluating a quoted value that is not a form gives that value back
/// unevaluated, and leaves the scope as it was.
pub proof fn lemma_quote_returns_inner(x: Value, env: Env, fuel: nat)
    requires
        fuel > 0,
        !(x is SExpr),
    ensures
        eval_spec(Value::Quoted(Box::new(x)), env, fuel) == (Ok::<Value, EvalError>(x), env),
{
}

/// Each evaluation strips one quote: `''x` evaluates to `'x`, and that in turn to `x`.
pub proof fn lemma_double_quote(x: Value, env: Env, fuel: nat)
    requires
        fuel > 0,
        !(x is SExpr),
    ensures
        eval_spec(Value::Quoted(Box::new(Value::Quoted(Box::new(x)))), env, fuel) == (Ok::<
            Value,
            EvalError,
        >(Value::Quoted(Box::new(x))), env),
        eval_spec(Value::Quoted(Box::new(x)), env, fuel) == (Ok::<Value, EvalError>(x), env),
{
}

/// Evaluating forms in order gives one value per form.
pub proof fn lemma_eval_seq_len(items: Seq<Value>, env: Env, fuel: nat)
    ensures
        eval_seq(items, env, fuel).0 matches Ok(vs) ==> vs.len() == items.len(),
    decreases items.len(),
{
    if items.len() > 0 {
        lemma_eval_seq_len(items.drop_last(), env, fuel);
    }
}

/// A call whose head is a user function and whose arguments evaluate, but
/// number other than its parameters, fails with an arity mismatch: the
/// arguments are neither dropped nor padded.
pub proof fn lemma_call_arity_mismatch(items: Seq<Value>, env: Env, fuel: nat, c: Closure)
    requires
        fuel > 0,
        items.len() > 0,
        eval_spec(items[0], env, (fuel - 1) as nat).0 == Ok::<Value, EvalError>(
            Value::Function(c),
        ),
        items.len() - 1 != c.params.len(),
        eval_seq(items.drop_first(), eval_spec(items[0], env, (fuel - 1) as nat).1, (fuel - 1) as nat).0 is Ok,
    ensures
        eval_spec(Value::SExpr(items), env, fuel).0 == Err::<Value, EvalError>(
            EvalError::ArityMismatch,
        ),
{
    let f = (fuel - 1) as nat;
    let env1 = eval_spec(items[0], env, f).1;
    lemma_eval_seq_len(items.drop_first(), env1, f);
    let args = eval_seq(items.drop_first(), env1, f).0->Ok_0;
    assert(args.len() == items.drop_first().len());
    assert(apply_spec(c, args, f) == Err::<Value, EvalError>(EvalError::ArityMismatch));
}

/// A name put into a scope resolves to the value put, whatever was bound before.
pub proof fn lemma_put_get(e: Env, k: Seq<char>, v: Value)
    ensures
        e.put(k, v).get(k) == Some(v),
{
}

/// Evaluates one top-level form in `scope`. An error is returned to the
/// caller, which may go on with the next form.
pub fn eval(expr: Type, scope: &mut Scope) -> (r: Result<Type, EvalError>)
    ensures
        (result_model(r), final(scope)@) == eval_spec(expr.model(), old(scope)@, MAX_DEPTH as nat),
{
    eval_depth(&expr, scope, MAX_DEPTH)
}

/// The bindings of a fresh root scope: the special form `define` and the
/// arithmetic builtins, under their names and their operator symbols.
pub open spec fn root_bindings() -> Seq<(Seq<char>, Value)> {
    seq![
        ("define"@, Value::Macro(Special::Define)),
        ("add"@, Value::Builtin(Builtin::Add)),
        ("mul"@, Value::Builtin(Builtin::Mul)),
        ("sub"@, Value::Builtin(Builtin::Sub)),
        ("+"@, Value::Builtin(Builtin::Add)),
        ("*"@, Value::Builtin(Builtin::Mul)),
        ("-"@, Value::Builtin(Builtin::Sub)),
    ]
}

/// The root scope, holding every builtin and special form.
pub fn create_env() -> (r: Scope)
    ensures
        r@ == (Env { environ: root_bindings(), local: Seq::empty() }),
{
    let mut funcs: Vec<(String, Type)> = Vec::new();
    funcs.push(("define".to_owned(), Type::Macro(Special::Define)));
    funcs.push(("add".to_owned(), Type::Builtin(Builtin::Add)));
    funcs.push(("mul".to_owned(), Type::Builtin(Builtin::Mul)));
    funcs.push(("sub".to_owned(), Type::Builtin(Builtin::Sub)));
    funcs.push(("+".to_owned(), Type::Builtin(Builtin::Add)));
    funcs.push(("*".to_owned(), Type::Builtin(Builtin::Mul)));
    funcs.push(("-".to_owned(), Type::Builtin(Builtin::Sub)));
    proof {
        lemma_bindings_of(funcs@);
        assert(crate::types::bindings_of(funcs@) =~= root_bindings());
    }
    Scope::new(funcs)
}

} // verus!
