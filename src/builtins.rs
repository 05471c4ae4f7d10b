use vstd::prelude::*;
use crate::eval::{define_spec, eval_depth, result_model, tail, EvalError};
use crate::types::{lemma_values_of, values_of, Builtin, Closure, Function, Scope, Type, Value};

verus! {

/// The value that an arithmetic fold starts from.
pub open spec fn arith_unit(b: Builtin) -> int {
    match b {
        Builtin::Mul => 1,
        _ => 0,
    }
}

/// One step of an arithmetic fold: `n` is the argument at index `i`.
/// Subtraction starts from its first argument.
pub open spec fn arith_step(b: Builtin, acc: int, n: int, i: int) -> int {
    match b {
        Builtin::Add => acc + n,
        Builtin::Mul => acc * n,
        Builtin::Sub => if i == 0 {
            n
        } else {
            acc - n
        },
    }
}

pub open spec fn in_i64(v: int) -> bool {
    i64::MIN <= v <= i64::MAX
}

/// The fold of a builtin over its arguments, left to right, where each
/// argument must be an integer and each partial result an `i64`.
pub open spec fn arith_fold(b: Builtin, args: Seq<Value>) -> Result<int, EvalError>
    decreases args.len(),
{
    if args.len() == 0 {
        Ok(arith_unit(b))
    } else {
        match arith_fold(b, args.drop_last()) {
            Err(e) => Err(e),
            Ok(acc) => match args.last() {
                Value::Int(n) => {
                    let v = arith_step(b, acc, n as int, args.len() - 1);
                    if in_i64(v) {
                        Ok(v)
                    } else {
                        Err(EvalError::Overflow)
                    }
                },
                Value::Float(_) => Err(EvalError::FloatArithmetic),
                _ => Err(EvalError::TypeMismatch),
            },
        }
    }
}

/// What a builtin returns on the given arguments. A lone argument of `-` is negated.
pub open spec fn builtin_result(b: Builtin, args: Seq<Value>) -> Result<Value, EvalError> {
    match arith_fold(b, args) {
        Err(e) => Err(e),
        Ok(v) => if b == Builtin::Sub && args.len() == 1 {
            if in_i64(-v) {
                Ok(Value::Int((-v) as i64))
            } else {
                Err(EvalError::Overflow)
            }
        } else {
            Ok(Value::Int(v as i64))
        },
    }
}

fn arith(b: Builtin, args: &Vec<Type>) -> (r: Result<Type, EvalError>)
    ensures
        match r {
            Ok(v) => builtin_result(b, values_of(args@)) == Ok::<Value, EvalError>(v.model()),
            Err(e) => builtin_result(b, values_of(args@)) == Err::<Value, EvalError>(e),
        },
{
    let ghost vs = values_of(args@);
    proof {
        lemma_values_of(args@);
    }
    let mut acc: i64 = match b {
        Builtin::Mul => 1,
        _ => 0,
    };
    let mut i: usize = 0;
    while i < args.len()
        invariant
            i <= args.len(),
            vs == values_of(args@),
            vs.len() == args.len(),
            forall|x: int| 0 <= x < args.len() ==> #[trigger] vs[x] == args@[x].model(),
            arith_fold(b, vs.take(i as int)) == Ok::<int, EvalError>(acc as int),
        decreases args.len() - i,
    {
        assert(vs.take(i + 1).drop_last() =~= vs.take(i as int));
        assert(vs.take(i + 1).last() == args@[i as int].model());
        match &args[i] {
            Type::Int(n) => {
                let a = acc as i128;
                let m = *n as i128;
                let v: i128 = match b {
                    Builtin::Add => a + m,
                    Builtin::Mul => {
                        assert(-0x4000_0000_0000_0000_0000_0000_0000_0000 <= a * m <= 0x4000_0000_0000_0000_0000_0000_0000_0000)
                            by (nonlinear_arith)
                            requires
                                -0x8000_0000_0000_0000 <= a <= 0x7fff_ffff_ffff_ffff,
                                -0x8000_0000_0000_0000 <= m <= 0x7fff_ffff_ffff_ffff,
                        ;
                        a * m
                    },
                    Builtin::Sub => if i == 0 {
                        m
                    } else {
                        a - m
                    },
                };
                if v < i64::MIN as i128 || v > i64::MAX as i128 {
                    proof {
                        assert(vs.take(args.len() as int) =~= vs);
                        lemma_fold_prefix_err(b, vs, i + 1);
                    }
                    return Err(EvalError::Overflow);
                }
                acc = v as i64;
            },
            Type::Float(_) => {
                proof {
                    lemma_fold_prefix_err(b, vs, i + 1);
                }
                return Err(EvalError::FloatArithmetic);
            },
            _ => {
                proof {
                    lemma_fold_prefix_err(b, vs, i + 1);
                }
                return Err(EvalError::TypeMismatch);
            },
        }
        i = i + 1;
    }
    assert(vs.take(args.len() as int) =~= vs);
    if b == Builtin::Sub && args.len() == 1 {
        if acc == i64::MIN {
            return Err(EvalError::Overflow);
        }
        return Ok(Type::Int(-acc));
    }
    Ok(Type::Int(acc))
}

/// An error in the fold of a prefix is the error of the whole fold.
proof fn lemma_fold_prefix_err(b: Builtin, vs: Seq<Value>, n: int)
    requires
        0 <= n <= vs.len(),
        arith_fold(b, vs.take(n)) is Err,
    ensures
        arith_fold(b, vs) == arith_fold(b, vs.take(n)),
    decreases vs.len() - n,
{
    if n < vs.len() {
        assert(vs.take(n + 1).drop_last() =~= vs.take(n));
        lemma_fold_prefix_err(b, vs, n + 1);
    } else {
        assert(vs.take(n) =~= vs);
    }
}

/// The sum of integer arguments.
pub fn add(args: &Vec<Type>) -> (r: Result<Type, EvalError>)
    ensures
        match r {
            Ok(v) => builtin_result(Builtin::Add, values_of(args@)) == Ok::<Value, EvalError>(
                v.model(),
            ),
            Err(e) => builtin_result(Builtin::Add, values_of(args@)) == Err::<Value, EvalError>(e),
        },
{
    arith(Builtin::Add, args)
}

/// The product of integer arguments.
pub fn mul(args: &Vec<Type>) -> (r: Result<Type, EvalError>)
    ensures
        match r {
            Ok(v) => builtin_result(Builtin::Mul, values_of(args@)) == Ok::<Value, EvalError>(
                v.model(),
            ),
            Err(e) => builtin_result(Builtin::Mul, values_of(args@)) == Err::<Value, EvalError>(e),
        },
{
    arith(Builtin::Mul, args)
}

/// The first integer argument minus the others; the negation of a lone one.
pub fn sub(args: &Vec<Type>) -> (r: Result<Type, EvalError>)
    ensures
        match r {
            Ok(v) => builtin_result(Builtin::Sub, values_of(args@)) == Ok::<Value, EvalError>(
                v.model(),
            ),
            Err(e) => builtin_result(Builtin::Sub, values_of(args@)) == Err::<Value, EvalError>(e),
        },
{
    arith(Builtin::Sub, args)
}

/// Calls a native procedure on evaluated arguments.
pub fn call_builtin(b: Builtin, args: &Vec<Type>) -> (r: Result<Type, EvalError>)
    ensures
        match r {
            Ok(v) => builtin_result(b, values_of(args@)) == Ok::<Value, EvalError>(v.model()),
            Err(e) => builtin_result(b, values_of(args@)) == Err::<Value, EvalError>(e),
        },
{
    match b {
        Builtin::Add => crate::builtins::add(args),
        Builtin::Mul => crate::builtins::mul(args),
        Builtin::Sub => crate::builtins::sub(args),
    }
}

/// The special form `define`, called with its unevaluated argument forms.
/// `(define name form)` binds `name` in `scope` to the value of `form`, which
/// is evaluated in a copy of `scope`; `(define (name param...) body...)` binds
/// `name` to a function that captures a snapshot of `scope`.
pub fn define(args: &Vec<Type>, scope: &mut Scope, fuel: usize) -> (r: Result<Type, EvalError>)
    ensures
        (result_model(r), final(scope)@) == define_spec(values_of(args@), old(scope)@, fuel as nat),
    decreases fuel, 2nat, 0nat,
{
    proof {
        lemma_values_of(args@);
    }
    if args.len() == 0 {
        return Err(EvalError::MissingArgument);
    }
    match &args[0] {
        Type::Symbol(k) => {
            if args.len() < 2 {
                return Err(EvalError::MissingArgument);
            }
            let mut snapshot = scope.copy();
            let v = match eval_depth(&args[1], &mut snapshot, fuel) {
                Ok(v) => v,
                Err(e) => {
                    return Err(e);
                },
            };
            assert(values_of(args@)[0] == Value::Symbol(k@));
            assert(values_of(args@)[1] == args@[1].model());
            scope.put(k.clone(), v);
            assert(scope@ == define_spec(values_of(args@), old(scope)@, fuel as nat).1);
            Ok(Type::Nil)
        },
        Type::SExpr(parts) => {
            proof {
                lemma_values_of(parts@);
            }
            if parts.len() == 0 {
                return Err(EvalError::MalformedDefine);
            }
            match &parts[0] {
                Type::Symbol(k) => {
                    let params = tail(parts);
                    let body = tail(args);
                    let environ = scope.fork();
                    let ghost c = Closure {
                        params: values_of(params@),
                        body: values_of(body@),
                        environ: crate::types::bindings_of(environ@),
                    };
                    let fun = Function::new(params, body, environ);
                    assert(fun.model() == c);
                    assert(c == Closure {
                        params: values_of(parts@).drop_first(),
                        body: values_of(args@).drop_first(),
                        environ: old(scope)@.fork(),
                    });
                    assert(values_of(args@)[0] == Value::SExpr(values_of(parts@)));
                    assert(values_of(parts@)[0] == Value::Symbol(k@));
                    scope.put(k.clone(), Type::Function(fun));
                    assert(scope@ == define_spec(values_of(args@), old(scope)@, fuel as nat).1);
                    Ok(Type::Nil)
                },
                _ => Err(EvalError::NotASymbol),
            }
        },
        _ => Err(EvalError::MalformedDefine),
    }
}

} // verus!
