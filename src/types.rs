use vstd::prelude::*;
use crate::lexer::{Lexeme, Token};
use crate::parser::ParseError;

verus! {

broadcast use {vstd::std_specs::vec::axiom_vec_decreases_to_view, vstd::seq::axiom_seq_subrange_decreases, vstd::seq::axiom_seq_index_decreases};

/// The native procedures, called with evaluated arguments.
#[derive(Debug, Clone, Copy, PartialEq, Eq, Structural)]
pub enum Builtin {
    Add,
    Mul,
    Sub,
}

/// The special forms, called with their argument forms unevaluated.
#[derive(Debug, Clone, Copy, PartialEq, Eq, Structural)]
pub enum Special {
    Define,
}

/// A user-defined closure: its parameters, its body and the bindings it captured.
#[derive(Debug, PartialEq)]
pub struct Function {
    pub params: Vec<Type>,
    pub body: Vec<Type>,
    pub environ: Vec<(String, Type)>,
}

/// Every value of the language, both as syntax and as the result of evaluation.
/// A float is held as the text of its literal.
#[derive(Debug, PartialEq)]
pub enum Type {
    Float(String),
    Int(i64),
    StrLit(String),
    Symbol(String),
    /// A form still to be evaluated as a call.
    SExpr(Vec<Type>),
    /// A list of data, as evaluating a quoted form gives it.
    List(Vec<Type>),
    Quoted(Box<Type>),
    Function(Function),
    Builtin(Builtin),
    Macro(Special),
    Nil,
}

// ---------------------------------------------------------------------------
// The mathematical model of values

/// The mathematical model of a value: strings as character sequences, lists
/// as sequences of models.
pub enum Value {
    Float(Seq<char>),
    Int(i64),
    StrLit(Seq<char>),
    Symbol(Seq<char>),
    SExpr(Seq<Value>),
    List(Seq<Value>),
    Quoted(Box<Value>),
    Function(Closure),
    Builtin(Builtin),
    Macro(Special),
    Nil,
}

/// The model of a user-defined function.
pub struct Closure {
    pub params: Seq<Value>,
    pub body: Seq<Value>,
    pub environ: Seq<(Seq<char>, Value)>,
}

/// The models of a sequence of values.
pub open spec fn values_of(s: Seq<Type>) -> Seq<Value>
    decreases s,
{
    if s.len() == 0 {
        Seq::empty()
    } else {
        values_of(s.subrange(0, s.len() - 1)).push(s[s.len() - 1].model())
    }
}

/// The models of a sequence of bindings.
pub open spec fn bindings_of(s: Seq<(String, Type)>) -> Seq<(Seq<char>, Value)>
    decreases s,
{
    if s.len() == 0 {
        Seq::empty()
    } else {
        bindings_of(s.subrange(0, s.len() - 1)).push(
            (s[s.len() - 1].0@, s[s.len() - 1].1.model()),
        )
    }
}

impl Function {
    pub open spec fn model(&self) -> Closure
        decreases self,
    {
        Closure {
            params: values_of(self.params@),
            body: values_of(self.body@),
            environ: bindings_of(self.environ@),
        }
    }
}

impl Type {
    pub open spec fn model(&self) -> Value
        decreases self,
    {
        match self {
            Type::Float(t) => Value::Float(t@),
            Type::Int(n) => Value::Int(*n),
            Type::StrLit(t) => Value::StrLit(t@),
            Type::Symbol(t) => Value::Symbol(t@),
            Type::SExpr(v) => Value::SExpr(values_of(v@)),
            Type::List(v) => Value::List(values_of(v@)),
            Type::Quoted(b) => Value::Quoted(Box::new((**b).model())),
            Type::Function(f) => Value::Function(f.model()),
            Type::Builtin(b) => Value::Builtin(*b),
            Type::Macro(m) => Value::Macro(*m),
            Type::Nil => Value::Nil,
        }
    }
}

pub proof fn lemma_values_of(s: Seq<Type>)
    ensures
        values_of(s).len() == s.len(),
        forall|i: int| 0 <= i < s.len() ==> #[trigger] values_of(s)[i] == s[i].model(),
    decreases s.len(),
{
    if s.len() > 0 {
        lemma_values_of(s.subrange(0, s.len() - 1));
    }
}

pub proof fn lemma_bindings_of(s: Seq<(String, Type)>)
    ensures
        bindings_of(s).len() == s.len(),
        forall|i: int|
            0 <= i < s.len() ==> #[trigger] bindings_of(s)[i] == (s[i].0@, s[i].1.model()),
    decreases s.len(),
{
    if s.len() > 0 {
        lemma_bindings_of(s.subrange(0, s.len() - 1));
    }
}

pub proof fn lemma_values_of_push(s: Seq<Type>, t: Type)
    ensures
        values_of(s.push(t)) == values_of(s).push(t.model()),
{
    assert(s.push(t).subrange(0, s.len() as int) =~= s);
}

pub proof fn lemma_bindings_of_push(s: Seq<(String, Type)>, b: (String, Type))
    ensures
        bindings_of(s.push(b)) == bindings_of(s).push((b.0@, b.1.model())),
{
    assert(s.push(b).subrange(0, s.len() as int) =~= s);
}

pub proof fn lemma_bindings_of_add(a: Seq<(String, Type)>, b: Seq<(String, Type)>)
    ensures
        bindings_of(a + b) == bindings_of(a) + bindings_of(b),
{
    lemma_bindings_of(a);
    lemma_bindings_of(b);
    lemma_bindings_of(a + b);
    assert(bindings_of(a + b) =~= bindings_of(a) + bindings_of(b));
}

// ---------------------------------------------------------------------------
// Copies

pub fn copy_values(v: &Vec<Type>) -> (r: Vec<Type>)
    ensures
        values_of(r@) == values_of(v@),
    decreases v,
{
    let mut r: Vec<Type> = Vec::new();
    let mut i: usize = 0;
    while i < v.len()
        invariant
            i <= v.len(),
            values_of(r@) == values_of(v@.take(i as int)),
        decreases v.len() - i,
    {
        proof {
            assert(decreases_to!(v => v@));
            assert(decreases_to!(v@ => v@[i as int]));
        }
        let x = v[i].copy();
        proof {
            lemma_values_of_push(r@, x);
            lemma_values_of_push(v@.take(i as int), v@[i as int]);
            assert(v@.take(i as int).push(v@[i as int]) =~= v@.take(i + 1));
        }
        r.push(x);
        i = i + 1;
    }
    assert(v@.take(v.len() as int) =~= v@);
    r
}

pub fn copy_bindings(v: &Vec<(String, Type)>) -> (r: Vec<(String, Type)>)
    ensures
        bindings_of(r@) == bindings_of(v@),
    decreases v,
{
    let mut r: Vec<(String, Type)> = Vec::new();
    let mut i: usize = 0;
    while i < v.len()
        invariant
            i <= v.len(),
            bindings_of(r@) == bindings_of(v@.take(i as int)),
        decreases v.len() - i,
    {
        proof {
            assert(decreases_to!(v => v@));
            assert(decreases_to!(v@ => v@[i as int]));
        }
        let b = (v[i].0.clone(), v[i].1.copy());
        proof {
            lemma_bindings_of_push(r@, b);
            lemma_bindings_of_push(v@.take(i as int), v@[i as int]);
            assert(v@.take(i as int).push(v@[i as int]) =~= v@.take(i + 1));
        }
        r.push(b);
        i = i + 1;
    }
    assert(v@.take(v.len() as int) =~= v@);
    r
}

impl Function {
    pub fn new(params: Vec<Type>, body: Vec<Type>, environ: Vec<(String, Type)>) -> (r: Function)
        ensures
            r.params == params,
            r.body == body,
            r.environ == environ,
    {
        Function { params, body, environ }
    }

    pub fn copy(&self) -> (r: Function)
        ensures
            r.model() == self.model(),
        decreases self,
    {
        Function {
            params: copy_values(&self.params),
            body: copy_values(&self.body),
            environ: copy_bindings(&self.environ),
        }
    }
}

/// A literal's text without its sign, if it has one.
pub open spec fn unsigned_part(t: Seq<char>) -> Seq<char> {
    if t.len() > 0 && (t[0] == '-' || t[0] == '+') {
        t.drop_first()
    } else {
        t
    }
}

/// The integer that a literal's text denotes: an optional sign and one or
/// more decimal digits.
pub open spec fn digits_value(t: Seq<char>) -> int
    decreases t.len(),
{
    if t.len() == 0 {
        0
    } else {
        digits_value(t.drop_last()) * 10 + (t.last() as int - '0' as int)
    }
}

pub open spec fn all_digits(t: Seq<char>) -> bool {
    forall|i: int| 0 <= i < t.len() ==> '0' <= #[trigger] t[i] && t[i] <= '9'
}

pub open spec fn literal_value(t: Seq<char>) -> Option<int> {
    let neg = t.len() > 0 && t[0] == '-';
    let digits = unsigned_part(t);
    if digits.len() > 0 && all_digits(digits) {
        Some(
            if neg {
                -digits_value(digits)
            } else {
                digits_value(digits)
            },
        )
    } else {
        None
    }
}

/// The `i64` that an integer literal denotes, where it denotes one in range.
pub open spec fn int_of_literal(t: Seq<char>) -> Option<i64> {
    match literal_value(t) {
        Some(v) => if i64::MIN <= v <= i64::MAX {
            Some(v as i64)
        } else {
            None
        },
        None => None,
    }
}

/// The number of `.` in `t`.
pub open spec fn dots(t: Seq<char>) -> nat
    decreases t.len(),
{
    if t.len() == 0 {
        0
    } else {
        dots(t.drop_last()) + if t.last() == '.' {
            1nat
        } else {
            0nat
        }
    }
}

/// Whether a float literal reads as a number: an optional sign, then ASCII
/// digits and exactly one `.`, with at least one digit.
pub open spec fn float_literal_ok(t: Seq<char>) -> bool {
    let d = unsigned_part(t);
    &&& forall|i: int| 0 <= i < d.len() ==> (#[trigger] d[i]) == '.' || ('0' <= d[i] && d[i] <= '9')
    &&& dots(d) == 1
    &&& dots(d) < d.len()
}

/// Checks the text of a float literal against `float_literal_ok`.
pub fn float_text_ok(text: &String) -> (r: bool)
    ensures
        r == float_literal_ok(text@),
{
    let cs = crate::lexer::chars_of(text.as_str());
    let len = cs.len();
    let start: usize = if len > 0 && (cs[0] == '-' || cs[0] == '+') {
        1
    } else {
        0
    };
    let ghost d = cs@.subrange(start as int, len as int);
    assert(d == unsigned_part(text@));
    let mut n: usize = 0;
    let mut i = start;
    assert(d.take(0) =~= Seq::<char>::empty());
    while i < len
        invariant
            start <= i <= len,
            len == cs.len(),
            d == cs@.subrange(start as int, len as int),
            n as int == dots(d.take(i - start)),
            n <= i - start,
            cs@ == text@,
            d == unsigned_part(text@),
            forall|j: int| start <= j < i ==> (#[trigger] cs@[j]) == '.' || ('0' <= cs@[j] && cs@[j] <= '9'),
        decreases len - i,
    {
        let c = cs[i];
        assert(d.take(i - start + 1).drop_last() =~= d.take(i - start));
        assert(d[i - start] == c);
        if c == '.' {
            n = n + 1;
        } else if !('0' <= c && c <= '9') {
            return false;
        }
        i = i + 1;
    }
    assert(d.take(len - start) =~= d);
    assert forall|j: int| 0 <= j < d.len() implies (#[trigger] d[j]) == '.' || ('0' <= d[j] && d[j] <= '9') by {
        assert(d[j] == cs@[start + j]);
    }
    n == 1 && n < len - start
}

/// The value of an atom token.
pub open spec fn atom_of(t: Lexeme) -> Result<Value, ParseError> {
    match t {
        Lexeme::Float(s) => if float_literal_ok(s) {
            Ok(Value::Float(s))
        } else {
            Err(ParseError::InvalidFloat)
        },
        Lexeme::Int(s) => match int_of_literal(s) {
            Some(n) => Ok(Value::Int(n)),
            None => Err(ParseError::InvalidInt),
        },
        Lexeme::StrLit(s) => Ok(Value::StrLit(s)),
        Lexeme::Symbol(s) => Ok(Value::Symbol(s)),
        _ => Err(ParseError::NotAnAtom),
    }
}

proof fn lemma_digits_step(t: Seq<char>, i: int)
    requires
        0 <= i < t.len(),
    ensures
        digits_value(t.take(i + 1)) == digits_value(t.take(i)) * 10 + (t[i] as int - '0' as int),
{
    assert(t.take(i + 1).drop_last() =~= t.take(i));
}

/// Reads the integer of a literal such as `-0001`: a sign, then decimal digits.
pub fn parse_int(text: &String) -> (r: Option<i64>)
    ensures
        r == int_of_literal(text@),
{
    let t = text.as_str();
    let cs = crate::lexer::chars_of(t);
    let len = cs.len();
    let neg = len > 0 && cs[0] == '-';
    let start: usize = if len > 0 && (cs[0] == '-' || cs[0] == '+') {
        1
    } else {
        0
    };
    if start >= len {
        return None;
    }
    let ghost d = if start == 1 {
        cs@.drop_first()
    } else {
        cs@
    };
    assert(d =~= cs@.subrange(start as int, len as int));
    assert(d == unsigned_part(text@));
    let limit: u64 = if neg {
        9223372036854775808
    } else {
        9223372036854775807
    };
    let mut m: u64 = 0;
    let mut in_range = true;
    let mut i = start;
    while i < len
        invariant
            start <= i <= len,
            len == cs.len(),
            d == cs@.subrange(start as int, len as int),
            cs@ == text@,
            d == unsigned_part(text@),
            neg == (text@.len() > 0 && text@[0] == '-'),
            limit == if neg {
                9223372036854775808u64
            } else {
                9223372036854775807u64
            },
            forall|j: int| start <= j < i ==> '0' <= #[trigger] cs@[j] && cs@[j] <= '9',
            in_range ==> m as int == digits_value(d.take(i - start)) && m <= limit,
            !in_range ==> digits_value(d.take(i - start)) > limit,
        decreases len - i,
    {
        let c = cs[i];
        if !('0' <= c && c <= '9') {
            assert(d[i - start] == c);
            assert(!all_digits(d));
            return None;
        }
        let k: u64 = (c as u32 - '0' as u32) as u64;
        proof {
            lemma_digits_step(d, i - start);
            assert(d[i - start] == c);
            lemma_digits_nonneg(d.take(i - start));
        }
        if in_range {
            if m > (limit - k) / 10 {
                in_range = false;
                assert(m * 10 + k > limit) by (nonlinear_arith)
                    requires
                        m > (limit - k) / 10,
                        k <= 9,
                        limit >= 9,
                ;
            } else {
                assert(m * 10 + k <= limit) by (nonlinear_arith)
                    requires
                        m <= (limit - k) / 10,
                        k <= 9,
                        limit >= 9,
                ;
                m = m * 10 + k;
            }
        } else {
            assert(digits_value(d.take(i - start)) * 10 + k > limit) by (nonlinear_arith)
                requires
                    digits_value(d.take(i - start)) > limit,
                    limit >= 9,
            ;
        }
        i = i + 1;
    }
    assert(d.take(len - start) =~= d);
    assert(all_digits(d));
    if !in_range {
        None
    } else if neg {
        if m == 9223372036854775808 {
            Some(i64::MIN)
        } else {
            Some(-(m as i64))
        }
    } else {
        Some(m as i64)
    }
}

proof fn lemma_digits_nonneg(t: Seq<char>)
    requires
        all_digits(t),
    ensures
        digits_value(t) >= 0,
    decreases t.len(),
{
    if t.len() > 0 {
        lemma_digits_nonneg(t.drop_last());
    }
}

impl Type {
    pub fn copy(&self) -> (r: Type)
        ensures
            r.model() == self.model(),
        decreases self,
    {
        match self {
            Type::Float(t) => Type::Float(t.clone()),
            Type::Int(n) => Type::Int(*n),
            Type::StrLit(t) => Type::StrLit(t.clone()),
            Type::Symbol(t) => Type::Symbol(t.clone()),
            Type::SExpr(v) => Type::SExpr(copy_values(v)),
            Type::List(v) => Type::List(copy_values(v)),
            Type::Quoted(b) => Type::Quoted(Box::new((**b).copy())),
            Type::Function(f) => Type::Function(f.copy()),
            Type::Builtin(b) => Type::Builtin(*b),
            Type::Macro(m) => Type::Macro(*m),
            Type::Nil => Type::Nil,
        }
    }

    /// The value of an atom token: a float keeps its text, an integer is read
    /// from its literal.
    pub fn from_tok(token: Token) -> (r: Result<Type, ParseError>)
        ensures
            match r {
                Ok(v) => atom_of(token@) == Ok::<Value, ParseError>(v.model()),
                Err(e) => atom_of(token@) == Err::<Value, ParseError>(e),
            },
    {
        match token {
            Token::Float(t) => if float_text_ok(&t) {
                Ok(Type::Float(t))
            } else {
                Err(ParseError::InvalidFloat)
            },
            Token::Int(t) => match parse_int(&t) {
                Some(n) => Ok(Type::Int(n)),
                None => Err(ParseError::InvalidInt),
            },
            Token::StrLit(t) => Ok(Type::StrLit(t)),
            Token::Symbol(t) => Ok(Type::Symbol(t)),
            _ => Err(ParseError::NotAnAtom),
        }
    }

    /// The name of a symbol, the only kind of value that can be bound.
    pub fn as_key(&self) -> (r: Option<String>)
        ensures
            match self {
                Type::Symbol(s) => r == Some(*s),
                _ => r is None,
            },
    {
        match self {
            Type::Symbol(s) => Some(s.clone()),
            _ => None,
        }
    }
}

impl Clone for Type {
    fn clone(&self) -> (r: Type)
        ensures
            r.model() == self.model(),
    {
        self.copy()
    }
}

impl Clone for Function {
    fn clone(&self) -> (r: Function)
        ensures
            r.model() == self.model(),
    {
        self.copy()
    }
}

// ---------------------------------------------------------------------------
// Scopes

/// The value bound to `k` in a list of bindings, where a later binding hides
/// an earlier one.
pub open spec fn lookup(bs: Seq<(Seq<char>, Value)>, k: Seq<char>) -> Option<Value>
    decreases bs.len(),
{
    if bs.len() == 0 {
        None
    } else if bs.last().0 == k {
        Some(bs.last().1)
    } else {
        lookup(bs.drop_last(), k)
    }
}

/// The model of a scope: the bindings it was made from, and those put into it.
pub struct Env {
    pub environ: Seq<(Seq<char>, Value)>,
    pub local: Seq<(Seq<char>, Value)>,
}

impl Env {
    /// What a name resolves to: its local binding, else its base binding.
    pub open spec fn get(self, k: Seq<char>) -> Option<Value> {
        match lookup(self.local, k) {
            Some(v) => Some(v),
            None => lookup(self.environ, k),
        }
    }

    /// The base bindings of a snapshot of this scope.
    pub open spec fn fork(self) -> Seq<(Seq<char>, Value)> {
        self.environ + self.local
    }

    /// This scope with `k` bound to `v` locally.
    pub open spec fn put(self, k: Seq<char>, v: Value) -> Env {
        Env { environ: self.environ, local: self.local.push((k, v)) }
    }
}

/// A two-tier environment: base bindings, and the bindings made in this scope.
#[derive(Debug, PartialEq)]
pub struct Scope {
    environ: Vec<(String, Type)>,
    local: Vec<(String, Type)>,
}

impl View for Scope {
    type V = Env;

    closed spec fn view(&self) -> Env {
        Env { environ: bindings_of(self.environ@), local: bindings_of(self.local@) }
    }
}

/// Looking a name up in a snapshot of a scope finds what the scope itself finds.
pub proof fn lemma_fork_lookup(e: Env, k: Seq<char>)
    ensures
        lookup(e.fork(), k) == e.get(k),
    decreases e.local.len(),
{
    if e.local.len() > 0 {
        let e2 = Env { environ: e.environ, local: e.local.drop_last() };
        lemma_fork_lookup(e2, k);
        assert(e.fork().drop_last() =~= e2.fork());
    } else {
        assert(e.fork() =~= e.environ);
    }
}

fn find(bs: &Vec<(String, Type)>, key: &String) -> (r: Option<Type>)
    ensures
        match r {
            Some(v) => lookup(bindings_of(bs@), key@) == Some(v.model()),
            None => lookup(bindings_of(bs@), key@) is None,
        },
{
    let mut i = bs.len();
    proof {
        assert(bs@.take(i as int) =~= bs@);
    }
    while i > 0
        invariant
            i <= bs.len(),
            lookup(bindings_of(bs@.take(i as int)), key@) == lookup(bindings_of(bs@), key@),
        decreases i,
    {
        proof {
            lemma_bindings_of_push(bs@.take(i - 1), bs@[i - 1]);
            assert(bs@.take(i - 1).push(bs@[i - 1]) =~= bs@.take(i as int));
            lemma_bindings_of(bs@.take(i - 1));
            assert(bindings_of(bs@.take(i as int)).drop_last() =~= bindings_of(bs@.take(i - 1)));
        }
        if bs[i - 1].0 == *key {
            return Some(bs[i - 1].1.copy());
        }
        i = i - 1;
    }
    None
}

impl Scope {
    pub fn new(environ: Vec<(String, Type)>) -> (r: Scope)
        ensures
            r@ == (Env { environ: bindings_of(environ@), local: Seq::empty() }),
    {
        let r = Scope { environ, local: Vec::new() };
        assert(bindings_of(r.local@) =~= Seq::empty());
        r
    }

    /// Binds `key` to `value` in this scope, hiding any earlier binding of it.
    pub fn put(&mut self, key: String, value: Type)
        ensures
            final(self)@ == old(self)@.put(key@, value.model()),
    {
        proof {
            lemma_bindings_of_push(self.local@, (key, value));
        }
        self.local.push((key, value));
    }

    /// A snapshot of the bindings visible in this scope, local ones taking precedence.
    pub fn fork(&self) -> (r: Vec<(String, Type)>)
        ensures
            bindings_of(r@) == self@.fork(),
    {
        let mut r = copy_bindings(&self.environ);
        let mut l = copy_bindings(&self.local);
        proof {
            lemma_bindings_of_add(r@, l@);
        }
        r.append(&mut l);
        r
    }

    /// The value that `key` resolves to, if it is bound.
    pub fn get(&self, key: &String) -> (r: Option<Type>)
        ensures
            match r {
                Some(v) => self@.get(key@) == Some(v.model()),
                None => self@.get(key@) is None,
            },
    {
        match find(&self.local, key) {
            Some(v) => Some(v),
            None => find(&self.environ, key),
        }
    }

    /// A copy of this scope, with the same bindings.
    pub fn copy(&self) -> (r: Scope)
        ensures
            r@ == self@,
    {
        Scope { environ: copy_bindings(&self.environ), local: copy_bindings(&self.local) }
    }
}

} // verus!
