use vstd::prelude::*;
use crate::lexer::{lemma_lex_step_advances, lex_step, LexError, Lexeme, Lexer, Token};
use crate::types::{atom_of, values_of, Type, Value};

verus! {

/// The ways in which a token stream can fail to be a sequence of forms.
#[derive(Debug, PartialEq, Eq, Clone, Copy, Structural)]
pub enum ParseError {
    /// The text is not a token stream.
    Lex(LexError),
    /// A `)` with no `(` open.
    TooManyClosingParens,
    /// A `'` directly before a `)`.
    InvalidQuotation,
    /// The text ends inside a form.
    UnclosedForm,
    /// An integer literal that is no `i64`.
    InvalidInt,
    /// A float literal that is no number, such as `1.2.3`.
    InvalidFloat,
    /// A token that is not an atom where an atom was asked for.
    NotAnAtom,
}

/// A marker on the parser's stack.
enum ValOrCtrl {
    LParen,
    Quote,
    Val(Type),
}

/// The model of a stack marker.
pub enum Mark {
    LParen,
    Quote,
    Val(Value),
}

spec fn mark_of(m: ValOrCtrl) -> Mark {
    match m {
        ValOrCtrl::LParen => Mark::LParen,
        ValOrCtrl::Quote => Mark::Quote,
        ValOrCtrl::Val(v) => Mark::Val(v.model()),
    }
}

spec fn marks_of(s: Seq<ValOrCtrl>) -> Seq<Mark> {
    s.map_values(|m: ValOrCtrl| mark_of(m))
}

/// Whether an open parenthesis stands on the stack.
pub open spec fn has_lparen(st: Seq<Mark>) -> bool {
    exists|i: int| 0 <= i < st.len() && #[trigger] st[i] is LParen
}

/// How many values stand on top of the stack, above any other marker.
pub open spec fn top_vals(st: Seq<Mark>) -> nat
    decreases st.len(),
{
    if st.len() > 0 && st.last() is Val {
        1 + top_vals(st.drop_last())
    } else {
        0
    }
}

/// The values held by a run of markers.
pub open spec fn vals(st: Seq<Mark>) -> Seq<Value> {
    st.map_values(|m: Mark| m->Val_0)
}

/// Wraps `v` in one `Quoted` for each quote mark on top of the stack, and pops them.
pub open spec fn apply_quotes(v: Value, st: Seq<Mark>) -> (Value, Seq<Mark>)
    decreases st.len(),
{
    if st.len() > 0 && st.last() is Quote {
        apply_quotes(Value::Quoted(Box::new(v)), st.drop_last())
    } else {
        (v, st)
    }
}

/// A finished value, quoted as the stack asks: a complete top-level form where
/// the stack is then empty, else pushed back onto the stack.
pub open spec fn settle(v: Value, st: Seq<Mark>) -> (Seq<Mark>, Option<Value>) {
    let (w, rest) = apply_quotes(v, st);
    if rest.len() == 0 {
        (rest, Some(w))
    } else {
        (rest.push(Mark::Val(w)), None)
    }
}

/// The form that a `)` closes: the values above the innermost `(`, as `Nil`
/// where there are none.
pub open spec fn reduce(st: Seq<Mark>) -> Result<(Seq<Mark>, Option<Value>), ParseError> {
    let k = top_vals(st);
    let rest = st.subrange(0, st.len() - k);
    if rest.len() == 0 || !(rest.last() is LParen) {
        Err(ParseError::TooManyClosingParens)
    } else {
        let items = vals(st.subrange(st.len() - k, st.len() as int));
        let v = if k == 0 {
            Value::Nil
        } else {
            Value::SExpr(items)
        };
        Ok(settle(v, rest.drop_last()))
    }
}

/// One token's effect on the stack, with the top-level form that it completes.
pub open spec fn parse_step(st: Seq<Mark>, t: Lexeme) -> Result<
    (Seq<Mark>, Option<Value>),
    ParseError,
> {
    match t {
        Lexeme::LParen => Ok((st.push(Mark::LParen), None)),
        Lexeme::Quote => Ok((st.push(Mark::Quote), None)),
        Lexeme::Comment(_) => Ok((st, None)),
        Lexeme::RParen => if st.len() > 0 && st.last() is Quote {
            if has_lparen(st) {
                Err(ParseError::InvalidQuotation)
            } else {
                Err(ParseError::TooManyClosingParens)
            }
        } else {
            reduce(st)
        },
        _ => match atom_of(t) {
            Ok(v) => Ok(settle(v, st)),
            Err(e) => Err(e),
        },
    }
}

/// The top-level forms of the text `s` from position `p` on, given the stack
/// `st` and the forms `out` already completed.
pub open spec fn parse_from(s: Seq<char>, p: int, st: Seq<Mark>, out: Seq<Value>) -> Result<
    Seq<Value>,
    ParseError,
>
    decreases s.len() - p,
{
    match lex_step(s, p) {
        (Err(e), _) => Err(ParseError::Lex(e)),
        (Ok(None), _) => if st.len() == 0 {
            Ok(out)
        } else {
            Err(ParseError::UnclosedForm)
        },
        (Ok(Some(t)), q) => if p < q <= s.len() {
            match parse_step(st, t) {
                Err(e) => Err(e),
                Ok((st2, done)) => parse_from(
                    s,
                    q,
                    st2,
                    match done {
                        Some(v) => out.push(v),
                        None => out,
                    },
                ),
            }
        } else {
            Err(ParseError::UnclosedForm)
        },
    }
}

proof fn lemma_marks_push(s: Seq<ValOrCtrl>, m: ValOrCtrl)
    ensures
        marks_of(s.push(m)) == marks_of(s).push(mark_of(m)),
{
    assert(marks_of(s.push(m)) =~= marks_of(s).push(mark_of(m)));
}

proof fn lemma_marks_prefix(s: Seq<ValOrCtrl>, n: int)
    requires
        0 <= n <= s.len(),
    ensures
        marks_of(s.subrange(0, n)) == marks_of(s).subrange(0, n),
        marks_of(s.subrange(n, s.len() as int)) == marks_of(s).subrange(n, s.len() as int),
{
    assert(marks_of(s.subrange(0, n)) =~= marks_of(s).subrange(0, n));
    assert(marks_of(s.subrange(n, s.len() as int)) =~= marks_of(s).subrange(
        n,
        s.len() as int,
    ));
}

/// Pops the quote marks on top of the stack, wrapping `value` once for each.
fn handle_quotes(stack: &mut Vec<ValOrCtrl>, value: Type) -> (r: Type)
    ensures
        (r.model(), marks_of(final(stack)@)) == apply_quotes(value.model(), marks_of(old(stack)@)),
{
    let mut v = value;
    while stack.len() > 0 && matches!(stack[stack.len() - 1], ValOrCtrl::Quote)
        invariant
            apply_quotes(v.model(), marks_of(stack@)) == apply_quotes(
                value.model(),
                marks_of(old(stack)@),
            ),
        decreases stack.len(),
    {
        proof {
            lemma_marks_prefix(stack@, stack.len() - 1);
            assert(marks_of(stack@).drop_last() =~= marks_of(stack@).subrange(
                0,
                stack.len() - 1,
            ));
        }
        stack.pop();
        v = Type::Quoted(Box::new(v));
    }
    v
}

/// Index of the lowest of the values on top of the stack.
fn top_vals_start(stack: &Vec<ValOrCtrl>) -> (j: usize)
    ensures
        j <= stack.len(),
        j == stack.len() - top_vals(marks_of(stack@)),
{
    let mut j = stack.len();
    proof {
        assert(marks_of(stack@).subrange(0, j as int) =~= marks_of(stack@));
    }
    while j > 0 && matches!(stack[j - 1], ValOrCtrl::Val(_))
        invariant
            j <= stack.len(),
            top_vals(marks_of(stack@)) == stack.len() - j + top_vals(
                marks_of(stack@).subrange(0, j as int),
            ),
        decreases j,
    {
        proof {
            assert(marks_of(stack@).subrange(0, j as int).drop_last() =~= marks_of(
                stack@,
            ).subrange(0, j - 1));
        }
        j = j - 1;
    }
    j
}

/// Pops the form that a `)` closes, with its `(`.
fn pop_sexpr(stack: &mut Vec<ValOrCtrl>) -> (r: Result<Type, ParseError>)
    ensures
        ({
            let st = marks_of(old(stack)@);
            let k = top_vals(st);
            let rest = st.subrange(0, st.len() - k);
            match r {
                Err(e) => (rest.len() == 0 || !(rest.last() is LParen)) && e
                    == ParseError::TooManyClosingParens,
                Ok(v) => rest.len() > 0 && rest.last() is LParen && marks_of(final(stack)@)
                    == rest.drop_last() && v.model() == (if k == 0 {
                    Value::Nil
                } else {
                    Value::SExpr(vals(st.subrange(st.len() - k, st.len() as int)))
                }),
            }
        }),
{
    let ghost st = marks_of(stack@);
    let j = top_vals_start(stack);
    proof {
        lemma_marks_prefix(stack@, j as int);
    }
    if j == 0 || !matches!(stack[j - 1], ValOrCtrl::LParen) {
        return Err(ParseError::TooManyClosingParens);
    }
    let tail = stack.split_off(j);
    let ghost tl = tail@;
    proof {
        lemma_top_vals_are_vals(st, j as int);
        assert forall|x: int| 0 <= x < tl.len() implies (#[trigger] marks_of(tl)[x]) is Val by {
            assert(marks_of(tl)[x] == st[j + x]);
        }
    }
    let mut items: Vec<Type> = Vec::new();
    let mut i: usize = 0;
    while i < tail.len()
        invariant
            i <= tail.len(),
            tail@ == tl,
            marks_of(tl) == st.subrange(j as int, st.len() as int),
            forall|x: int| 0 <= x < tl.len() ==> (#[trigger] marks_of(tl)[x]) is Val,
            values_of(items@) == vals(marks_of(tl).subrange(0, i as int)),
        decreases tail.len() - i,
    {
        match &tail[i] {
            ValOrCtrl::Val(v) => {
                let c = v.copy();
                proof {
                    crate::types::lemma_values_of_push(items@, c);
                    assert(vals(marks_of(tl).subrange(0, i + 1)) =~= vals(
                        marks_of(tl).subrange(0, i as int),
                    ).push(c.model()));
                }
                items.push(c);
            },
            _ => {
                assert(marks_of(tl)[i as int] == mark_of(tl[i as int]));
            },
        }
        i = i + 1;
    }
    proof {
        assert(marks_of(tl).subrange(0, tl.len() as int) =~= marks_of(tl));
        lemma_marks_prefix(stack@, j - 1);
        assert(marks_of(stack@).subrange(0, j - 1) =~= st.subrange(0, j as int).drop_last());
    }
    stack.pop();
    proof {
        lemma_marks_prefix(old(stack)@, j - 1);
    }
    if items.len() == 0 {
        Ok(Type::Nil)
    } else {
        Ok(Type::SExpr(items))
    }
}

proof fn lemma_top_vals_are_vals(st: Seq<Mark>, j: int)
    requires
        0 <= j,
        j == st.len() - top_vals(st),
    ensures
        forall|x: int| j <= x < st.len() ==> (#[trigger] st[x]) is Val,
    decreases st.len(),
{
    if st.len() > 0 && st.last() is Val {
        lemma_top_vals_are_vals(st.drop_last(), j);
        assert forall|x: int| j <= x < st.len() implies (#[trigger] st[x]) is Val by {
            if x < st.len() - 1 {
                assert(st.drop_last()[x] == st[x]);
            }
        }
    }
}

/// One token's effect on the parser's stack, with the top-level form that it completes.
fn shift(stack: &mut Vec<ValOrCtrl>, tok: Token) -> (r: Result<Option<Type>, ParseError>)
    ensures
        match parse_step(marks_of(old(stack)@), tok@) {
            Err(e) => r == Err::<Option<Type>, ParseError>(e),
            Ok((st2, done)) => r is Ok && marks_of(final(stack)@) == st2 && match r->Ok_0 {
                None => done is None,
                Some(v) => done == Some(v.model()),
            },
        },
{
    let ghost st = marks_of(stack@);
    let mut done: Option<Type> = None;
    match tok {
        Token::LParen => {
            proof {
                lemma_marks_push(stack@, ValOrCtrl::LParen);
            }
            stack.push(ValOrCtrl::LParen);
            return Ok(None);
        },
        Token::Quote => {
            proof {
                lemma_marks_push(stack@, ValOrCtrl::Quote);
            }
            stack.push(ValOrCtrl::Quote);
            return Ok(None);
        },
        Token::Comment(_) => {
            return Ok(None);
        },
        Token::RParen => {
            if stack.len() > 0 && matches!(stack[stack.len() - 1], ValOrCtrl::Quote) {
                proof {
                    assert(st[stack.len() - 1] == mark_of(stack@[stack.len() - 1]));
                }
                let mut i: usize = 0;
                let mut found = false;
                while i < stack.len() && !found
                    invariant
                        i <= stack.len(),
                        st == marks_of(stack@),
                        found ==> has_lparen(st),
                        !found ==> forall|x: int| 0 <= x < i ==> !(#[trigger] st[x] is LParen),
                    decreases stack.len() - i,
                {
                    proof {
                        assert(st[i as int] == mark_of(stack@[i as int]));
                    }
                    if matches!(stack[i], ValOrCtrl::LParen) {
                        found = true;
                    }
                    i = i + 1;
                }
                if found {
                    return Err(ParseError::InvalidQuotation);
                }
                return Err(ParseError::TooManyClosingParens);
            }
            let v = match pop_sexpr(stack) {
                Ok(v) => v,
                Err(e) => {
                    return Err(e);
                },
            };
            done = Some(v);
        },
        _ => {
            let v = match Type::from_tok(tok) {
                Ok(v) => v,
                Err(e) => {
                    return Err(e);
                },
            };
            done = Some(v);
        },
    }
    let v = done.unwrap();
    let w = handle_quotes(stack, v);
    if stack.len() == 0 {
        Ok(Some(w))
    } else {
        proof {
            lemma_marks_push(stack@, ValOrCtrl::Val(w));
        }
        stack.push(ValOrCtrl::Val(w));
        Ok(None)
    }
}

/// The next top-level form of the text `s` from position `p` on, given the
/// stack `st`: the form (`None` at the end of the text), the position after the
/// tokens read for it, and the stack that they leave.
pub open spec fn next_form(s: Seq<char>, p: int, st: Seq<Mark>) -> (
    Result<Option<Value>, ParseError>,
    int,
    Seq<Mark>,
)
    decreases s.len() - p,
{
    match lex_step(s, p) {
        (Err(e), q) => (Err(ParseError::Lex(e)), q, st),
        (Ok(None), q) => if st.len() == 0 {
            (Ok(None), q, st)
        } else {
            (Err(ParseError::UnclosedForm), q, st)
        },
        (Ok(Some(t)), q) => if p < q <= s.len() {
            match parse_step(st, t) {
                Err(e) => (Err(e), q, st),
                Ok((st2, Some(v))) => (Ok(Some(v)), q, st2),
                Ok((st2, None)) => next_form(s, q, st2),
            }
        } else {
            (Err(ParseError::UnclosedForm), q, st)
        },
    }
}

/// The top-level forms of a lexer's text, read one at a time as each completes.
/// After an error no further form is read.
pub struct Forms<'a> {
    lex: &'a mut Lexer,
    stack: Vec<ValOrCtrl>,
    failed: bool,
}

impl<'a> Forms<'a> {
    /// The lexer that the tokens come from.
    pub closed spec fn lexer(&self) -> Lexer {
        *self.lex
    }

    /// The stack of forms opened and not yet closed.
    pub closed spec fn pending(&self) -> Seq<Mark> {
        marks_of(self.stack@)
    }

    /// Whether an error has ended the sequence.
    pub closed spec fn failed(&self) -> bool {
        self.failed
    }

    /// The next top-level form: `None` at the end of the text or after an error.
    pub fn next(&mut self) -> (r: Option<Result<Type, ParseError>>)
        requires
            old(self).lexer().wf(),
        ensures
            final(self).lexer().wf(),
            final(self).lexer().source() == old(self).lexer().source(),
            old(self).failed() ==> r is None && final(self).failed(),
            !old(self).failed() ==> ({
                let (res, q, st) = next_form(
                    old(self).lexer().source(),
                    old(self).lexer().cursor(),
                    old(self).pending(),
                );
                &&& final(self).lexer().cursor() == q
                &&& match r {
                    None => res == Ok::<Option<Value>, ParseError>(None) && final(self).pending()
                        == st && !final(self).failed(),
                    Some(Ok(v)) => res == Ok::<Option<Value>, ParseError>(Some(v.model()))
                        && final(self).pending() == st && !final(self).failed(),
                    Some(Err(e)) => res == Err::<Option<Value>, ParseError>(e)
                        && final(self).failed(),
                }
            }),
    {
        if self.failed {
            return None;
        }
        let ghost s = self.lex.source();
        let ghost p0 = self.lex.cursor();
        let ghost st0 = marks_of(self.stack@);
        loop
            invariant
                self.lex.wf(),
                self.lex.source() == s,
                s == old(self).lexer().source(),
                p0 == old(self).lexer().cursor(),
                st0 == old(self).pending(),
                !old(self).failed(),
                !self.failed,
                0 <= self.lex.cursor() <= s.len(),
                next_form(s, self.lex.cursor(), marks_of(self.stack@)) == next_form(s, p0, st0),
            decreases s.len() - self.lex.cursor(),
        {
            let ghost p = self.lex.cursor();
            proof {
                lemma_lex_step_advances(s, p);
            }
            let tok = match self.lex.next() {
                Err(e) => {
                    self.failed = true;
                    return Some(Err(ParseError::Lex(e)));
                },
                Ok(None) => {
                    if self.stack.len() == 0 {
                        return None;
                    } else {
                        self.failed = true;
                        return Some(Err(ParseError::UnclosedForm));
                    }
                },
                Ok(Some(t)) => t,
            };
            match shift(&mut self.stack, tok) {
                Err(e) => {
                    self.failed = true;
                    return Some(Err(e));
                },
                Ok(Some(v)) => {
                    return Some(Ok(v));
                },
                Ok(None) => {},
            }
        }
    }
}

/// The top-level forms of the lexer's text from its cursor on, read lazily.
pub fn parse<'a>(lex: &'a mut Lexer) -> (r: Forms<'a>)
    ensures
        r.lexer() == *old(lex),
        r.pending() == Seq::<Mark>::empty(),
        !r.failed(),
{
    let r = Forms { lex, stack: Vec::new(), failed: false };
    assert(marks_of(r.stack@) =~= Seq::<Mark>::empty());
    r
}

/// Reads every top-level form of the lexer's text, from its cursor on.
/// On success the lexer has reached the end of the text: every token was read,
/// and every form that was opened was closed.
pub fn parse_all(lex: &mut Lexer) -> (r: Result<Vec<Type>, ParseError>)
    requires
        old(lex).wf(),
    ensures
        final(lex).wf(),
        final(lex).source() == old(lex).source(),
        match r {
            Ok(forms) => parse_from(
                old(lex).source(),
                old(lex).cursor(),
                Seq::empty(),
                Seq::empty(),
            ) == Ok::<Seq<Value>, ParseError>(values_of(forms@)) && final(lex).at_end(),
            Err(e) => parse_from(old(lex).source(), old(lex).cursor(), Seq::empty(), Seq::empty())
                == Err::<Seq<Value>, ParseError>(e),
        },
{
    let ghost s = lex.source();
    let ghost p0 = lex.cursor();
    let mut stack: Vec<ValOrCtrl> = Vec::new();
    let mut forms: Vec<Type> = Vec::new();
    proof {
        assert(marks_of(stack@) =~= Seq::empty());
        assert(values_of(forms@) =~= Seq::empty());
    }
    loop
        invariant
            lex.wf(),
            lex.source() == s,
            s == old(lex).source(),
            p0 == old(lex).cursor(),
            0 <= lex.cursor() <= s.len(),
            parse_from(s, lex.cursor(), marks_of(stack@), values_of(forms@)) == parse_from(
                s,
                p0,
                Seq::empty(),
                Seq::empty(),
            ),
        decreases s.len() - lex.cursor(),
    {
        let ghost p = lex.cursor();
        proof {
            lemma_lex_step_advances(s, p);
        }
        let tok = match lex.next() {
            Err(e) => {
                return Err(ParseError::Lex(e));
            },
            Ok(None) => {
                if stack.len() == 0 {
                    return Ok(forms);
                } else {
                    return Err(ParseError::UnclosedForm);
                }
            },
            Ok(Some(t)) => t,
        };
        match shift(&mut stack, tok) {
            Err(e) => {
                return Err(e);
            },
            Ok(Some(w)) => {
                proof {
                    crate::types::lemma_values_of_push(forms@, w);
                }
                forms.push(w);
            },
            Ok(None) => {},
        }
    }
}

} // verus!

verus! {

// ---------------------------------------------------------------------------
// Well-formed token streams parse

/// The forms of a token stream, given the stack `st` and the forms `out`
/// already completed.
pub open spec fn parse_tokens(st: Seq<Mark>, ts: Seq<Lexeme>, out: Seq<Value>) -> Result<
    Seq<Value>,
    ParseError,
>
    decreases ts.len(),
{
    if ts.len() == 0 {
        if st.len() == 0 {
            Ok(out)
        } else {
            Err(ParseError::UnclosedForm)
        }
    } else {
        match parse_step(st, ts[0]) {
            Err(e) => Err(e),
            Ok((st2, done)) => parse_tokens(
                st2,
                ts.drop_first(),
                match done {
                    Some(v) => out.push(v),
                    None => out,
                },
            ),
        }
    }
}

/// The tokens of the text `s` from position `p` on.
pub open spec fn lex_all(s: Seq<char>, p: int) -> Result<Seq<Lexeme>, LexError>
    decreases s.len() - p,
{
    match lex_step(s, p) {
        (Err(e), _) => Err(e),
        (Ok(None), _) => Ok(Seq::empty()),
        (Ok(Some(t)), q) => if p < q <= s.len() {
            match lex_all(s, q) {
                Ok(ts) => Ok(seq![t] + ts),
                Err(e) => Err(e),
            }
        } else {
            Ok(seq![t])
        },
    }
}

/// How many more `(` than `)` the tokens hold.
pub open spec fn depth(ts: Seq<Lexeme>) -> int
    decreases ts.len(),
{
    if ts.len() == 0 {
        0
    } else {
        depth(ts.drop_last()) + match ts.last() {
            Lexeme::LParen => 1int,
            Lexeme::RParen => -1int,
            _ => 0int,
        }
    }
}

/// The last token that is not a comment.
pub open spec fn last_code(ts: Seq<Lexeme>) -> Option<Lexeme>
    decreases ts.len(),
{
    if ts.len() == 0 {
        None
    } else if ts.last() is Comment {
        last_code(ts.drop_last())
    } else {
        Some(ts.last())
    }
}

/// Whether a quote waits for the form that it quotes.
pub open spec fn quote_pending(ts: Seq<Lexeme>) -> bool {
    last_code(ts) matches Some(Lexeme::Quote)
}

pub open spec fn is_atom(t: Lexeme) -> bool {
    t is Float || t is Int || t is StrLit || t is Symbol
}

/// A token stream whose parentheses balance, never closing more than are
/// open, where no quote stands before a `)` or at the end, and whose every
/// atom has a value.
pub open spec fn well_formed(ts: Seq<Lexeme>) -> bool {
    &&& forall|i: int| 0 <= i <= ts.len() ==> depth(#[trigger] ts.take(i)) >= 0
    &&& depth(ts) == 0
    &&& forall|i: int|
        0 <= i < ts.len() && (#[trigger] ts[i]) is RParen ==> !quote_pending(ts.take(i))
    &&& !quote_pending(ts)
    &&& forall|i: int| 0 <= i < ts.len() && is_atom(#[trigger] ts[i]) ==> atom_of(ts[i]) is Ok
}

/// How many `(` markers the stack holds.
pub open spec fn lparens(st: Seq<Mark>) -> int
    decreases st.len(),
{
    if st.len() == 0 {
        0
    } else {
        lparens(st.drop_last()) + if st.last() is LParen {
            1int
        } else {
            0int
        }
    }
}

/// The shape of every stack that parsing reaches: no value right above a quote,
/// and no value at the bottom.
pub open spec fn stack_ok(st: Seq<Mark>) -> bool {
    &&& forall|j: int| 0 < j < st.len() && (#[trigger] st[j]) is Val ==> !(st[j - 1] is Quote)
    &&& st.len() > 0 ==> !(st[0] is Val)
}

pub open spec fn top_is_quote(st: Seq<Mark>) -> bool {
    st.len() > 0 && st.last() is Quote
}

proof fn lemma_stack_ok_prefix(st: Seq<Mark>, n: int)
    requires
        stack_ok(st),
        0 <= n <= st.len(),
    ensures
        stack_ok(st.subrange(0, n)),
{
    let p = st.subrange(0, n);
    assert forall|j: int| 0 < j < p.len() && (#[trigger] p[j]) is Val implies !(p[j - 1] is Quote) by {
        assert(p[j] == st[j] && p[j - 1] == st[j - 1]);
    }
    if n > 0 {
        assert(p[0] == st[0]);
    }
}

proof fn lemma_apply_quotes(v: Value, st: Seq<Mark>)
    requires
        stack_ok(st),
    ensures
        ({
            let (w, rest) = apply_quotes(v, st);
            &&& rest.len() <= st.len()
            &&& rest == st.subrange(0, rest.len() as int)
            &&& stack_ok(rest)
            &&& lparens(rest) == lparens(st)
            &&& !top_is_quote(rest)
        }),
    decreases st.len(),
{
    if st.len() > 0 && st.last() is Quote {
        lemma_stack_ok_prefix(st, st.len() - 1);
        lemma_apply_quotes(Value::Quoted(Box::new(v)), st.drop_last());
        let rest = apply_quotes(v, st).1;
        assert(rest =~= st.subrange(0, rest.len() as int));
    } else {
        assert(st =~= st.subrange(0, st.len() as int));
    }
}

proof fn lemma_settle(v: Value, st: Seq<Mark>)
    requires
        stack_ok(st),
    ensures
        stack_ok(settle(v, st).0),
        lparens(settle(v, st).0) == lparens(st),
        !top_is_quote(settle(v, st).0),
{
    lemma_apply_quotes(v, st);
    let (w, rest) = apply_quotes(v, st);
    if rest.len() > 0 {
        let st2 = rest.push(Mark::Val(w));
        assert(st2.drop_last() =~= rest);
        assert forall|j: int| 0 < j < st2.len() && (#[trigger] st2[j]) is Val implies !(st2[j
            - 1] is Quote) by {
            if j < rest.len() {
                assert(st2[j] == rest[j] && st2[j - 1] == rest[j - 1]);
            }
        }
        assert(st2[0] == rest[0]);
    }
}

proof fn lemma_top_vals_le(st: Seq<Mark>)
    ensures
        top_vals(st) <= st.len(),
    decreases st.len(),
{
    if st.len() > 0 {
        lemma_top_vals_le(st.drop_last());
    }
}

/// Below the values on top of a well-shaped stack with a `(` open and no quote
/// on top stands a `(`.
proof fn lemma_reduce_finds_lparen(st: Seq<Mark>)
    requires
        stack_ok(st),
        lparens(st) > 0,
        !top_is_quote(st),
    ensures
        top_vals(st) < st.len(),
        st[st.len() - top_vals(st) - 1] is LParen,
        lparens(st.subrange(0, st.len() - top_vals(st))) == lparens(st),
    decreases st.len(),
{
    assert(st.len() > 0);
    if st.last() is Val {
        let s1 = st.drop_last();
        assert(top_vals(st) == 1 + top_vals(s1));
        assert(lparens(st) == lparens(s1));
        if s1.len() == 0 {
            assert(st[0] == st.last());
        } else {
            assert(st[st.len() - 1] is Val);
            assert(s1.last() == st[st.len() - 2]);
            lemma_stack_ok_prefix(st, st.len() - 1);
            assert(st.subrange(0, st.len() - 1) =~= s1);
            lemma_reduce_finds_lparen(s1);
            let n = s1.len() - top_vals(s1);
            assert(st.subrange(0, n) =~= s1.subrange(0, n));
            assert(st[n - 1] == s1[n - 1]);
        }
    } else {
        assert(st.last() is LParen);
        assert(top_vals(st) == 0);
        assert(st.subrange(0, st.len() as int) =~= st);
    }
}

/// A well-shaped stack with no `(` open and no quote on top is empty.
proof fn lemma_closed_stack_empty(st: Seq<Mark>)
    requires
        stack_ok(st),
        lparens(st) == 0,
        !top_is_quote(st),
    ensures
        st.len() == 0,
    decreases st.len(),
{
    if st.len() > 0 {
        let s1 = st.drop_last();
        lemma_lparens_nonneg(s1);
        assert(st.last() is Val);
        if s1.len() == 0 {
            assert(st[0] == st.last());
        } else {
            assert(st[st.len() - 1] is Val);
            assert(s1.last() == st[st.len() - 2]);
            lemma_stack_ok_prefix(st, st.len() - 1);
            assert(st.subrange(0, st.len() - 1) =~= s1);
            lemma_closed_stack_empty(s1);
        }
    }
}

proof fn lemma_lparens_nonneg(st: Seq<Mark>)
    ensures
        lparens(st) >= 0,
    decreases st.len(),
{
    if st.len() > 0 {
        lemma_lparens_nonneg(st.drop_last());
    }
}

/// The state of the parser after the first `i` tokens of a well-formed stream.
pub open spec fn parser_inv(st: Seq<Mark>, pre: Seq<Lexeme>) -> bool {
    &&& stack_ok(st)
    &&& lparens(st) == depth(pre)
    &&& top_is_quote(st) == quote_pending(pre)
}

proof fn lemma_push_keeps_shape(st: Seq<Mark>, m: Mark)
    requires
        stack_ok(st),
        !(m is Val),
    ensures
        stack_ok(st.push(m)),
        lparens(st.push(m)) == lparens(st) + if m is LParen {
            1int
        } else {
            0int
        },
{
    let st2 = st.push(m);
    assert(st2.drop_last() =~= st);
    assert forall|j: int| 0 < j < st2.len() && (#[trigger] st2[j]) is Val implies !(st2[j
        - 1] is Quote) by {
        assert(st2[j] == st[j] && st2[j - 1] == st[j - 1]);
    }
    if st.len() > 0 {
        assert(st2[0] == st[0]);
    }
}

/// One token of a well-formed stream keeps the parser's state in shape.
proof fn lemma_step_keeps_inv(st: Seq<Mark>, pre: Seq<Lexeme>, t: Lexeme)
    requires
        parser_inv(st, pre),
        depth(pre.push(t)) >= 0,
        t is RParen ==> !quote_pending(pre),
        is_atom(t) ==> atom_of(t) is Ok,
    ensures
        parse_step(st, t) is Ok,
        parser_inv(parse_step(st, t)->Ok_0.0, pre.push(t)),
{
    let pre1 = pre.push(t);
    assert(pre1.drop_last() =~= pre);
    assert(pre1.last() == t);
    match t {
        Lexeme::LParen => {
            lemma_push_keeps_shape(st, Mark::LParen);
        },
        Lexeme::Quote => {
            lemma_push_keeps_shape(st, Mark::Quote);
        },
        Lexeme::Comment(_) => {},
        Lexeme::RParen => {
            lemma_reduce_finds_lparen(st);
            let k = top_vals(st);
            let rest = st.subrange(0, st.len() - k);
            lemma_stack_ok_prefix(st, st.len() - k);
            assert(rest.last() == st[st.len() - k - 1]);
            lemma_stack_ok_prefix(rest, rest.len() - 1);
            assert(rest.subrange(0, rest.len() - 1) =~= rest.drop_last());
            let items = vals(st.subrange(st.len() - k, st.len() as int));
            let v = if k == 0 {
                Value::Nil
            } else {
                Value::SExpr(items)
            };
            lemma_settle(v, rest.drop_last());
        },
        _ => {
            lemma_settle(atom_of(t)->Ok_0, st);
        },
    }
}

proof fn lemma_wf_parses_from(w: Seq<Lexeme>, i: int, st: Seq<Mark>, out: Seq<Value>)
    requires
        well_formed(w),
        0 <= i <= w.len(),
        parser_inv(st, w.take(i)),
    ensures
        parse_tokens(st, w.subrange(i, w.len() as int), out) is Ok,
    decreases w.len() - i,
{
    let ts = w.subrange(i, w.len() as int);
    if i == w.len() {
        assert(w.take(i) =~= w);
        lemma_closed_stack_empty(st);
    } else {
        let t = w[i];
        assert(ts[0] == t);
        assert(ts.drop_first() =~= w.subrange(i + 1, w.len() as int));
        assert(w.take(i + 1) =~= w.take(i).push(t));
        assert(depth(w.take(i + 1)) >= 0);
        if t is RParen {
            assert(!quote_pending(w.take(i)));
        }
        lemma_step_keeps_inv(st, w.take(i), t);
        let (st2, done) = parse_step(st, t)->Ok_0;
        lemma_wf_parses_from(
            w,
            i + 1,
            st2,
            match done {
                Some(x) => out.push(x),
                None => out,
            },
        );
    }
}

/// A well-formed token stream parses without error: each `)` closes an open
/// form, every form is closed at the end, and every quote quotes a form.
pub proof fn lemma_well_formed_tokens_parse(ts: Seq<Lexeme>)
    requires
        well_formed(ts),
    ensures
        parse_tokens(Seq::empty(), ts, Seq::empty()) is Ok,
{
    assert(ts.take(0) =~= Seq::<Lexeme>::empty());
    assert(ts.subrange(0, ts.len() as int) =~= ts);
    lemma_wf_parses_from(ts, 0, Seq::empty(), Seq::empty());
}

/// Parsing a text reads its tokens one by one.
pub proof fn lemma_parse_from_tokens(s: Seq<char>, p: int, st: Seq<Mark>, out: Seq<Value>)
    requires
        0 <= p <= s.len(),
        lex_all(s, p) is Ok,
    ensures
        parse_from(s, p, st, out) == parse_tokens(st, lex_all(s, p)->Ok_0, out),
    decreases s.len() - p,
{
    lemma_lex_step_advances(s, p);
    let (r, q) = lex_step(s, p);
    if let Ok(Some(t)) = r {
        let ts = lex_all(s, q)->Ok_0;
        assert((seq![t] + ts).drop_first() =~= ts);
        assert((seq![t] + ts)[0] == t);
        match parse_step(st, t) {
            Err(e) => {},
            Ok((st2, done)) => {
                lemma_parse_from_tokens(
                    s,
                    q,
                    st2,
                    match done {
                        Some(v) => out.push(v),
                        None => out,
                    },
                );
            },
        }
    }
}

/// A text whose tokens form a well-formed stream parses without error, so
/// `parse_all` reads it to its end.
pub proof fn lemma_well_formed_text_parses(s: Seq<char>)
    requires
        lex_all(s, 0) is Ok,
        well_formed(lex_all(s, 0)->Ok_0),
    ensures
        parse_from(s, 0, Seq::empty(), Seq::empty()) is Ok,
{
    lemma_parse_from_tokens(s, 0, Seq::empty(), Seq::empty());
    lemma_well_formed_tokens_parse(lex_all(s, 0)->Ok_0);
}

} // verus!

verus! {

// ---------------------------------------------------------------------------
// Parsing uses every token once, in order

/// A token as a parsed form accounts for it: a parenthesis, a quote or the
/// value of an atom.
pub enum Piece {
    Open,
    Close,
    Quote,
    Atom(Value),
}

/// The pieces that a form was parsed from.
pub open spec fn flat(v: Value) -> Seq<Piece>
    decreases v,
{
    match v {
        Value::Nil => seq![Piece::Open, Piece::Close],
        Value::SExpr(items) => seq![Piece::Open] + flat_all(items) + seq![Piece::Close],
        Value::Quoted(b) => seq![Piece::Quote] + flat(*b),
        _ => seq![Piece::Atom(v)],
    }
}

/// The pieces of a sequence of forms, in order.
pub open spec fn flat_all(vs: Seq<Value>) -> Seq<Piece>
    decreases vs,
{
    if vs.len() == 0 {
        Seq::empty()
    } else {
        flat_all(vs.subrange(0, vs.len() - 1)) + flat(vs[vs.len() - 1])
    }
}

/// The pieces still on the parser's stack.
pub open spec fn flat_marks(st: Seq<Mark>) -> Seq<Piece>
    decreases st.len(),
{
    if st.len() == 0 {
        Seq::empty()
    } else {
        flat_marks(st.drop_last()) + match st.last() {
            Mark::LParen => seq![Piece::Open],
            Mark::Quote => seq![Piece::Quote],
            Mark::Val(v) => flat(v),
        }
    }
}

/// The pieces of a token stream: comments give none, an atom gives its value.
pub open spec fn pieces(ts: Seq<Lexeme>) -> Seq<Piece>
    decreases ts.len(),
{
    if ts.len() == 0 {
        Seq::empty()
    } else {
        pieces(ts.drop_last()) + piece_of(ts.last())
    }
}

/// The pieces of one token.
pub open spec fn piece_of(t: Lexeme) -> Seq<Piece> {
    match t {
        Lexeme::LParen => seq![Piece::Open],
        Lexeme::RParen => seq![Piece::Close],
        Lexeme::Quote => seq![Piece::Quote],
        Lexeme::Comment(_) => Seq::empty(),
        _ => match atom_of(t) {
            Ok(v) => seq![Piece::Atom(v)],
            Err(_) => Seq::empty(),
        },
    }
}

proof fn lemma_pieces_one(t: Lexeme)
    ensures
        pieces(seq![t]) == piece_of(t),
{
    assert(seq![t].drop_last() =~= Seq::<Lexeme>::empty());
    assert(pieces(Seq::<Lexeme>::empty()) == Seq::<Piece>::empty());
    assert(pieces(seq![t]) =~= piece_of(t));
}

proof fn lemma_flat_all_push(vs: Seq<Value>, v: Value)
    ensures
        flat_all(vs.push(v)) == flat_all(vs) + flat(v),
{
    assert(vs.push(v).subrange(0, vs.len() as int) =~= vs);
}

proof fn lemma_flat_marks_push(st: Seq<Mark>, m: Mark)
    ensures
        flat_marks(st.push(m)) == flat_marks(st) + match m {
            Mark::LParen => seq![Piece::Open],
            Mark::Quote => seq![Piece::Quote],
            Mark::Val(v) => flat(v),
        },
{
    assert(st.push(m).drop_last() =~= st);
}

/// The values on top of the stack account for the pieces of their marks.
proof fn lemma_flat_marks_split(st: Seq<Mark>, n: int)
    requires
        0 <= n <= st.len(),
        forall|x: int| n <= x < st.len() ==> (#[trigger] st[x]) is Val,
    ensures
        flat_marks(st) == flat_marks(st.subrange(0, n)) + flat_all(
            vals(st.subrange(n, st.len() as int)),
        ),
    decreases st.len() - n,
{
    if n == st.len() {
        assert(st.subrange(0, n) =~= st);
        assert(vals(st.subrange(n, st.len() as int)) =~= Seq::<Value>::empty());
        assert(flat_marks(st) + Seq::<Piece>::empty() =~= flat_marks(st));
    } else {
        let s1 = st.drop_last();
        assert forall|x: int| n <= x < s1.len() implies (#[trigger] s1[x]) is Val by {
            assert(s1[x] == st[x]);
        }
        lemma_flat_marks_split(s1, n);
        assert(s1.subrange(0, n) =~= st.subrange(0, n));
        let a = vals(s1.subrange(n, s1.len() as int));
        assert(vals(st.subrange(n, st.len() as int)) =~= a.push(st.last()->Val_0));
        lemma_flat_all_push(a, st.last()->Val_0);
        assert(st[st.len() - 1] is Val);
        assert(flat_marks(st) =~= flat_marks(s1) + flat(st.last()->Val_0));
    }
}

proof fn lemma_apply_quotes_flat(v: Value, st: Seq<Mark>)
    ensures
        flat_marks(st) + flat(v) == flat_marks(apply_quotes(v, st).1) + flat(
            apply_quotes(v, st).0,
        ),
    decreases st.len(),
{
    if st.len() > 0 && st.last() is Quote {
        let q = Value::Quoted(Box::new(v));
        lemma_apply_quotes_flat(q, st.drop_last());
        assert(flat(q) == seq![Piece::Quote] + flat(v));
        assert(flat_marks(st) == flat_marks(st.drop_last()) + seq![Piece::Quote]);
        assert(flat_marks(st) + flat(v) =~= flat_marks(st.drop_last()) + flat(q));
    }
}

/// What a step adds to the forms completed and to the stack is the pieces of its token.
proof fn lemma_settle_flat(v: Value, st: Seq<Mark>, out: Seq<Value>)
    ensures
        ({
            let (st2, done) = settle(v, st);
            let out2 = match done {
                Some(x) => out.push(x),
                None => out,
            };
            flat_all(out2) + flat_marks(st2) == flat_all(out) + flat_marks(st) + flat(v)
        }),
{
    lemma_apply_quotes_flat(v, st);
    let (w, rest) = apply_quotes(v, st);
    if rest.len() == 0 {
        lemma_flat_all_push(out, w);
        assert(flat_marks(rest) =~= Seq::<Piece>::empty());
        assert(flat_all(out.push(w)) + flat_marks(rest) =~= flat_all(out) + flat_marks(st)
            + flat(v));
    } else {
        lemma_flat_marks_push(rest, Mark::Val(w));
        assert(flat_all(out) + flat_marks(rest.push(Mark::Val(w))) =~= flat_all(out)
            + flat_marks(st) + flat(v));
    }
}

proof fn lemma_step_flat(st: Seq<Mark>, t: Lexeme, out: Seq<Value>)
    requires
        parse_step(st, t) is Ok,
    ensures
        ({
            let (st2, done) = parse_step(st, t)->Ok_0;
            let out2 = match done {
                Some(x) => out.push(x),
                None => out,
            };
            flat_all(out2) + flat_marks(st2) == flat_all(out) + flat_marks(st) + pieces(seq![t])
        }),
{
    let one = seq![t];
    lemma_pieces_one(t);
    match t {
        Lexeme::LParen => {
            lemma_flat_marks_push(st, Mark::LParen);
            assert(pieces(one) =~= seq![Piece::Open]);
            assert(flat_all(out) + flat_marks(st.push(Mark::LParen)) =~= flat_all(out)
                + flat_marks(st) + pieces(one));
        },
        Lexeme::Quote => {
            lemma_flat_marks_push(st, Mark::Quote);
            assert(pieces(one) =~= seq![Piece::Quote]);
            assert(flat_all(out) + flat_marks(st.push(Mark::Quote)) =~= flat_all(out)
                + flat_marks(st) + pieces(one));
        },
        Lexeme::Comment(_) => {
            assert(pieces(one) =~= Seq::<Piece>::empty());
            assert(flat_all(out) + flat_marks(st) =~= flat_all(out) + flat_marks(st) + pieces(
                one,
            ));
        },
        Lexeme::RParen => {
            let k = top_vals(st);
            lemma_top_vals_le(st);
            let n = st.len() - k;
            lemma_top_vals_are_vals(st, n);
            lemma_flat_marks_split(st, n);
            let rest = st.subrange(0, n);
            let items = vals(st.subrange(n, st.len() as int));
            assert(items.len() == k);
            let v = if k == 0 {
                Value::Nil
            } else {
                Value::SExpr(items)
            };
            assert(rest.drop_last().push(Mark::LParen) =~= rest);
            lemma_flat_marks_push(rest.drop_last(), Mark::LParen);
            if k == 0 {
                assert(flat_all(items) =~= Seq::<Piece>::empty());
            }
            assert(flat(v) =~= seq![Piece::Open] + flat_all(items) + seq![Piece::Close]);
            lemma_settle_flat(v, rest.drop_last(), out);
            assert(pieces(one) =~= seq![Piece::Close]);
            assert(flat_all(out) + flat_marks(rest.drop_last()) + flat(v) =~= flat_all(out)
                + flat_marks(st) + pieces(one));
        },
        _ => {
            let v = atom_of(t)->Ok_0;
            lemma_settle_flat(v, st, out);
            assert(flat(v) =~= seq![Piece::Atom(v)]);
            assert(pieces(one) =~= seq![Piece::Atom(v)]);
        },
    }
}

proof fn lemma_pieces_cons(t: Lexeme, ts: Seq<Lexeme>)
    ensures
        pieces(seq![t] + ts) == pieces(seq![t]) + pieces(ts),
    decreases ts.len(),
{
    if ts.len() == 0 {
        assert(seq![t] + ts =~= seq![t]);
        assert(pieces(seq![t]) + pieces(ts) =~= pieces(seq![t]));
    } else {
        lemma_pieces_cons(t, ts.drop_last());
        assert((seq![t] + ts).drop_last() =~= seq![t] + ts.drop_last());
        assert((seq![t] + ts).last() == ts.last());
        assert(pieces(seq![t] + ts) =~= pieces(seq![t]) + pieces(ts));
    }
}

proof fn lemma_parse_tokens_flat(st: Seq<Mark>, ts: Seq<Lexeme>, out: Seq<Value>)
    requires
        parse_tokens(st, ts, out) is Ok,
    ensures
        flat_all(parse_tokens(st, ts, out)->Ok_0) == flat_all(out) + flat_marks(st) + pieces(ts),
    decreases ts.len(),
{
    if ts.len() == 0 {
        assert(flat_marks(st) =~= Seq::<Piece>::empty());
        assert(flat_all(out) =~= flat_all(out) + flat_marks(st) + pieces(ts));
    } else {
        let t = ts[0];
        let (st2, done) = parse_step(st, t)->Ok_0;
        let out2 = match done {
            Some(x) => out.push(x),
            None => out,
        };
        lemma_step_flat(st, t, out);
        lemma_parse_tokens_flat(st2, ts.drop_first(), out2);
        assert(seq![t] + ts.drop_first() =~= ts);
        lemma_pieces_cons(t, ts.drop_first());
        assert(flat_all(out2) + flat_marks(st2) + pieces(ts.drop_first()) =~= flat_all(out)
            + flat_marks(st) + pieces(ts));
    }
}

/// Parsing uses each token exactly once, in order: laid flat, the forms give
/// back the token stream, without its comments and with each atom as its value.
pub proof fn lemma_parse_round_trip(ts: Seq<Lexeme>)
    requires
        parse_tokens(Seq::empty(), ts, Seq::empty()) is Ok,
    ensures
        flat_all(parse_tokens(Seq::empty(), ts, Seq::empty())->Ok_0) == pieces(ts),
{
    lemma_parse_tokens_flat(Seq::empty(), ts, Seq::empty());
    assert(flat_all(Seq::<Value>::empty()) =~= Seq::<Piece>::empty());
    assert(flat_marks(Seq::<Mark>::empty()) =~= Seq::<Piece>::empty());
    assert(Seq::<Piece>::empty() + Seq::<Piece>::empty() + pieces(ts) =~= pieces(ts));
}

} // verus!
