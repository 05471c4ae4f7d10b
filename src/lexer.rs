use vstd::prelude::*;

verus! {

/// A token of the source text. Literal tokens carry their text exactly as it
/// stands in the source; comments are forwarded, whitespace is not.
#[derive(Debug, PartialEq, Eq)]
pub enum Token {
    LParen,
    RParen,
    Quote,
    Float(String),
    Int(String),
    Symbol(String),
    StrLit(String),
    Comment(String),
}

/// The mathematical model of a token: its kind and its text.
pub enum Lexeme {
    LParen,
    RParen,
    Quote,
    Float(Seq<char>),
    Int(Seq<char>),
    Symbol(Seq<char>),
    StrLit(Seq<char>),
    Comment(Seq<char>),
}

impl View for Token {
    type V = Lexeme;

    open spec fn view(&self) -> Lexeme {
        match self {
            Token::LParen => Lexeme::LParen,
            Token::RParen => Lexeme::RParen,
            Token::Quote => Lexeme::Quote,
            Token::Float(t) => Lexeme::Float(t@),
            Token::Int(t) => Lexeme::Int(t@),
            Token::Symbol(t) => Lexeme::Symbol(t@),
            Token::StrLit(t) => Lexeme::StrLit(t@),
            Token::Comment(t) => Lexeme::Comment(t@),
        }
    }
}

/// The ways in which the source text can fail to be a token stream.
#[derive(Debug, PartialEq, Eq, Clone, Copy, Structural)]
pub enum LexError {
    /// A string literal that the input ends inside of.
    MalformedString,
    /// A sign and a `.` that no digit follows.
    MalformedNumber,
    /// A character that no token can start with.
    InvalidCharacter,
}

// ---------------------------------------------------------------------------
// Character classes

/// Unicode's White_Space property, as `char::is_whitespace` documents it.
pub open spec fn is_space(c: char) -> bool {
    ('\u{9}' <= c && c <= '\u{d}') || c == ' ' || c == '\u{85}' || c == '\u{a0}'
        || c == '\u{1680}' || ('\u{2000}' <= c && c <= '\u{200a}') || c == '\u{2028}'
        || c == '\u{2029}' || c == '\u{202f}' || c == '\u{205f}' || c == '\u{3000}'
}

pub open spec fn is_decimal_digit(c: char) -> bool {
    '0' <= c && c <= '9'
}

/// What `char::is_numeric` says of a character outside ASCII (Unicode's
/// categories Nd, Nl and No).
pub uninterp spec fn numeric_beyond_ascii(c: char) -> bool;

/// Whether `char::is_numeric` holds of `c`; among the ASCII characters it
/// holds of the decimal digits alone.
pub open spec fn numeric_char(c: char) -> bool {
    if (c as u32) < 128 {
        is_decimal_digit(c)
    } else {
        numeric_beyond_ascii(c)
    }
}

/// Characters that may continue a symbol.
pub open spec fn symbol_char(c: char) -> bool {
    !is_space(c) && c != '\'' && c != '"' && c != ';' && c != '(' && c != ')'
}

/// Characters that, after a sign, make the sign the start of a number.
pub open spec fn number_start_char(c: char) -> bool {
    is_decimal_digit(c) || c == '.'
}

fn is_whitespace(c: char) -> (r: bool)
    ensures
        r == is_space(c),
{
    ('\u{9}' <= c && c <= '\u{d}') || c == ' ' || c == '\u{85}' || c == '\u{a0}'
        || c == '\u{1680}' || ('\u{2000}' <= c && c <= '\u{200a}') || c == '\u{2028}'
        || c == '\u{2029}' || c == '\u{202f}' || c == '\u{205f}' || c == '\u{3000}'
}

/// Relies on `char::is_numeric`: its result depends on the character alone,
/// and among ASCII characters it holds of the decimal digits alone.
#[verifier::external_body]
fn is_numeric(c: char) -> (r: bool)
    ensures
        r == numeric_char(c),
        (c as u32) >= 128 ==> r == numeric_beyond_ascii(c),
{
    c.is_numeric()
}

fn allowed_in_symbol(ch: &char) -> (r: bool)
    ensures
        r == symbol_char(*ch),
{
    let c = *ch;
    !is_whitespace(c) && c != '\'' && c != '"' && c != ';' && c != '(' && c != ')'
}

/// Relies on `str::chars` collected into a `Vec`: the characters of the text, in order.
#[verifier::external_body]
pub(crate) fn chars_of(source: &str) -> (r: Vec<char>)
    ensures
        r@ == source@,
{
    source.chars().collect()
}

/// Relies on `String`'s `FromIterator<&char>`: the string of the given characters.
#[verifier::external_body]
fn text_of(chars: &[char]) -> (r: String)
    ensures
        r@ == chars@,
{
    chars.iter().collect()
}

// ---------------------------------------------------------------------------
// The token grammar, over the characters of the source

/// The first position at or after `p` that is not whitespace.
pub open spec fn skip_space(s: Seq<char>, p: int) -> int
    decreases s.len() - p,
{
    if 0 <= p < s.len() && is_space(s[p]) {
        skip_space(s, p + 1)
    } else {
        p
    }
}

/// The end of a run of symbol characters that starts at `p`.
pub open spec fn symbol_end(s: Seq<char>, p: int) -> int
    decreases s.len() - p,
{
    if 0 <= p < s.len() && symbol_char(s[p]) {
        symbol_end(s, p + 1)
    } else {
        p
    }
}

/// The end of a run of `.` and numeric characters that starts at `p`.
pub open spec fn number_end(s: Seq<char>, p: int) -> int
    decreases s.len() - p,
{
    if 0 <= p < s.len() && (s[p] == '.' || numeric_char(s[p])) {
        number_end(s, p + 1)
    } else {
        p
    }
}

/// The position of the first newline at or after `p`, or the end of the text.
pub open spec fn line_end(s: Seq<char>, p: int) -> int
    decreases s.len() - p,
{
    if 0 <= p < s.len() && s[p] != '\n' {
        line_end(s, p + 1)
    } else {
        p
    }
}

/// The position of the `"` that closes a string literal whose text starts at
/// `p`, where `\"` does not close it; `None` where the text ends first.
pub open spec fn string_close(s: Seq<char>, p: int) -> Option<int>
    decreases s.len() - p,
{
    if p < 0 || p >= s.len() {
        None
    } else if s[p] == '"' {
        Some(p)
    } else if s[p] == '\\' && p + 1 < s.len() && s[p + 1] == '"' {
        string_close(s, p + 2)
    } else {
        string_close(s, p + 1)
    }
}

/// The number token that starts at `p` (a sign or a digit), and the position after it.
/// A sign that no number follows is a symbol of its own.
pub open spec fn number_at(s: Seq<char>, p: int) -> (Result<Lexeme, LexError>, int) {
    let signed = s[p] == '+' || s[p] == '-';
    let b = if signed {
        p + 1
    } else {
        p
    };
    if signed && !(b < s.len() && number_start_char(s[b])) {
        (Ok(Lexeme::Symbol(seq![s[p]])), p + 1)
    } else if s[b] == '.' && !(b + 1 < s.len() && numeric_char(s[b + 1])) {
        (Err(LexError::MalformedNumber), p)
    } else {
        let q = number_end(s, b + 1);
        let text = s.subrange(p, q);
        if text.contains('.') {
            (Ok(Lexeme::Float(text)), q)
        } else {
            (Ok(Lexeme::Int(text)), q)
        }
    }
}

/// The token that starts at `p`, which holds no whitespace, and the position
/// after it; on an error, the position stays at `p`.
pub open spec fn token_at(s: Seq<char>, p: int) -> (Result<Lexeme, LexError>, int) {
    let c = s[p];
    if c == '\'' {
        (Ok(Lexeme::Quote), p + 1)
    } else if c == ';' {
        let q = line_end(s, p + 1);
        (Ok(Lexeme::Comment(s.subrange(p + 1, q))), q)
    } else if c == '(' {
        (Ok(Lexeme::LParen), p + 1)
    } else if c == ')' {
        (Ok(Lexeme::RParen), p + 1)
    } else if c == '+' || c == '-' || is_decimal_digit(c) {
        number_at(s, p)
    } else if c == '"' {
        match string_close(s, p + 1) {
            Some(q) => (Ok(Lexeme::StrLit(s.subrange(p + 1, q))), q + 1),
            None => (Err(LexError::MalformedString), p),
        }
    } else if !numeric_char(c) {
        (Ok(Lexeme::Symbol(s.subrange(p, symbol_end(s, p + 1)))), symbol_end(s, p + 1))
    } else {
        (Err(LexError::InvalidCharacter), p)
    }
}

/// One step of the lexer at position `p`: the next token (`None` at the end of
/// the text) and the position after it.
pub open spec fn lex_step(s: Seq<char>, p: int) -> (Result<Option<Lexeme>, LexError>, int) {
    let b = skip_space(s, p);
    if b >= s.len() {
        (Ok(None), b)
    } else {
        match token_at(s, b) {
            (Ok(t), q) => (Ok(Some(t)), q),
            (Err(e), q) => (Err(e), q),
        }
    }
}

pub open spec fn lex_result_view(r: Result<Option<Token>, LexError>) -> Result<
    Option<Lexeme>,
    LexError,
> {
    match r {
        Ok(Some(t)) => Ok(Some(t@)),
        Ok(None) => Ok(None),
        Err(e) => Err(e),
    }
}

/// `v`, or `usize::MAX` where `v` does not stay below it.
pub open spec fn saturated(v: int) -> int {
    if v < usize::MAX {
        v
    } else {
        usize::MAX as int
    }
}

/// The number of newlines in `s`.
pub open spec fn newlines(s: Seq<char>) -> nat
    decreases s.len(),
{
    if s.len() == 0 {
        0
    } else {
        newlines(s.drop_last()) + if s.last() == '\n' {
            1nat
        } else {
            0nat
        }
    }
}

proof fn lemma_step_ends(s: Seq<char>, p: int)
    requires
        0 <= p <= s.len(),
    ensures
        p <= skip_space(s, p) <= s.len(),
        p <= symbol_end(s, p) <= s.len(),
        p <= number_end(s, p) <= s.len(),
        p <= line_end(s, p) <= s.len(),
        string_close(s, p) matches Some(c) ==> p <= c < s.len() && s[c] == '"',
    decreases s.len() - p,
{
    if p < s.len() {
        lemma_step_ends(s, p + 1);
        if s[p] == '\\' && p + 1 < s.len() && s[p + 1] == '"' {
            lemma_step_ends(s, p + 2);
        }
    }
}

/// A step that reads a token moves the cursor forward, and not past the end.
pub proof fn lemma_lex_step_advances(s: Seq<char>, p: int)
    requires
        0 <= p <= s.len(),
    ensures
        p <= lex_step(s, p).1 <= s.len(),
        lex_step(s, p).0 matches Ok(Some(_)) ==> p < lex_step(s, p).1,
{
    lemma_step_ends(s, p);
    let b = skip_space(s, p);
    if b < s.len() {
        lemma_step_ends(s, b + 1);
        if b + 2 <= s.len() {
            lemma_step_ends(s, b + 2);
        }
    }
}

// ---------------------------------------------------------------------------
// The lexer

/// A scanner over the characters of a source text, with a cursor.
#[derive(Debug)]
pub struct Lexer {
    chars: Vec<char>,
    pos: usize,
}

/// Tokens read one at a time from a borrowed lexer.
#[derive(Debug)]
pub struct Iter<'a> {
    inner: &'a mut Lexer,
}

impl Lexer {
    /// The characters of the source text.
    pub closed spec fn source(&self) -> Seq<char> {
        self.chars@
    }

    /// The position of the cursor, in characters.
    pub closed spec fn cursor(&self) -> int {
        self.pos as int
    }

    pub open spec fn wf(&self) -> bool {
        0 <= self.cursor() <= self.source().len()
    }

    /// Whether the cursor has reached the end of the text.
    pub open spec fn at_end(&self) -> bool {
        self.cursor() >= self.source().len()
    }

    pub fn new(source: &str) -> (r: Lexer)
        ensures
            r.wf(),
            r.source() == source@,
            r.cursor() == 0,
    {
        Lexer { chars: chars_of(source), pos: 0 }
    }

    pub fn iter<'a>(&'a mut self) -> (r: Iter<'a>)
        ensures
            r.lexer() == *old(self),
    {
        Iter { inner: self }
    }

    /// Whether the character under the cursor can start a symbol.
    pub fn looking_at_symbol(&self) -> (r: bool)
        requires
            self.wf(),
        ensures
            r == (self.cursor() < self.source().len() && !numeric_char(
                self.source()[self.cursor()],
            )),
    {
        if self.pos < self.chars.len() {
            !is_numeric(self.chars[self.pos])
        } else {
            false
        }
    }

    /// The line that the cursor stands on, counted from one.
    pub fn line(&self) -> (r: usize)
        requires
            self.wf(),
        ensures
            r as int == saturated(1 + newlines(self.source().take(self.cursor())) as int),
    {
        let mut n: usize = 1;
        let mut i: usize = 0;
        while i < self.pos
            invariant
                self.wf(),
                i <= self.pos,
                n as int == saturated(1 + newlines(self.chars@.take(i as int)) as int),
            decreases self.pos - i,
        {
            assert(self.chars@.take(i + 1).drop_last() =~= self.chars@.take(i as int));
            if self.chars[i] == '\n' && n < usize::MAX {
                n = n + 1;
            }
            i = i + 1;
        }
        n
    }

    fn skip_whitespace(&self, p: usize) -> (q: usize)
        requires
            self.wf(),
            p <= self.chars.len(),
        ensures
            q == skip_space(self.chars@, p as int),
            q <= self.chars.len(),
    {
        let mut q = p;
        while q < self.chars.len() && is_whitespace(self.chars[q])
            invariant
                self.wf(),
                p <= q <= self.chars.len(),
                skip_space(self.chars@, q as int) == skip_space(self.chars@, p as int),
            decreases self.chars.len() - q,
        {
            q = q + 1;
        }
        q
    }

    fn symbol_end_from(&self, p: usize) -> (q: usize)
        requires
            self.wf(),
            p <= self.chars.len(),
        ensures
            q == symbol_end(self.chars@, p as int),
            q <= self.chars.len(),
    {
        let mut q = p;
        while q < self.chars.len() && allowed_in_symbol(&self.chars[q])
            invariant
                self.wf(),
                p <= q <= self.chars.len(),
                symbol_end(self.chars@, q as int) == symbol_end(self.chars@, p as int),
            decreases self.chars.len() - q,
        {
            q = q + 1;
        }
        q
    }

    fn line_end_from(&self, p: usize) -> (q: usize)
        requires
            self.wf(),
            p <= self.chars.len(),
        ensures
            q == line_end(self.chars@, p as int),
            q <= self.chars.len(),
    {
        let mut q = p;
        while q < self.chars.len() && self.chars[q] != '\n'
            invariant
                self.wf(),
                p <= q <= self.chars.len(),
                line_end(self.chars@, q as int) == line_end(self.chars@, p as int),
            decreases self.chars.len() - q,
        {
            q = q + 1;
        }
        q
    }

    fn scan_comment(&self, p: usize) -> (r: (Token, usize))
        requires
            self.wf(),
            p < self.chars.len(),
            self.chars@[p as int] == ';',
        ensures
            token_at(self.chars@, p as int) == (Ok::<Lexeme, LexError>(r.0@), r.1 as int),
            r.1 <= self.chars.len(),
    {
        let q = self.line_end_from(p + 1);
        proof {
            lemma_step_ends(self.chars@, p + 1);
        }
        let text = text_of(&self.chars.as_slice()[p + 1..q]);
        assert(text@ =~= self.chars@.subrange(p + 1, q as int));
        (Token::Comment(text), q)
    }

    fn scan_string(&self, p: usize) -> (r: (Result<Token, LexError>, usize))
        requires
            self.wf(),
            p < self.chars.len(),
            self.chars@[p as int] == '"',
        ensures
            token_at(self.chars@, p as int) == (match r.0 {
                Ok(t) => Ok::<Lexeme, LexError>(t@),
                Err(e) => Err(e),
            }, r.1 as int),
            r.1 <= self.chars.len(),
    {
        let len = self.chars.len();
        let mut i = p + 1;
        while i < len && self.chars[i] != '"'
            invariant
                self.wf(),
                len == self.chars.len(),
                p + 1 <= i <= len,
                string_close(self.chars@, i as int) == string_close(self.chars@, p + 1),
            decreases len + 1 - i,
        {
            if self.chars[i] == '\\' && i + 1 < len && self.chars[i + 1] == '"' {
                i = i + 2;
            } else {
                i = i + 1;
            }
        }
        if i >= len {
            (Err(LexError::MalformedString), p)
        } else {
            let text = text_of(&self.chars.as_slice()[p + 1..i]);
            assert(text@ =~= self.chars@.subrange(p + 1, i as int));
            (Ok(Token::StrLit(text)), i + 1)
        }
    }

    fn scan_number(&self, p: usize) -> (r: (Result<Token, LexError>, usize))
        requires
            self.wf(),
            p < self.chars.len(),
            self.chars@[p as int] == '+' || self.chars@[p as int] == '-' || is_decimal_digit(
                self.chars@[p as int],
            ),
        ensures
            number_at(self.chars@, p as int) == (match r.0 {
                Ok(t) => Ok::<Lexeme, LexError>(t@),
                Err(e) => Err(e),
            }, r.1 as int),
            r.1 <= self.chars.len(),
    {
        let s = Ghost(self.chars@);
        let len = self.chars.len();
        let c = self.chars[p];
        let signed = c == '+' || c == '-';
        let b = if signed {
            p + 1
        } else {
            p
        };
        if signed && !(b < len && (('0' <= self.chars[b] && self.chars[b] <= '9')
            || self.chars[b] == '.')) {
            let text = text_of(&self.chars.as_slice()[p..p + 1]);
            assert(text@ =~= seq![c]);
            return (Ok(Token::Symbol(text)), p + 1);
        }
        let mut is_float = self.chars[b] == '.';
        if is_float && !(b + 1 < len && is_numeric(self.chars[b + 1])) {
            return (Err(LexError::MalformedNumber), p);
        }
        let mut q = b + 1;
        proof {
            let t = s@.subrange(p as int, q as int);
            if is_float {
                assert(t[t.len() - 1] == '.');
            }
            if t.contains('.') {
                let k = choose|k: int| 0 <= k < t.len() && t[k] == '.';
                assert(k == t.len() - 1);
            }
        }
        while q < len && (self.chars[q] == '.' || is_numeric(self.chars[q]))
            invariant
                self.wf(),
                len == self.chars.len(),
                s@ == self.chars@,
                b + 1 <= q <= len,
                b < len,
                number_end(s@, q as int) == number_end(s@, b + 1),
                is_float == s@.subrange(p as int, q as int).contains('.'),
                s@[p as int] != '.',
                signed ==> b == p + 1,
                !signed ==> b == p,
            decreases len - q,
        {
            proof {
                let t = s@.subrange(p as int, q as int);
                let t1 = s@.subrange(p as int, q + 1);
                assert(t1 =~= t.push(s@[q as int]));
                if t1.contains('.') && s@[q as int] != '.' {
                    let k = choose|k: int| 0 <= k < t1.len() && t1[k] == '.';
                    assert(t[k] == '.');
                }
                if s@[q as int] == '.' {
                    assert(t1[t1.len() - 1] == '.');
                }
            }
            if self.chars[q] == '.' {
                is_float = true;
            }
            q = q + 1;
        }
        proof {
            let t = s@.subrange(p as int, q as int);
            if signed {
                if s@[b as int] == '.' {
                    assert(t[1] == '.');
                }
                if t.contains('.') && s@[b as int] != '.' {
                    let k = choose|k: int| 0 <= k < t.len() && t[k] == '.';
                    assert(k != 0 && k != 1);
                }
            } else {
                if t.contains('.') {
                    let k = choose|k: int| 0 <= k < t.len() && t[k] == '.';
                    assert(k != 0);
                }
            }
        }
        let text = text_of(&self.chars.as_slice()[p..q]);
        assert(text@ =~= self.chars@.subrange(p as int, q as int));
        if is_float {
            (Ok(Token::Float(text)), q)
        } else {
            (Ok(Token::Int(text)), q)
        }
    }

    fn scan_symbol(&self, p: usize) -> (r: (Token, usize))
        requires
            self.wf(),
            p < self.chars.len(),
        ensures
            r.0@ == Lexeme::Symbol(self.chars@.subrange(p as int, symbol_end(self.chars@, p + 1))),
            r.1 == symbol_end(self.chars@, p + 1),
            r.1 <= self.chars.len(),
    {
        let q = self.symbol_end_from(p + 1);
        proof {
            lemma_step_ends(self.chars@, p + 1);
        }
        let text = text_of(&self.chars.as_slice()[p..q]);
        assert(text@ =~= self.chars@.subrange(p as int, q as int));
        (Token::Symbol(text), q)
    }

    /// Reads the next token. Whitespace before it is skipped; at the end of the
    /// text the result is `None`. On an error the cursor stays at the start of
    /// the offending token.
    pub fn next(&mut self) -> (r: Result<Option<Token>, LexError>)
        requires
            old(self).wf(),
        ensures
            final(self).wf(),
            final(self).source() == old(self).source(),
            (lex_result_view(r), final(self).cursor()) == lex_step(
                old(self).source(),
                old(self).cursor(),
            ),
    {
        let b = self.skip_whitespace(self.pos);
        proof {
            lemma_step_ends(self.chars@, self.pos as int);
        }
        if b >= self.chars.len() {
            self.pos = b;
            return Ok(None);
        }
        let c = self.chars[b];
        let (r, q) = if c == '\'' {
            (Ok(Token::Quote), b + 1)
        } else if c == ';' {
            let (t, q) = self.scan_comment(b);
            (Ok(t), q)
        } else if c == '(' {
            (Ok(Token::LParen), b + 1)
        } else if c == ')' {
            (Ok(Token::RParen), b + 1)
        } else if c == '+' || c == '-' || ('0' <= c && c <= '9') {
            self.scan_number(b)
        } else if c == '"' {
            self.scan_string(b)
        } else if !is_numeric(c) {
            let (t, q) = self.scan_symbol(b);
            (Ok(t), q)
        } else {
            (Err(LexError::InvalidCharacter), b)
        };
        self.pos = q;
        match r {
            Ok(t) => Ok(Some(t)),
            Err(e) => Err(e),
        }
    }
}

impl<'a> Iter<'a> {
    /// The lexer that the tokens come from.
    pub closed spec fn lexer(&self) -> Lexer {
        *self.inner
    }

    /// Reads the next token of the underlying lexer.
    pub fn next(&mut self) -> (r: Result<Option<Token>, LexError>)
        requires
            old(self).lexer().wf(),
        ensures
            final(self).lexer().wf(),
            final(self).lexer().source() == old(self).lexer().source(),
            (lex_result_view(r), final(self).lexer().cursor()) == lex_step(
                old(self).lexer().source(),
                old(self).lexer().cursor(),
            ),
    {
        self.inner.next()
    }
}

} // verus!
