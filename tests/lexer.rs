use rslisp::lexer::{LexError, Lexer, Token};

fn lexer(code: &str) -> Lexer {
    Lexer::new(code)
}

fn tok_int(s: &str) -> Result<Option<Token>, LexError> {
    Ok(Some(Token::Int(s.to_string())))
}

fn tok_float(s: &str) -> Result<Option<Token>, LexError> {
    Ok(Some(Token::Float(s.to_string())))
}

fn tok_symbol(s: &str) -> Result<Option<Token>, LexError> {
    Ok(Some(Token::Symbol(s.to_string())))
}

fn tok_comment(s: &str) -> Result<Option<Token>, LexError> {
    Ok(Some(Token::Comment(s.to_string())))
}

fn tok_str(s: &str) -> Result<Option<Token>, LexError> {
    Ok(Some(Token::StrLit(s.to_string())))
}

#[test]
fn scan_parens() {
    let code = "()";

    let mut lex = Lexer::new(code);

    assert_eq!(lex.next(), Ok(Some(Token::LParen)));
    assert_eq!(lex.next(), Ok(Some(Token::RParen)));
}

#[test]
fn scan_int() {
    let mut lex = lexer("123 456 +89 -0001");

    assert_eq!(lex.next(), tok_int("123"));
    assert_eq!(lex.next(), tok_int("456"));
    assert_eq!(lex.next(), tok_int("+89"));
    assert_eq!(lex.next(), tok_int("-0001"));
}

#[test]
fn scan_float() {
    let mut lex = lexer("0.0 5.1 123.456 -.32 +.0");

    assert_eq!(lex.next(), tok_float("0.0"));
    assert_eq!(lex.next(), tok_float("5.1"));
    assert_eq!(lex.next(), tok_float("123.456"));
    assert_eq!(lex.next(), tok_float("-.32"));
    assert_eq!(lex.next(), tok_float("+.0"));
}

#[test]
fn scan_symbol() {
    let mut lex = lexer("(name n._.ame r-_-^ee?)");

    assert_eq!(lex.next(), Ok(Some(Token::LParen)));
    assert_eq!(lex.next(), tok_symbol("name"));
    assert_eq!(lex.next(), tok_symbol("n._.ame"));
    assert_eq!(lex.next(), tok_symbol("r-_-^ee?"));
    assert_eq!(lex.next(), Ok(Some(Token::RParen)));
}

#[test]
fn scan_plus_minus() {
    let mut lex = lexer("+1.2 -3 + -");

    assert_eq!(lex.next(), tok_float("+1.2"));
    assert_eq!(lex.next(), tok_int("-3"));
    assert_eq!(lex.next(), tok_symbol("+"));
    assert_eq!(lex.next(), tok_symbol("-"));
}

#[test]
fn scan_comment() {
    let mut lex = lexer("+1.2 ;comment\nsymb\n;reee");

    assert_eq!(lex.next(), tok_float("+1.2"));
    assert_eq!(lex.next(), tok_comment("comment"));
    assert_eq!(lex.next(), tok_symbol("symb"));
    assert_eq!(lex.next(), tok_comment("reee"));
}

#[test]
fn scan_str_lit() {
    let mut lex = lexer(r#" "" "hello world!" "\"mem\es" "\"\"" """#);

    assert_eq!(lex.next(), tok_str(""));
    assert_eq!(lex.next(), tok_str("hello world!"));
    assert_eq!(lex.next(), tok_str("\\\"mem\\es"));
    assert_eq!(lex.next(), tok_str("\\\"\\\""));
}

#[test]
fn scan_quote_and_end() {
    let mut lex = lexer("  'x  ");

    assert_eq!(lex.next(), Ok(Some(Token::Quote)));
    assert_eq!(lex.next(), tok_symbol("x"));
    assert_eq!(lex.next(), Ok(None));
    assert_eq!(lex.next(), Ok(None));
}

#[test]
fn scan_empty_comment_keeps_next_line() {
    let mut lex = lexer(";\nx");

    assert_eq!(lex.next(), tok_comment(""));
    assert_eq!(lex.next(), tok_symbol("x"));
}

#[test]
fn scan_dot_starts_symbol() {
    let mut lex = lexer(".5 a.b");

    assert_eq!(lex.next(), tok_symbol(".5"));
    assert_eq!(lex.next(), tok_symbol("a.b"));
}

#[test]
fn scan_unterminated_string() {
    let mut lex = lexer("  \"abc");

    assert_eq!(lex.next(), Err(LexError::MalformedString));
    assert_eq!(lex.next(), Err(LexError::MalformedString));
}

#[test]
fn scan_sign_dot_without_digit() {
    let mut lex = lexer("+.x");

    assert_eq!(lex.next(), Err(LexError::MalformedNumber));
}

#[test]
fn scan_non_ascii_numeric_is_invalid() {
    let mut lex = lexer("\u{0663}");

    assert_eq!(lex.next(), Err(LexError::InvalidCharacter));
}

#[test]
fn looking_at_symbol_on_letters_only() {
    let lex = lexer("abc");
    assert!(lex.looking_at_symbol());

    let lex = lexer("7");
    assert!(!lex.looking_at_symbol());

    let lex = lexer("");
    assert!(!lex.looking_at_symbol());
}

#[test]
fn lines_are_counted() {
    let mut lex = lexer("a\nb\n\nc");

    assert_eq!(lex.line(), 1);
    assert_eq!(lex.next(), tok_symbol("a"));
    assert_eq!(lex.next(), tok_symbol("b"));
    assert_eq!(lex.line(), 2);
    assert_eq!(lex.next(), tok_symbol("c"));
    assert_eq!(lex.line(), 4);
}

#[test]
fn iter_reads_the_same_tokens() {
    let mut lex = lexer("(a 1)");
    let mut it = lex.iter();

    assert_eq!(it.next(), Ok(Some(Token::LParen)));
    assert_eq!(it.next(), tok_symbol("a"));
    assert_eq!(it.next(), tok_int("1"));
    assert_eq!(it.next(), Ok(Some(Token::RParen)));
    assert_eq!(it.next(), Ok(None));
}

#[test]
fn scan_sign_before_sign_is_a_symbol() {
    let mut lex = lexer("--");
    assert_eq!(lex.next(), tok_symbol("-"));
    assert_eq!(lex.next(), tok_symbol("-"));
    assert_eq!(lex.next(), Ok(None));

    let mut lex = lexer("+-5");
    assert_eq!(lex.next(), tok_symbol("+"));
    assert_eq!(lex.next(), tok_int("-5"));
}

#[test]
fn scan_symbol_ends_at_unicode_whitespace() {
    let mut lex = lexer("a\u{2003}b");
    assert_eq!(lex.next(), tok_symbol("a"));
    assert_eq!(lex.next(), tok_symbol("b"));
    assert_eq!(lex.next(), Ok(None));
}
