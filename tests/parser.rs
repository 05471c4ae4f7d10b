use rslisp::lexer::{LexError, Lexer, Token};
use rslisp::parser::{parse, parse_all, ParseError};
use rslisp::types::Type;

fn parse_str(code: &str) -> Result<Vec<Type>, ParseError> {
    let mut lex = Lexer::new(code);
    parse_all(&mut lex)
}

fn sym(s: &str) -> Type {
    Type::Symbol(s.to_string())
}

#[test]
fn parse_empty_list_is_nil() {
    assert_eq!(parse_str("()"), Ok(vec![Type::Nil]));
}

#[test]
fn parse_nested_forms() {
    let forms = parse_str("(+ (- 6 5) 4) x").unwrap();
    assert_eq!(
        forms,
        vec![
            Type::SExpr(vec![
                sym("+"),
                Type::SExpr(vec![sym("-"), Type::Int(6), Type::Int(5)]),
                Type::Int(4),
            ]),
            sym("x"),
        ]
    );
}

#[test]
fn parse_atoms() {
    let forms = parse_str("1.5 -0001 \"s\" name").unwrap();
    assert_eq!(
        forms,
        vec![
            Type::Float("1.5".to_string()),
            Type::Int(-1),
            Type::StrLit("s".to_string()),
            sym("name"),
        ]
    );
}

#[test]
fn parse_quotes_stack() {
    let forms = parse_str("''x '(a b)").unwrap();
    assert_eq!(
        forms,
        vec![
            Type::Quoted(Box::new(Type::Quoted(Box::new(sym("x"))))),
            Type::Quoted(Box::new(Type::SExpr(vec![sym("a"), sym("b")]))),
        ]
    );
}

#[test]
fn parse_skips_comments() {
    let forms = parse_str("; a comment\n(a ; inside\n b)").unwrap();
    assert_eq!(forms, vec![Type::SExpr(vec![sym("a"), sym("b")])]);
}

#[test]
fn parse_consumes_every_token() {
    let mut lex = Lexer::new("(a (b)) 'c ; end");
    let forms = parse_all(&mut lex).unwrap();
    assert_eq!(forms.len(), 2);
    assert_eq!(lex.next(), Ok(None::<Token>));
}

#[test]
fn parse_unclosed_form() {
    assert_eq!(parse_str("(+ 1"), Err(ParseError::UnclosedForm));
    assert_eq!(parse_str("'"), Err(ParseError::UnclosedForm));
}

#[test]
fn parse_too_many_closing_parens() {
    assert_eq!(parse_str("())"), Err(ParseError::TooManyClosingParens));
    assert_eq!(parse_str("')"), Err(ParseError::TooManyClosingParens));
}

#[test]
fn parse_quote_of_nothing() {
    assert_eq!(parse_str("(a ')"), Err(ParseError::InvalidQuotation));
}

#[test]
fn parse_lex_error() {
    assert_eq!(
        parse_str("(a \"b"),
        Err(ParseError::Lex(LexError::MalformedString))
    );
}

#[test]
fn parse_int_out_of_range() {
    assert_eq!(
        parse_str("9223372036854775808"),
        Err(ParseError::InvalidInt)
    );
    assert_eq!(
        parse_str("-9223372036854775808"),
        Ok(vec![Type::Int(i64::MIN)])
    );
}

#[test]
fn from_tok_reads_literals() {
    assert_eq!(Type::from_tok(Token::Int("+89".to_string())), Ok(Type::Int(89)));
    assert_eq!(Type::from_tok(Token::Int("-+5".to_string())), Err(ParseError::InvalidInt));
    assert_eq!(Type::from_tok(Token::LParen), Err(ParseError::NotAnAtom));
}

#[test]
fn as_key_of_symbols_only() {
    assert_eq!(sym("k").as_key(), Some("k".to_string()));
    assert_eq!(Type::Int(1).as_key(), None);
}

#[test]
fn parse_yields_forms_before_an_error() {
    let mut lex = Lexer::new("(a)) b");
    let mut forms = parse(&mut lex);
    assert_eq!(
        forms.next(),
        Some(Ok(Type::SExpr(vec![sym("a")])))
    );
    assert_eq!(forms.next(), Some(Err(ParseError::TooManyClosingParens)));
    assert_eq!(forms.next(), None);
}

#[test]
fn parse_lazily_to_the_end() {
    let mut lex = Lexer::new("1 (b) ; done");
    let mut forms = parse(&mut lex);
    assert_eq!(forms.next(), Some(Ok(Type::Int(1))));
    assert_eq!(forms.next(), Some(Ok(Type::SExpr(vec![sym("b")]))));
    assert_eq!(forms.next(), None);
    assert_eq!(forms.next(), None);
}

#[test]
fn parse_lone_closing_paren() {
    let mut lex = Lexer::new(")");
    let mut forms = parse(&mut lex);
    assert_eq!(forms.next(), Some(Err(ParseError::TooManyClosingParens)));
}

#[test]
fn parse_float_that_is_no_number() {
    assert_eq!(parse_str("1.2.3"), Err(ParseError::InvalidFloat));
    assert_eq!(
        Type::from_tok(Token::Float("1.2.3".to_string())),
        Err(ParseError::InvalidFloat)
    );
    assert_eq!(
        Type::from_tok(Token::Float("-.32".to_string())),
        Ok(Type::Float("-.32".to_string()))
    );
    assert_eq!(
        Type::from_tok(Token::Float(".".to_string())),
        Err(ParseError::InvalidFloat)
    );
}
