use sexpr::parse;
use sexpr::parser::parse_tokens;
use sexpr::tokenizer::tokenize;
use sexpr::tokenizer::Token;
use sexpr::Atom;
use sexpr::Expr;
use sexpr::ParseError;

fn ident(s: &str) -> Expr {
    Expr::Atom(Atom::Ident(String::from(s)))
}

fn num(n: u32) -> Expr {
    Expr::Atom(Atom::Num(n))
}

#[test]
fn empty_group() {
    assert_eq!(parse("()"), Ok(Expr::Group(vec![])));
}

#[test]
fn single_identifier() {
    assert_eq!(parse("hello"), Ok(ident("hello")));
}

#[test]
fn number_in_range() {
    assert_eq!(parse("42"), Ok(num(42)));
}

#[test]
fn number_at_limit() {
    assert_eq!(parse("4294967295"), Ok(num(4294967295)));
}

#[test]
fn negative_number_is_identifier() {
    assert_eq!(parse("-42"), Ok(ident("-42")));
}

#[test]
fn number_beyond_limit_is_identifier() {
    assert_eq!(parse("4294967296"), Ok(ident("4294967296")));
}

#[test]
fn plus_sign_reads_as_number() {
    assert_eq!(parse("+7"), Ok(num(7)));
}

#[test]
fn plus_sign_alone_is_identifier() {
    assert_eq!(parse("+"), Ok(ident("+")));
}

#[test]
fn leading_zeros_read_as_number() {
    assert_eq!(parse("042"), Ok(num(42)));
}

#[test]
fn nested_groups() {
    assert_eq!(
        parse("(first (list 1 (+ 2 3) 9))"),
        Ok(Expr::Group(vec![
            ident("first"),
            Expr::Group(vec![
                ident("list"),
                num(1),
                Expr::Group(vec![ident("+"), num(2), num(3)]),
                num(9),
            ]),
        ]))
    );
}

#[test]
fn extra_spaces_are_ignored() {
    assert_eq!(parse("(a  b)"), Ok(Expr::Group(vec![ident("a"), ident("b")])));
}

#[test]
fn unbalanced_closing_paren() {
    assert_eq!(parse(")"), Err(ParseError::UnbalancedParen));
}

#[test]
fn unbalanced_closing_paren_after_group() {
    assert_eq!(parse("(a))"), Err(ParseError::UnbalancedParen));
}

#[test]
fn one_unclosed_paren() {
    assert_eq!(parse("(a (b)"), Err(ParseError::UnclosedParen(1)));
}

#[test]
fn two_unclosed_parens() {
    assert_eq!(parse("((a"), Err(ParseError::UnclosedParen(2)));
}

#[test]
fn empty_input_has_no_top_level_expression() {
    assert_eq!(parse(""), Err(ParseError::WrongTopLevelCount(0)));
}

#[test]
fn blank_input_has_no_top_level_expression() {
    assert_eq!(parse("   "), Err(ParseError::WrongTopLevelCount(0)));
}

#[test]
fn two_top_level_expressions() {
    assert_eq!(parse("a b"), Err(ParseError::WrongTopLevelCount(2)));
}

#[test]
fn tab_is_not_a_separator() {
    assert_eq!(parse("a\tb"), Ok(ident("a\tb")));
}

#[test]
fn non_ascii_text_is_identifier() {
    assert_eq!(parse("(λ x)"), Ok(Expr::Group(vec![ident("λ"), ident("x")])));
}

#[test]
fn tokenize_splits_on_delimiters() {
    assert_eq!(
        tokenize("(ab 12)"),
        vec![
            Token::Lparen,
            Token::Atom(Atom::Ident(String::from("ab"))),
            Token::Atom(Atom::Num(12)),
            Token::Rparen,
        ]
    );
}

#[test]
fn tokenize_flushes_trailing_atom() {
    assert_eq!(tokenize("xy"), vec![Token::Atom(Atom::Ident(String::from("xy")))]);
}

#[test]
fn atom_new_classifies() {
    assert_eq!(Atom::new(String::from("12")), Atom::Num(12));
    assert_eq!(Atom::new(String::from("a1")), Atom::Ident(String::from("a1")));
    assert_eq!(Atom::new(String::from("")), Atom::Ident(String::from("")));
}

#[test]
fn parse_tokens_builds_the_tree() {
    let tokens = vec![
        Token::Lparen,
        Token::Atom(Atom::Ident(String::from("f"))),
        Token::Atom(Atom::Num(3)),
        Token::Rparen,
    ];
    assert_eq!(parse_tokens(tokens), Ok(Expr::Group(vec![ident("f"), num(3)])));
}
