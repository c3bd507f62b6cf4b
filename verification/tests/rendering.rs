use sexpr::parse;
use sexpr::Atom;
use sexpr::Expr;

fn ident(s: &str) -> Expr {
    Expr::Atom(Atom::Ident(String::from(s)))
}

fn num(n: u32) -> Expr {
    Expr::Atom(Atom::Num(n))
}

#[test]
fn render_empty_group() {
    assert_eq!(Expr::Group(vec![]).render(), "()");
}

#[test]
fn render_atoms() {
    assert_eq!(Atom::Num(0).render(), "0");
    assert_eq!(Atom::Num(4294967295).render(), "4294967295");
    assert_eq!(Atom::Ident(String::from("-x")).render(), "-x");
}

#[test]
fn render_joins_children_with_single_spaces() {
    let e = Expr::Group(vec![ident("a"), num(1), Expr::Group(vec![])]);
    assert_eq!(e.render(), "(a 1 ())");
}

#[test]
fn round_trip_canonical_text() {
    let s = "(first (list 1 (+ 2 3) 9))";
    let e = parse(s).unwrap();
    assert_eq!(e.render(), s);
}

#[test]
fn round_trip_deeply_nested() {
    let s = "(() (()) a)";
    let e = parse(s).unwrap();
    assert_eq!(e.render(), s);
}

#[test]
fn parse_inverts_render() {
    let e = Expr::Group(vec![
        ident("let"),
        Expr::Group(vec![ident("x"), num(10)]),
        Expr::Group(vec![ident("*"), ident("x"), ident("x")]),
    ]);
    let text = e.render();
    assert_eq!(parse(&text), Ok(e));
}

#[test]
fn render_normalizes_extra_whitespace() {
    let e = parse("( a   b )").unwrap();
    assert_eq!(e.render(), "(a b)");
}
