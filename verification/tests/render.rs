use exprcalc::parse::{parse, Expr};
use exprcalc::tokenize::tokenize;

fn read(text: &str) -> Expr {
    parse(&tokenize(text).unwrap()).unwrap()
}

#[test]
fn leaves_render_as_themselves() {
    assert_eq!(Expr::Number(0).render(), "0");
    assert_eq!(Expr::Number(7).render(), "7");
    assert_eq!(Expr::Number(10).render(), "10");
    assert_eq!(Expr::Number(1203).render(), "1203");
    assert_eq!(Expr::Number(i32::MAX).render(), "2147483647");
    assert_eq!(Expr::Number(-5).render(), "-5");
    assert_eq!(Expr::Number(i32::MIN).render(), "-2147483648");
    assert_eq!(Expr::Variable(String::from("abc")).render(), "abc");
}

#[test]
fn operators_render_in_parentheses() {
    let expr = Expr::Add(
        Box::new(Expr::Number(1)),
        Box::new(Expr::Mul(
            Box::new(Expr::Number(2)),
            Box::new(Expr::Variable(String::from("a"))),
        )),
    );
    assert_eq!(expr.render(), "(1 + (2 * a))");
    assert_eq!(read("a+3*b").render(), "(a + (3 * b))");
    assert_eq!(read("10-3-2").render(), "((10 - 3) - 2)");
    assert_eq!(read("a/b%c").render(), "((a / b) % c)");
}

#[test]
fn render_into_appends() {
    let mut out = String::from("expr = ");
    read("1+2").render_into(&mut out);
    assert_eq!(out, "expr = (1 + 2)");
}

#[test]
fn the_rendering_reads_back_as_the_expression() {
    for text in ["7", "x", "1+2*3", "(1+2)*3", "10-3-2", "a/b%c*d-(e+f)", "((((1))))+0012"] {
        let expr = read(text);
        assert_eq!(read(&expr.render()), expr);
    }
}
