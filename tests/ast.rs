use pris::ast::{BinOp, BinTerm, Coord, Idents, Num, Term, Unit};
use pris::elements::Color;

#[test]
fn units_print_as_their_suffix() {
    assert_eq!(Unit::W.as_str(), "w");
    assert_eq!(Unit::H.as_str(), "h");
    assert_eq!(Unit::Em.as_str(), "em");
    assert_eq!(Unit::Pt.as_str(), "pt");
}

#[test]
fn operators_print_as_written() {
    let ops = [BinOp::Add, BinOp::Sub, BinOp::Mul, BinOp::Div, BinOp::Exp];
    let texts: Vec<&str> = ops.iter().map(|o| o.as_str()).collect();
    assert_eq!(texts, vec!["+", "-", "*", "/", "^"]);
}

#[test]
fn idents_print_dotted() {
    let path = Idents(vec!["a".to_string(), "bc".to_string(), "d".to_string()]);
    assert_eq!(path.to_string(), "a.bc.d");
    assert_eq!(Idents(vec!["color".to_string()]).to_string(), "color");
}

#[test]
fn colors_print_as_lowercase_hex() {
    assert_eq!(Color::new(0, 171, 255).to_hex(), "#00abff");
    assert_eq!(Color::new(18, 52, 86).to_hex(), "#123456");
}

#[test]
fn terms_print_in_parseable_form() {
    let x = Term::Number(Num(12, Some(Unit::Em)));
    let y = Term::BinOp(Box::new(BinTerm(
        Term::Idents(Idents(vec!["a".to_string(), "b".to_string()])),
        BinOp::Mul,
        Term::Number(Num(-3, None)),
    )));
    let c = Term::Coord(Box::new(Coord(x, y)));
    assert_eq!(c.to_string(), "(12em, (a.b * -3))");
    assert_eq!(Term::Color(Color::new(255, 0, 16)).to_string(), "#ff0010");
    assert_eq!(Term::String("\"hi\"".to_string()).to_string(), "\"hi\"");
}
