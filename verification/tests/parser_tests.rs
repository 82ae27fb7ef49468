use bootfrost::misc::Position;
use bootfrost::parser::{parse_string, parse_tqf_line, ParseError};
use bootfrost::solver::Solver;
use bootfrost::strategies::Strategy;

fn chars(s: &str) -> Vec<char> {
    s.chars().collect()
}

#[test]
fn products_bind_tighter_than_sums() {
    let pf = parse_tqf_line(&chars("! P(1 + 2 * 3)")).unwrap();
    let p = &pf.conjunct[0];
    assert_eq!(p.symbol, "P");
    assert!(p.complex);
    let sum = &p.args[0];
    assert_eq!(sum.symbol, "+");
    assert!(matches!(sum.position, Position::Infix));
    assert_eq!(sum.args[0].symbol, "1");
    assert_eq!(sum.args[1].symbol, "*");
    assert_eq!(sum.args[1].args[0].symbol, "2");
    assert_eq!(sum.args[1].args[1].symbol, "3");
}

#[test]
fn sums_group_to_the_left() {
    let pf = parse_tqf_line(&chars("! a - b - c")).unwrap();
    let t = &pf.conjunct[0];
    assert_eq!(t.symbol, "-");
    assert_eq!(t.args[0].symbol, "-");
    assert_eq!(t.args[0].args[0].symbol, "a");
    assert_eq!(t.args[0].args[1].symbol, "b");
    assert_eq!(t.args[1].symbol, "c");
    let pf = parse_tqf_line(&chars("! (a - b) ++ c")).unwrap();
    assert_eq!(pf.conjunct[0].symbol, "++");
    assert_eq!(pf.conjunct[0].args[0].symbol, "-");
}

#[test]
fn comparisons_strings_and_empty_calls() {
    let pf = parse_tqf_line(&chars("? x: x <= 3, \"s t\" in L, f() != g(x, y)")).unwrap();
    assert_eq!(pf.quantifier, "?");
    assert_eq!(pf.vars[0].symbol, "x");
    assert_eq!(pf.conjunct.len(), 3);
    assert_eq!(pf.conjunct[0].symbol, "<=");
    assert_eq!(pf.conjunct[1].symbol, "in");
    assert_eq!(pf.conjunct[1].args[0].symbol, "\"s t\"");
    assert_eq!(pf.conjunct[2].symbol, "!=");
    assert_eq!(pf.conjunct[2].args[0].symbol, "f");
    assert!(pf.conjunct[2].args[0].complex);
    assert_eq!(pf.conjunct[2].args[0].args.len(), 0);
    assert_eq!(pf.conjunct[2].args[1].args.len(), 2);
    assert!(!pf.conjunct[0].args[1].complex);
}

#[test]
fn line_errors_give_the_position() {
    assert_eq!(parse_tqf_line(&chars("! P(a")).err(), Some(5));
    assert_eq!(parse_tqf_line(&chars("! P(a) Q")).err(), Some(7));
    assert_eq!(parse_tqf_line(&chars("  ")).err(), Some(2));
    let pf = parse_tqf_line(&chars("! $")).unwrap();
    assert_eq!(pf.conjunct.len(), 0);
    assert_eq!(pf.commands.len(), 0);
}

#[test]
fn tree_errors() {
    match parse_string("? P(a)\n\t\t! Q\n\t? R\n") {
        Err(e) => assert_eq!(e, ParseError::Indentation { line: 2 }),
        Ok(_) => panic!("an indentation that no enclosing line has is refused"),
    }
    match parse_string("? P(a)\n\t! (\n") {
        Err(e) => assert_eq!(e, ParseError::Syntax { line: 1, pos: 4 }),
        Ok(_) => panic!("a line that is not a formula is refused"),
    }
    let pf = parse_string("? P(a)\n\t! Q\n? R\n").unwrap();
    assert_eq!(pf.next.len(), 2);
    assert_eq!(pf.next[0].next.len(), 1);
    assert_eq!(pf.next[1].next.len(), 0);
}

#[test]
fn prover_refuses_texts_without_formulas() {
    match Solver::parse_string("# nothing\n", Strategy::General) {
        Err(e) => assert_eq!(e, ParseError::NoFormula),
        Ok(_) => panic!("a text without formula lines is refused"),
    }
    match Solver::parse_string("? P(a\n", Strategy::General) {
        Err(e) => assert_eq!(e, ParseError::Syntax { line: 0, pos: 5 }),
        Ok(_) => panic!("a malformed line is refused"),
    }
}
