use bootfrost::environment::{Host, Unattended};
use bootfrost::parser::ParseError;
use bootfrost::solver::{Solver, SolverResultType};
use bootfrost::strategies::Strategy;

fn run(text: &str, strategy: Strategy, limit: usize) -> (SolverResultType, usize) {
    let mut solver = match Solver::parse_string(text, strategy) {
        Ok(s) => s,
        Err(e) => panic!("formula rejected: {:?}", e),
    };
    let mut host = Unattended;
    let r = solver.solver_loop(limit, &mut host);
    (r.t, r.steps)
}

#[test]
fn refutes_simple_chain() {
    let text = "? P(a)\n\t! x: P(x)\n\t\t? Q(x)\n\t! y: Q(y)\n";
    let (t, steps) = run(text, Strategy::General, 150);
    assert_eq!(t, SolverResultType::Refuted);
    assert_eq!(steps, 3);
}

#[test]
fn refutes_with_plain_shift() {
    let text = "? P(a)\n\t! x: P(x)\n\t\t? Q(x)\n\t! y: Q(y)\n";
    let (t, _) = run(text, Strategy::PlainShift, 150);
    assert_eq!(t, SolverResultType::Refuted);
}

#[test]
fn exhausted_when_nothing_matches() {
    let text = "? P(a)\n\t! x: Q(x)\n";
    let (t, steps) = run(text, Strategy::General, 150);
    assert_eq!(t, SolverResultType::Exhausted);
    assert_eq!(steps, 1);
}

#[test]
fn limit_reached_with_zero_limit() {
    let text = "? P(a)\n\t! x: P(x)\n";
    let (t, steps) = run(text, Strategy::General, 0);
    assert_eq!(t, SolverResultType::LimitReached);
    assert_eq!(steps, 0);
}

#[test]
fn refutes_in_one_answer() {
    let text = "? P(a)\n\t! x: P(x)\n";
    let (t, steps) = run(text, Strategy::General, 10);
    assert_eq!(t, SolverResultType::Refuted);
    assert_eq!(steps, 2);
}

#[test]
fn branching_needs_both_branches() {
    let text = "? P(a)\n\t! x: P(x)\n\t\t? Q(x)\n\t\t? R(x)\n\t! y: Q(y)\n\t! z: R(z)\n";
    let (t, _) = run(text, Strategy::General, 150);
    assert_eq!(t, SolverResultType::Refuted);
}

#[test]
fn branch_left_open_is_exhausted() {
    let text = "? P(a)\n\t! x: P(x)\n\t\t? Q(x)\n\t\t? R(x)\n\t! y: Q(y)\n";
    let (t, _) = run(text, Strategy::General, 150);
    assert_eq!(t, SolverResultType::Exhausted);
}

#[test]
fn interpreted_comparison_in_question() {
    let text = "? N(1), N(5)\n\t! x: N(x), x > 3\n";
    let (t, _) = run(text, Strategy::General, 20);
    assert_eq!(t, SolverResultType::Refuted);
}

#[test]
fn interpreted_comparison_fails() {
    let text = "? N(1), N(2)\n\t! x: N(x), x > 3\n";
    let (t, _) = run(text, Strategy::General, 20);
    assert_eq!(t, SolverResultType::Exhausted);
}

#[test]
fn arithmetic_in_new_facts() {
    let text = "? N(1)\n\t! x: N(x)\n\t\t? M(x + 1)\n\t! y: M(2)\n";
    let (t, _) = run(text, Strategy::General, 20);
    assert_eq!(t, SolverResultType::Refuted);
}

#[test]
fn false_met_by_an_answer_leaves_branch() {
    let text = "? P(a)\n\t! x: P(x)\n\t\t? false\n";
    let (t, _) = run(text, Strategy::General, 20);
    assert_eq!(t, SolverResultType::Exhausted);
}

#[test]
fn false_met_when_reopening_closes_branch() {
    let text = "? P(a)\n\t! x: P(x)\n\t\t? Q(x)\n\t\t? false\n\t! y: Q(y)\n";
    let (t, _) = run(text, Strategy::General, 20);
    assert_eq!(t, SolverResultType::Refuted);
}

#[test]
fn empty_text_is_no_formula() {
    match Solver::parse_string("", Strategy::General) {
        Err(e) => assert_eq!(e, ParseError::NoFormula),
        Ok(_) => panic!("accepted an empty formula"),
    }
}

#[test]
fn bad_line_is_a_syntax_error() {
    match Solver::parse_string("P(a)\n", Strategy::General) {
        Err(ParseError::Syntax { line, .. }) => assert_eq!(line, 0),
        _ => panic!("accepted a line without quantifier"),
    }
}

struct NoFiles;

impl Host for NoFiles {
    fn read_file(&mut self, path: &String) -> Option<String> {
        if path == "sub.pcf" {
            Some("? P(a)\n\t! x: P(x)\n".to_string())
        } else if path == "open.pcf" {
            Some("? P(a)\n\t! x: Q(x)\n".to_string())
        } else {
            Some("hello".to_string())
        }
    }
    fn accept(&mut self, _answer: &String) -> bool {
        true
    }
    fn pick(&mut self, _answers: &Vec<String>) -> Option<usize> {
        Some(0)
    }
    fn questions(&mut self, qlen: usize) -> Vec<usize> {
        (0..qlen).collect()
    }
}

#[test]
fn manual_first_with_accepting_host() {
    let text = "? P(a)\n\t! x: P(x)\n";
    let mut solver = Solver::parse_string(text, Strategy::ManualFirst).unwrap();
    let mut host = NoFiles;
    let r = solver.solver_loop(10, &mut host);
    assert_eq!(r.t, SolverResultType::Refuted);
}

#[test]
fn manual_best_with_picking_host() {
    let text = "? P(a)\n\t! x: P(x)\n";
    let mut solver = Solver::parse_string(text, Strategy::ManualBest).unwrap();
    let mut host = NoFiles;
    let r = solver.solver_loop(10, &mut host);
    assert_eq!(r.t, SolverResultType::Refuted);
}

#[test]
fn file_contents_from_host() {
    let text = "? P(a)\n\t! x: P(x)\n\t\t? F(read_file_to_string(\"x.txt\"))\n\t! y: F(\"hello\")\n";
    let mut solver = Solver::parse_string(text, Strategy::General).unwrap();
    let mut host = NoFiles;
    let r = solver.solver_loop(10, &mut host);
    assert_eq!(r.t, SolverResultType::Refuted);
}

#[test]
fn sub_solver_refutes() {
    let text = "? A(b)\n\t! x: A(x)\n\t\t? R(solve(read_file_to_string(\"sub.pcf\"), 10))\n\t! y: R(true)\n";
    let mut solver = Solver::parse_string(text, Strategy::General).unwrap();
    let mut host = NoFiles;
    let r = solver.solver_loop(10, &mut host);
    assert_eq!(r.t, SolverResultType::Refuted);
}

#[test]
fn sub_solver_not_refuted_gives_false() {
    let text = "? A(b)\n\t! x: A(x)\n\t\t? R(solve(read_file_to_string(\"open.pcf\"), 10))\n\t! y: R(false)\n";
    let mut solver = Solver::parse_string(text, Strategy::General).unwrap();
    let mut host = NoFiles;
    let r = solver.solver_loop(10, &mut host);
    assert_eq!(r.t, SolverResultType::Refuted);
}

#[test]
fn unreadable_file_stops_with_error() {
    let text = "? A(b)\n\t! x: A(x)\n\t\t? R(read_file_to_string(\"x\"))\n";
    let mut solver = Solver::parse_string(text, Strategy::General).unwrap();
    let mut host = Unattended;
    let r = solver.solver_loop(10, &mut host);
    assert_eq!(r.t, SolverResultType::Error);
    assert_eq!(r.steps, 1);
}

#[test]
fn readme_example_is_refuted() {
    let text = "? P(a), Q(b)            # facts\n    ! x: P(x)\n        ? R(x)\n    ! y: R(y)\n";
    let (t, steps) = run(text, Strategy::General, 100);
    assert_eq!(t, SolverResultType::Refuted);
    assert_eq!(steps, 3);
}

#[test]
fn refuted_solver_stays_refuted() {
    let text = "? P(a)\n\t! x: P(x)\n";
    let mut solver = Solver::parse_string(text, Strategy::General).unwrap();
    let mut host = Unattended;
    let r = solver.solver_loop(10, &mut host);
    assert_eq!(r.t, SolverResultType::Refuted);
    let again = solver.solver_loop(10, &mut host);
    assert_eq!(again.t, SolverResultType::Refuted);
    assert_eq!(again.steps, 1);
}

#[test]
fn remove_fact_command_hides_fact_from_questions() {
    let text = "? P(a), T(a)\n\t! x: P(x) $ remove_fact(0)\n\t\t? Q(x)\n\t! y: P(y), Q(y)\n";
    let (t, _) = run(text, Strategy::General, 20);
    assert_eq!(t, SolverResultType::Exhausted);
    let text = "? P(a), T(a)\n\t! x: P(x)\n\t\t? Q(x)\n\t! y: P(y), Q(y)\n";
    let (t, _) = run(text, Strategy::General, 20);
    assert_eq!(t, SolverResultType::Refuted);
}

#[test]
fn sub_solver_with_no_steps_gives_false() {
    let text = "? A(b)\n\t! x: A(x)\n\t\t? R(solve(read_file_to_string(\"sub.pcf\"), 0))\n\t! y: R(false)\n";
    let mut solver = Solver::parse_string(text, Strategy::General).unwrap();
    let mut host = NoFiles;
    let r = solver.solver_loop(10, &mut host);
    assert_eq!(r.t, SolverResultType::Refuted);
}

#[test]
fn sub_solver_on_a_text_that_is_no_formula_fails() {
    let text = "? A(b)\n\t! x: A(x)\n\t\t? R(solve(\"hello\", 10))\n";
    let mut solver = Solver::parse_string(text, Strategy::General).unwrap();
    let mut host = NoFiles;
    let r = solver.solver_loop(10, &mut host);
    assert_eq!(r.t, SolverResultType::Error);
    assert_eq!(r.steps, 1);
}
