use bootfrost::environment::Host;
use bootfrost::solver::{Solver, SolverResultType};
use bootfrost::strategies::Strategy;

/// Files the formulas below read: the sub-formula that `solve` refutes.
struct Problems;

impl Host for Problems {
    fn read_file(&mut self, path: &String) -> Option<String> {
        if path == "./problems/sub.pcf" {
            Some("? P(a), P(b)\n\t! x: P(x), x != a\n".to_string())
        } else {
            None
        }
    }
    fn accept(&mut self, _answer: &String) -> bool {
        true
    }
    fn pick(&mut self, _answers: &Vec<String>) -> Option<usize> {
        Some(0)
    }
    fn questions(&mut self, qlen: usize) -> Vec<usize> {
        (0..qlen).collect()
    }
}

fn solve_text(text: &str) -> SolverResultType {
    let mut solver = Solver::parse_string(text, Strategy::General).unwrap();
    let mut host = Problems;
    solver.solver_loop(150, &mut host).t
}

#[test]
fn test1() {
    let text = "? E(a, b), E(b, c)\n\
                \t! x, y, z: E(x, y), E(y, z)\n\
                \t\t? E(x, z)\n\
                \t! E(a, c)\n";
    assert_eq!(SolverResultType::Refuted, solve_text(text));
}

#[test]
fn test_subsolver() {
    let text = "? Start(0)\n\
                \t! x: Start(x)\n\
                \t\t? Result(solve(read_file_to_string(\"./problems/sub.pcf\"), 20))\n\
                \t! Result(true)\n";
    assert_eq!(SolverResultType::Refuted, solve_text(text));
}

#[test]
fn test_observe() {
    let text = "? P(1), P(2)\n\
                \t! x: P(x)\n\
                \t\t? Seen(base_to_string(), blen())\n\
                \t! s, n: Seen(s, n), s == \"P(1),P(2)\", n == 2\n";
    assert_eq!(SolverResultType::Refuted, solve_text(text));
}

#[test]
fn test_branch1() {
    let text = "? A(a)\n\
                \t! x: A(x)\n\
                \t\t? B(x)\n\
                \t\t? C(x)\n\
                \t! y: B(y)\n\
                \t! z: C(z)\n";
    assert_eq!(SolverResultType::Refuted, solve_text(text));
}

#[test]
fn test_remove() {
    let text = "? Token(1), Token(2)\n\
                \t! x: Token(x), x == 1 $ remove_fact(0)\n\
                \t\t? Left(base_to_string())\n\
                \t! Left(\"Token(2)\")\n";
    assert_eq!(SolverResultType::Refuted, solve_text(text));
}
