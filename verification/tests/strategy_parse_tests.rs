use bootfrost::environment::Unattended;
use bootfrost::manual::{
    parse_accept, parse_pick, parse_questions_list, parse_usize, split_commas_exec, trim_chars, AcceptInput,
    PickInput, QuestionsInput,
};
use bootfrost::misc::{BlockId, Quantifier, QuestionId, TqfId};
use bootfrost::parser::{align_modulo, parse_string, parse_tqf_line, string_to_pflines, PfLine};
use bootfrost::question::{Question, Tqf};
use bootfrost::render::int_to_string;
use bootfrost::solver::Solver;
use bootfrost::strategies::{
    general_strategy, manual_strategy, plain_shift_strategy, AnswerFilter, SelectorStrategy, StartFrom, Strategy,
};
use bootfrost::text::parse_i64;

fn question(i: usize, aformula: usize) -> Question {
    Question {
        qid: QuestionId(i),
        bid: BlockId(1),
        aformula: TqfId(aformula),
        fstack_i: 0,
        curr_answer_stack: vec![],
        answers: vec![],
        used_answers: vec![],
    }
}

fn chars(s: &str) -> Vec<char> {
    s.chars().collect()
}

#[test]
fn plain_shift_rotates_by_step() {
    let qs = vec![question(0, 0), question(1, 0), question(2, 0)];
    let r = plain_shift_strategy(&qs, 4);
    let order: Vec<usize> = r.iter().map(|s| s.qid.0).collect();
    assert_eq!(order, vec![1, 2, 0]);
    assert!(r.iter().all(|s| s.selector == SelectorStrategy::First(AnswerFilter::AcceptAll)));
    assert!(r.iter().all(|s| s.sf == StartFrom::Last && s.limit == 1000));
    let r = plain_shift_strategy(&qs, 0);
    let order: Vec<usize> = r.iter().map(|s| s.qid.0).collect();
    assert_eq!(order, vec![0, 1, 2]);
}

#[test]
fn general_strategy_orders_by_rate_then_number() {
    let tqfs = vec![
        Tqf { quantifier: Quantifier::Exists, vars: vec![], conj: vec![], commands: vec![], next: vec![] },
        Tqf { quantifier: Quantifier::Forall, vars: vec![], conj: vec![], commands: vec![], next: vec![TqfId(0), TqfId(0)] },
        Tqf { quantifier: Quantifier::Forall, vars: vec![], conj: vec![], commands: vec![], next: vec![TqfId(0)] },
        Tqf { quantifier: Quantifier::Forall, vars: vec![], conj: vec![], commands: vec![], next: vec![] },
    ];
    let qs = vec![question(0, 1), question(1, 2), question(2, 3), question(3, 2)];
    let r = general_strategy(&qs, &tqfs, 0);
    let order: Vec<usize> = r.iter().map(|s| s.qid.0).collect();
    assert_eq!(order, vec![2, 1, 3, 0]);
}

#[test]
fn manual_strategy_keeps_listed_questions() {
    let qs = vec![question(0, 0), question(1, 0)];
    let r = manual_strategy(&qs, SelectorStrategy::Best, &vec![1, 5, 0]);
    let order: Vec<usize> = r.iter().map(|s| s.qid.0).collect();
    assert_eq!(order, vec![1, 0]);
    assert!(r.iter().all(|s| s.selector == SelectorStrategy::Best));
}

#[test]
fn questions_list_lines() {
    assert_eq!(parse_questions_list(" q ", 3), QuestionsInput::Quit);
    assert_eq!(parse_questions_list("0,2,1", 3), QuestionsInput::List(vec![0, 2, 1]));
    assert_eq!(parse_questions_list(" 2 , .. ", 3), QuestionsInput::List(vec![2, 0, 1, 3]));
    assert_eq!(parse_questions_list("1,4", 3), QuestionsInput::OutOfRange(4));
    assert_eq!(parse_questions_list("1,x", 3), QuestionsInput::Invalid("x".to_string()));
    assert_eq!(parse_questions_list("", 3), QuestionsInput::Invalid("".to_string()));
    assert_eq!(parse_questions_list("..,1", 3), QuestionsInput::Invalid("..".to_string()));
}

#[test]
fn accept_and_pick_lines() {
    assert_eq!(parse_accept("y\n"), AcceptInput::Yes);
    assert_eq!(parse_accept(" n"), AcceptInput::No);
    assert_eq!(parse_accept("q"), AcceptInput::Quit);
    assert_eq!(parse_accept("yes"), AcceptInput::Again);
    assert_eq!(parse_pick("1\n", 3), PickInput::Pick(1));
    assert_eq!(parse_pick("3", 3), PickInput::OutOfRange(3));
    assert_eq!(parse_pick("n", 3), PickInput::Decline);
    assert_eq!(parse_pick("q", 3), PickInput::Quit);
    assert_eq!(parse_pick("-1", 3), PickInput::Invalid);
}

#[test]
fn text_helpers() {
    assert_eq!(trim_chars(&chars(" \t a b \n")), chars("a b"));
    assert_eq!(trim_chars(&chars("   ")), chars(""));
    assert_eq!(split_commas_exec(&chars("a,,b,")), vec![chars("a"), chars(""), chars("b"), chars("")]);
    assert_eq!(parse_usize(&chars("+17")), Some(17));
    assert_eq!(parse_usize(&chars("18446744073709551616")), None);
    assert_eq!(parse_usize(&chars("")), None);
    assert_eq!(parse_i64(&chars("-9223372036854775808")), Some(i64::MIN));
    assert_eq!(parse_i64(&chars("9223372036854775808")), None);
    assert_eq!(parse_i64(&chars("+5")), Some(5));
}

#[test]
fn integer_text_is_read_back() {
    for i in [0i64, 7, -7, 1234567, i64::MIN, i64::MAX].iter() {
        let s = int_to_string(*i);
        assert_eq!(parse_i64(&s.chars().collect()), Some(*i));
    }
}

#[test]
fn align_to_multiple_of_eight() {
    assert_eq!(align_modulo(0, 8), 8);
    assert_eq!(align_modulo(3, 8), 8);
    assert_eq!(align_modulo(8, 8), 16);
    assert_eq!(align_modulo(13, 8), 16);
}

#[test]
fn formula_lines() {
    let l = PfLine::new("\t  ? P(a)".to_string());
    assert_eq!(l.indent, 10);
    assert_eq!(l.line, "\t  ? P(a)");
    let pf = parse_tqf_line(&chars("! x, y: P(x), Q(y) $ remove_fact(0)")).unwrap();
    assert_eq!(pf.quantifier, "!");
    assert_eq!(pf.vars.len(), 2);
    assert_eq!(pf.conjunct.len(), 2);
    assert_eq!(pf.commands.len(), 1);
    assert_eq!(pf.commands[0].symbol, "remove_fact");
    assert!(parse_tqf_line(&chars("P(a)")).is_err());
    let lines = string_to_pflines("? P(a) # facts\n\t! x: P(x)~\n, Q(x)\n");
    assert_eq!(lines.len(), 2);
    assert_eq!(lines[0].line, "? P(a) ");
    assert_eq!(lines[1].line, "\t! x: P(x), Q(x)");
    assert_eq!(lines[1].indent, 8);
    let lines = string_to_pflines("? P(a)\n\n\t! x: P(x)~\n, Q(x)\n");
    assert_eq!(lines.len(), 3);
    let pf = parse_string("? P(a)\n\t! x: P(x)\n").unwrap();
    assert_eq!(pf.next.len(), 1);
    assert_eq!(pf.next[0].next.len(), 1);
}

#[test]
fn state_and_formula_text() {
    let mut solver = Solver::parse_string("? P(a)\n\t! x: P(x) $ remove_fact(0)\n\t\t? Q(x)\n", Strategy::General).unwrap();
    let state = solver.state_text();
    assert_eq!(state, "\nCurrent formula:\nBase: P(a)\n\nQuestions:\n(0) !x P(x) $ remove_fact(0)\n    ? Q(x) \n");
    let mut host = Unattended;
    let _ = solver.solver_loop(1, &mut host);
    let state = solver.state_text();
    assert_eq!(state, "\nCurrent formula:\nBase: [P(a)],Q(a)\n\nQuestions:\n(0) !x P(x) $ remove_fact(0)\n    ? Q(x) \n");
}
