use bootfrost::answer::{Answer, LogItem, MatchingState};
use bootfrost::attributes::{AttributeName, AttributeValue, Attributes, KeyObject};
use bootfrost::base::Base;
use bootfrost::context::Context;
use bootfrost::idmap::{IdMap, NameMap};
use bootfrost::ifunctions::init;
use bootfrost::misc::{BlockId, Quantifier, QuestionId, TermId, TqfId, ProcessingResult, DisplayMode, SymbolId};
use bootfrost::question::{Question, Tqf};
use bootfrost::render::{int_to_string, TidDisplay, TidsDisplay, SidDisplay};
use bootfrost::term::Term;
use bootfrost::solverlog::SolverLog;
use bootfrost::totalsize::TotalSize;

fn attr(name: &str) -> AttributeName {
    AttributeName(name.to_string())
}

fn val(v: &str) -> AttributeValue {
    AttributeValue(v.to_string())
}

#[test]
fn base_push_and_remove_block() {
    let mut base = Base::new();
    assert!(base.is_empty());
    base.push(TermId(5), BlockId(1));
    base.push(TermId(6), BlockId(2));
    base.push(TermId(7), BlockId(2));
    assert_eq!(base.len(), 3);
    assert!(base.contains_key(&TermId(7)));
    base.remove(BlockId(2));
    assert_eq!(base.len(), 1);
    assert!(!base.contains_key(&TermId(7)));
    assert!(base.contains_key(&TermId(5)));
    assert_eq!(base.get(0).term, TermId(5));
    assert!(!base.deleted(0));
}

#[test]
fn base_push_and_check_skips_present_terms() {
    let mut base = Base::new();
    assert!(base.push_and_check(TermId(5), BlockId(1)));
    assert!(!base.push_and_check(TermId(5), BlockId(2)));
    assert!(base.push_and_check(TermId(6), BlockId(2)));
    assert_eq!(base.len(), 2);
}

#[test]
fn attributes_latest_value_and_block_removal() {
    let mut a = Attributes::new();
    assert!(!a.check(KeyObject::BaseIndex(0), attr("deleted"), val("true")));
    a.set_attribute(KeyObject::BaseIndex(0), attr("deleted"), val("true"), BlockId(1));
    assert!(a.check(KeyObject::BaseIndex(0), attr("deleted"), val("true")));
    a.set_attribute(KeyObject::BaseIndex(0), attr("deleted"), val("false"), BlockId(2));
    assert!(!a.check(KeyObject::BaseIndex(0), attr("deleted"), val("true")));
    a.remove_bid(BlockId(2));
    assert!(a.check(KeyObject::BaseIndex(0), attr("deleted"), val("true")));
    assert!(!a.check(KeyObject::BaseIndex(1), attr("deleted"), val("true")));
}

#[test]
fn answer_steps_bind_and_unbind() {
    let mut a = Answer::new(BlockId(1), QuestionId(0), 4, 2);
    assert_eq!(a.state, MatchingState::Zero);
    assert_eq!(a.upper, 3);
    assert_eq!(a.len(), 0);
    a.push_satom(0, 1);
    a.push(TermId(10), TermId(20));
    a.push(TermId(11), TermId(21));
    assert_eq!(a.get(&TermId(10)), Some(TermId(20)));
    assert!(a.pop());
    assert_eq!(a.get(&TermId(10)), None);
    assert_eq!(a.get(&TermId(11)), None);
    assert!(!a.pop());
}

#[test]
fn answer_next_b_moves_to_next_fact_then_rolls_back() {
    let mut a = Answer::new(BlockId(1), QuestionId(0), 2, 1);
    a.push_satom(0, 0);
    a.push(TermId(10), TermId(20));
    a.next_b();
    assert_eq!(a.state, MatchingState::Ready);
    assert_eq!(a.get(&TermId(10)), None);
    match a.last() {
        Some(LogItem::Matching { batom_i, .. }) => assert_eq!(*batom_i, 1),
        _ => panic!("expected a matching step"),
    }
    a.next_b();
    assert_eq!(a.state, MatchingState::Rollback);
    assert_eq!(a.len(), 0);
}

#[test]
fn answer_bounds_and_next_k() {
    let mut a = Answer::new(BlockId(1), QuestionId(0), 3, 2);
    assert_eq!(a.get_b(0), 0);
    a.next_k();
    assert_eq!(a.k, 1);
    assert_eq!(a.state, MatchingState::Zero);
    a.next_k();
    assert_eq!(a.state, MatchingState::Exhausted);
    assert!(!a.shift_bounds(3));
    assert!(a.shift_bounds(5));
    assert_eq!(a.middle, 2);
    assert_eq!(a.upper, 4);
    assert_eq!(a.get_b(1), 2);
    assert_eq!(a.get_b(0), 0);
}

#[test]
fn answer_next_a_completes_or_starts_an_atom() {
    let (mut p, _) = init();
    let t = match p.get_tid(Term::Integer(1)) {
        ProcessingResult::New(t) | ProcessingResult::Existing(t) => t,
        _ => panic!(),
    };
    let tqf = Tqf { quantifier: Quantifier::Forall, vars: vec![], conj: vec![t], commands: vec![], next: vec![] };
    let mut a = Answer::new(BlockId(1), QuestionId(0), 1, 1);
    a.next_a(&p, &tqf);
    assert_eq!(a.state, MatchingState::Ready);
    assert_eq!(a.len(), 1);
    a.next_a(&p, &tqf);
    assert_eq!(a.state, MatchingState::Answer);
}

#[test]
fn same_substitution_compares_bindings() {
    let mut a = Answer::new(BlockId(1), QuestionId(0), 1, 1);
    let mut b = Answer::new(BlockId(2), QuestionId(0), 1, 1);
    a.push_satom(0, 0);
    b.push_satom(0, 0);
    a.push(TermId(3), TermId(4));
    assert!(!a.same_substitution(&b));
    b.push(TermId(3), TermId(4));
    assert!(a.same_substitution(&b));
}

#[test]
fn context_binds_answers_and_existential_instances() {
    let (mut p, _) = init();
    let e = p.add_plain_var("y".to_string(), Quantifier::Exists);
    let mut answer = Answer::new(BlockId(1), QuestionId(0), 1, 1);
    answer.push_satom(0, 0);
    answer.push(TermId(7), TermId(8));
    let empty = Context::new_empty();
    let mut c = Context::new(&empty, &answer);
    assert_eq!(c.get(&TermId(7)), Some(TermId(8)));
    let n = p.len();
    c.push_evars(&vec![e], &mut p, BlockId(3));
    assert_eq!(c.get(&e), Some(TermId(n)));
    c.pop_evars(&vec![e]);
    assert_eq!(c.get(&e), None);
    assert_eq!(c.get(&TermId(7)), Some(TermId(8)));
}

#[test]
fn tables_cut_back_to_a_length() {
    let (mut p, _) = init();
    let n = p.len();
    let _ = p.get_tid(Term::Integer(9));
    assert_eq!(p.len(), n + 1);
    p.back_to(n);
    assert_eq!(p.len(), n);
    assert!(matches!(p.get_tid(Term::Integer(9)), ProcessingResult::New(_)));
    assert!(p.is_false(&TermId(0)));
    assert!(p.check_value(&TermId(1)));
}

#[test]
fn idmap_and_namemap() {
    let mut m = IdMap::new();
    m.insert(1, 10);
    m.insert(2, 20);
    m.insert(1, 11);
    assert_eq!(m.get(1), Some(11));
    assert!(m.contains_key(2));
    m.remove(1);
    assert_eq!(m.get(1), None);
    let mut other = IdMap::new();
    other.insert(2, 22);
    m.extend(&other);
    assert_eq!(m.get(2), Some(22));
    assert!(m.same_as(&m.copy()));
    let mut names = NameMap::new();
    names.insert("a".to_string(), 3);
    assert_eq!(names.get(&"a".to_string()), Some(3));
    assert!(!names.contains_key(&"b".to_string()));
}

#[test]
fn rendering_terms() {
    assert_eq!(int_to_string(-42), "-42");
    assert_eq!(int_to_string(0), "0");
    assert_eq!(int_to_string(i64::MIN), "-9223372036854775808");
    let (mut p, fmap) = init();
    let a = p.add_plain_const("a".to_string(), &mut NameMap::new());
    let one = match p.get_tid(Term::Integer(1)) {
        ProcessingResult::New(t) | ProcessingResult::Existing(t) => t,
        _ => panic!(),
    };
    let plus = bootfrost::misc::SymbolId(fmap.get(&"+".to_string()).unwrap());
    let sum = match p.get_tid(Term::IFunctor(plus, vec![a, one])) {
        ProcessingResult::New(t) | ProcessingResult::Existing(t) => t,
        _ => panic!(),
    };
    let shown = TidDisplay { tid: sum, psterms: &p, context: None, dm: DisplayMode::Plain }.to_string();
    assert_eq!(shown, "a + 1");
    let both = TidsDisplay { tids: &vec![a, one, TermId(1)], psterms: &p, context: None, dm: DisplayMode::Plain, d: ", " }
        .to_string();
    assert_eq!(both, "a, 1, true");
    let s = SidDisplay { sid: SymbolId(2), psterms: &p, dm: DisplayMode::PlainSid }.to_string();
    assert_eq!(s, "+.2");
}

#[test]
fn question_rates() {
    let tqfs = vec![
        Tqf { quantifier: Quantifier::Exists, vars: vec![], conj: vec![], commands: vec![], next: vec![] },
        Tqf { quantifier: Quantifier::Forall, vars: vec![], conj: vec![], commands: vec![], next: vec![TqfId(0), TqfId(0)] },
    ];
    let mut q = Question {
        qid: QuestionId(0),
        bid: BlockId(1),
        aformula: TqfId(1),
        fstack_i: 0,
        curr_answer_stack: vec![],
        answers: vec![],
        used_answers: vec![],
    };
    assert_eq!(q.branches(&tqfs), 2);
    assert_eq!(q.last_level(3), None);
    assert_eq!(q.gs_rate(&tqfs, 3), 2);
    let mut used = Answer::new(BlockId(1), QuestionId(0), 1, 0);
    used.level = Some(1);
    q.used_answers.push(used);
    assert_eq!(q.used_count(), 1);
    assert_eq!(q.last_level(3), Some(2));
    assert_eq!(q.gs_state(&tqfs, 3), (2, Some(2), 1));
    assert_eq!(q.gs_rate(&tqfs, 3), 2 * 3 * 4);
    q.remove_answers(BlockId(1));
    assert_eq!(q.used_count(), 0);
}

#[test]
fn solver_log_records_steps() {
    let mut log = SolverLog::new();
    log.new_step(1);
    log.set_qa(3, "x = a".to_string());
    log.new_step(2);
    assert_eq!(log.log.len(), 2);
    assert_eq!(log.log[0].qid, 3);
    assert_eq!(log.log[0].answer, "x = a");
    assert_eq!(log.log[1].step, 2);
    assert!(!log.log[1].completed);
}

#[test]
fn total_size_adds_element_sizes() {
    let v: Vec<usize> = vec![1, 2, 3];
    assert_eq!(v.total_size(), 3 * std::mem::size_of::<usize>());
    assert_eq!(true.total_size(), 1);
    assert_eq!(5i64.total_size(), 8);
}

#[test]
fn last_mut_changes_the_last_step() {
    let mut a = Answer::new(BlockId(1), QuestionId(0), 4, 2);
    assert!(a.last_mut().is_none());
    a.push_satom(0, 1);
    match a.last_mut() {
        Some(LogItem::Matching { batom_i, .. }) => *batom_i = 3,
        _ => panic!("expected a matching step"),
    }
    match a.last() {
        Some(LogItem::Matching { batom_i, .. }) => assert_eq!(*batom_i, 3),
        _ => panic!("expected a matching step"),
    }
}

#[test]
fn removing_a_block_gives_back_the_base() {
    let mut base = Base::new();
    base.push(TermId(1), BlockId(1));
    base.push(TermId(2), BlockId(1));
    let before: Vec<usize> = (0..base.len()).map(|i| base.get(i).term.0).collect();
    base.push(TermId(3), BlockId(2));
    base.push(TermId(4), BlockId(2));
    base.remove(BlockId(2));
    let after: Vec<usize> = (0..base.len()).map(|i| base.get(i).term.0).collect();
    assert_eq!(before, after);
}

#[test]
fn popping_a_step_gives_back_the_substitution() {
    let mut a = Answer::new(BlockId(1), QuestionId(0), 4, 2);
    a.push_satom(0, 0);
    a.push(TermId(5), TermId(6));
    let before = a.get(&TermId(5));
    a.push_satom(1, 0);
    a.push(TermId(7), TermId(8));
    a.push(TermId(9), TermId(10));
    assert!(a.pop());
    assert_eq!(a.get(&TermId(5)), before);
    assert_eq!(a.get(&TermId(7)), None);
    assert_eq!(a.get(&TermId(9)), None);
}

#[test]
fn plain_formula_and_term_text() {
    let pf = bootfrost::parser::parse_string("? P(a, f(b))\n\t! x: P(x, y) $ remove_fact(0)\n").unwrap();
    assert_eq!(pf.next[0].conjunct[0].text(), "P(a,f(b,),)");
    let text = pf.text(&"".to_string());
    assert_eq!(text, "!  \n    ?  P(a,f(b,),),\n        !x  P(x,y,),  $  remove_fact(0,),\n");
}

#[test]
fn symbols_are_listed() {
    let (p, _) = init();
    let text = p.symbols_text();
    assert!(text.starts_with("!=.0\n==.1\n+.2\n"));
    assert!(text.ends_with("sort.24\n"));
}

#[test]
fn solver_level_counts_blocks_under_top() {
    let solver = bootfrost::solver::Solver::parse_string("? P(a)\n\t! x: P(x)\n\t\t? Q(x)\n", bootfrost::strategies::Strategy::General).unwrap();
    assert_eq!(solver.level(), 0);
}
