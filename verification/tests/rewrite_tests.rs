use bootfrost::answer::Answer;
use bootfrost::attributes::Attributes;
use bootfrost::base::Base;
use bootfrost::context::Context;
use bootfrost::environment::{PEnv, Unattended};
use bootfrost::ifunctions::init;
use bootfrost::misc::{BlockId, Position, ProcessingResult, Quantifier, QuestionId, TermId, TqfId};
use bootfrost::question::{LocalSearch, Question, Tqf};
use bootfrost::strategies::{SelectorStrategy, StartFrom, StrategyItem};
use bootfrost::solver::{matching, processing};
use bootfrost::term::{PSTerms, Term};

fn tid(r: ProcessingResult) -> TermId {
    match r {
        ProcessingResult::New(t) | ProcessingResult::Existing(t) => t,
        ProcessingResult::Error => panic!("no term"),
    }
}

struct Setup {
    env: PEnv,
    x: TermId,
    px: TermId,
    a: TermId,
    pa: TermId,
    pb: TermId,
}

fn setup() -> Setup {
    let (mut p, _): (PSTerms, _) = init();
    let x = p.add_plain_var("x".to_string(), Quantifier::Forall);
    let sp = p.add_ifunction("P".to_string(), None, Position::Classic);
    let px = tid(p.get_tid(Term::SFunctor(sp, vec![x])));
    let a = tid(p.get_tid(Term::Integer(7)));
    let b = tid(p.get_tid(Term::Integer(8)));
    let pa = tid(p.get_tid(Term::SFunctor(sp, vec![a])));
    let pb = tid(p.get_tid(Term::SFunctor(sp, vec![b])));
    let env = PEnv { psterms: p, base: Base::new(), attributes: Attributes::new(), bid: BlockId(1) };
    Setup { env, x, px, a, pa, pb }
}

fn answer_with_step() -> Answer {
    let mut ans = Answer::new(BlockId(1), QuestionId(0), 1, 1);
    ans.push_satom(0, 0);
    ans
}

#[test]
fn rewriting_replaces_bound_variables() {
    let mut s = setup();
    let mut ans = answer_with_step();
    ans.push(s.x, s.a);
    let ctx = Context::new_empty();
    let mut host = Unattended;
    let r = processing(s.px, &ctx, Some(&ans), &mut s.env, &ans, &mut host, 1, 10);
    assert_eq!(tid(r), s.pa);
    let unbound = processing(s.x, &ctx, None, &mut s.env, &ans, &mut host, 1, 10);
    assert_eq!(unbound, ProcessingResult::Error);
    let value = processing(s.a, &ctx, None, &mut s.env, &ans, &mut host, 1, 10);
    assert_eq!(value, ProcessingResult::Existing(s.a));
}

#[test]
fn matching_binds_then_checks_the_binding() {
    let mut s = setup();
    let mut curr = answer_with_step();
    let ctx = Context::new_empty();
    let mut host = Unattended;
    let r = matching(s.pa, s.px, &ctx, &mut curr, &mut s.env, &mut host, 1, 10);
    assert_eq!(r, Some(true));
    assert_eq!(curr.get(&s.x), Some(s.a));
    let again = matching(s.pa, s.px, &ctx, &mut curr, &mut s.env, &mut host, 1, 10);
    assert_eq!(again, Some(true));
    let other = matching(s.pb, s.px, &ctx, &mut curr, &mut s.env, &mut host, 1, 10);
    assert_eq!(other, Some(false));
    assert_eq!(curr.get(&s.x), Some(s.a));
}

#[test]
fn rewriting_evaluates_an_interpreted_sum() {
    let (mut p, names) = init();
    let plus = names.get(&"+".to_string()).expect("the sum is interpreted");
    let one = tid(p.get_tid(Term::Integer(1)));
    let two = tid(p.get_tid(Term::Integer(2)));
    let sum = tid(p.get_tid(Term::IFunctor(bootfrost::misc::SymbolId(plus), vec![one, two])));
    let mut env = PEnv { psterms: p, base: Base::new(), attributes: Attributes::new(), bid: BlockId(1) };
    let ans = answer_with_step();
    let ctx = Context::new_empty();
    let mut host = Unattended;
    let r = processing(sum, &ctx, None, &mut env, &ans, &mut host, 1, 10);
    assert!(matches!(r, ProcessingResult::Existing(_)));
    assert_eq!(env.psterms.get_term(&tid(r)), Term::Integer(3));
}

#[test]
fn matching_a_repeated_variable_needs_equal_arguments() {
    let (mut p, _) = init();
    let x = p.add_plain_var("x".to_string(), Quantifier::Forall);
    let sp = p.add_ifunction("P".to_string(), None, Position::Classic);
    let a = tid(p.get_tid(Term::Integer(1)));
    let b = tid(p.get_tid(Term::Integer(2)));
    let pxx = tid(p.get_tid(Term::SFunctor(sp, vec![x, x])));
    let pab = tid(p.get_tid(Term::SFunctor(sp, vec![a, b])));
    let paa = tid(p.get_tid(Term::SFunctor(sp, vec![a, a])));
    let mut env = PEnv { psterms: p, base: Base::new(), attributes: Attributes::new(), bid: BlockId(1) };
    let ctx = Context::new_empty();
    let mut host = Unattended;
    let mut first = answer_with_step();
    assert_eq!(matching(pab, pxx, &ctx, &mut first, &mut env, &mut host, 1, 10), Some(false));
    assert_eq!(first.get(&x), Some(a));
    let mut second = answer_with_step();
    assert_eq!(matching(paa, pxx, &ctx, &mut second, &mut env, &mut host, 1, 10), Some(true));
    assert_eq!(second.get(&x), Some(a));
}

#[test]
fn a_search_on_an_empty_base_keeps_a_current_answer_per_block() {
    let (p, _) = init();
    let mut env = PEnv { psterms: p, base: Base::new(), attributes: Attributes::new(), bid: BlockId(1) };
    let tqfs = vec![Tqf { quantifier: Quantifier::Forall, vars: vec![], conj: vec![], commands: vec![], next: vec![] }];
    let a = Answer::new(BlockId(1), QuestionId(0), 1, 1);
    let mut q = Question {
        qid: QuestionId(0),
        bid: BlockId(1),
        aformula: TqfId(0),
        fstack_i: 0,
        curr_answer_stack: vec![a],
        answers: vec![],
        used_answers: vec![],
    };
    let si = StrategyItem { qid: QuestionId(0), selector: SelectorStrategy::Best, sf: StartFrom::Last, limit: 0 };
    let ctx = Context::new_empty();
    let mut host = Unattended;
    let r = q.find_answer_local(&si, BlockId(2), &mut env, &tqfs, 0, &ctx, &mut host, 1);
    assert!(matches!(r, LocalSearch::NotFound));
    assert_eq!(q.curr_answer_stack.len(), 2);
    assert_eq!(q.curr_answer_stack[0].bid, BlockId(1));
    assert_eq!(q.curr_answer_stack[1].bid, BlockId(2));
    assert!(q.answers.is_empty());
    assert!(q.used_answers.is_empty());
    let again = q.find_answer_local(&si, BlockId(2), &mut env, &tqfs, 0, &ctx, &mut host, 1);
    assert!(matches!(again, LocalSearch::NotFound));
    assert_eq!(q.curr_answer_stack.len(), 2);
}

#[test]
fn a_search_with_no_steps_still_moves_the_current_answer_to_the_block() {
    let (p, _) = init();
    let mut env = PEnv { psterms: p, base: Base::new(), attributes: Attributes::new(), bid: BlockId(1) };
    let tqfs: Vec<Tqf> = vec![];
    let a = Answer::new(BlockId(1), QuestionId(0), 1, 1);
    let mut q = Question {
        qid: QuestionId(0),
        bid: BlockId(1),
        aformula: TqfId(0),
        fstack_i: 0,
        curr_answer_stack: vec![a],
        answers: vec![],
        used_answers: vec![],
    };
    let si = StrategyItem { qid: QuestionId(0), selector: SelectorStrategy::Best, sf: StartFrom::Last, limit: 0 };
    let ctx = Context::new_empty();
    let mut host = Unattended;
    let r = q.find_answer_local(&si, BlockId(2), &mut env, &tqfs, 0, &ctx, &mut host, 1);
    assert!(matches!(r, LocalSearch::NotFound));
    assert_eq!(q.curr_answer_stack.len(), 2);
    assert_eq!(q.curr_answer_stack[0].bid, BlockId(1));
    assert_eq!(q.curr_answer_stack[1].bid, BlockId(2));
    assert!(q.answers.is_empty());
    assert!(q.used_answers.is_empty());
    let again = q.find_answer_local(&si, BlockId(2), &mut env, &tqfs, 0, &ctx, &mut host, 1);
    assert!(matches!(again, LocalSearch::NotFound));
    assert_eq!(q.curr_answer_stack.len(), 2);
}
