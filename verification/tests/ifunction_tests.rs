use bootfrost::answer::Answer;
use bootfrost::attributes::{AttributeName, AttributeValue, Attributes, KeyObject};
use bootfrost::base::Base;
use bootfrost::environment::{PEnv, Unattended};
use bootfrost::ifunctions::{
    apply_ifunction, base_to_string, blen, eq, first1, init, inlist, int_binary_fn, last1, noteq,
    notempty, notinlist, push1, read_file_result, remove_fact, replace, replace_chars, sort_ints, sortlist,
    string, subseteq,
};
use bootfrost::misc::{BlockId, ProcessingResult, QuestionId, TermId};
use bootfrost::term::{IFunction, PSTerms, Term};

fn tid(r: ProcessingResult) -> TermId {
    match r {
        ProcessingResult::New(t) | ProcessingResult::Existing(t) => t,
        ProcessingResult::Error => panic!("no term"),
    }
}

fn int_term(p: &mut PSTerms, i: i64) -> TermId {
    tid(p.get_tid(Term::Integer(i)))
}

fn text(p: &mut PSTerms, s: &str) -> TermId {
    tid(p.get_tid(Term::String(s.to_string())))
}

fn list(p: &mut PSTerms, items: Vec<TermId>) -> TermId {
    tid(p.get_tid(Term::List(items)))
}

fn term_of(p: &PSTerms, r: ProcessingResult) -> Term {
    p.get_term(&tid(r))
}

#[test]
fn init_registers_functions_in_order() {
    let (p, fmap) = init();
    assert_eq!(p.len(), 2);
    assert_eq!(p.symbols_len(), 25);
    assert_eq!(p.get_symbol(&bootfrost::misc::SymbolId(0)).name, "!=");
    assert_eq!(p.get_symbol(&bootfrost::misc::SymbolId(24)).name, "sort");
    assert_eq!(fmap.get(&"+".to_string()), Some(2));
    assert_eq!(fmap.get(&"solve".to_string()), Some(15));
    assert_eq!(fmap.get(&"nothing".to_string()), None);
}

#[test]
fn eq_compares_term_identifiers() {
    let (mut p, _) = init();
    let a = int_term(&mut p, 3);
    let b = int_term(&mut p, 3);
    let c = int_term(&mut p, 4);
    assert_eq!(a, b);
    assert_eq!(eq(&vec![a, b], &mut p), ProcessingResult::Existing(TermId(1)));
    assert_eq!(eq(&vec![a, c], &mut p), ProcessingResult::Existing(TermId(0)));
    assert_eq!(noteq(&vec![a, c], &mut p), ProcessingResult::Existing(TermId(1)));
    assert_eq!(eq(&vec![a], &mut p), ProcessingResult::Error);
}

#[test]
fn integer_arithmetic_and_comparisons() {
    let (mut p, _) = init();
    let a = int_term(&mut p, 7);
    let b = int_term(&mut p, 5);
    let r = int_binary_fn(IFunction::Plus, &vec![a, b], &mut p);
    assert_eq!(term_of(&p, r), Term::Integer(12));
    let r = int_binary_fn(IFunction::Minus, &vec![a, b], &mut p);
    assert_eq!(term_of(&p, r), Term::Integer(2));
    let r = int_binary_fn(IFunction::Multiply, &vec![a, b], &mut p);
    assert_eq!(term_of(&p, r), Term::Integer(35));
    assert_eq!(int_binary_fn(IFunction::Lt, &vec![a, b], &mut p), ProcessingResult::Existing(TermId(0)));
    assert_eq!(int_binary_fn(IFunction::Gt, &vec![a, b], &mut p), ProcessingResult::Existing(TermId(1)));
    assert_eq!(int_binary_fn(IFunction::LtEq, &vec![a, a], &mut p), ProcessingResult::Existing(TermId(1)));
    assert_eq!(int_binary_fn(IFunction::GtEq, &vec![b, a], &mut p), ProcessingResult::Existing(TermId(0)));
}

#[test]
fn arithmetic_overflow_has_no_result() {
    let (mut p, _) = init();
    let a = int_term(&mut p, i64::MAX);
    let b = int_term(&mut p, 1);
    let before = p.len();
    assert_eq!(int_binary_fn(IFunction::Plus, &vec![a, b], &mut p), ProcessingResult::Error);
    assert_eq!(p.len(), before);
}

#[test]
fn arithmetic_on_strings_has_no_result() {
    let (mut p, _) = init();
    let a = text(&mut p, "x");
    let b = int_term(&mut p, 1);
    assert_eq!(int_binary_fn(IFunction::Plus, &vec![a, b], &mut p), ProcessingResult::Error);
}

#[test]
fn interning_twice_gives_the_same_term() {
    let (mut p, _) = init();
    let first = p.get_tid(Term::Integer(42));
    let n = p.len();
    let second = p.get_tid(Term::Integer(42));
    assert!(matches!(first, ProcessingResult::New(_)));
    assert_eq!(second, ProcessingResult::Existing(tid(first)));
    assert_eq!(p.len(), n);
}

#[test]
fn concat_strings_and_lists() {
    let (mut p, _) = init();
    let a = text(&mut p, "ab");
    let b = text(&mut p, "cd");
    let r = bootfrost::ifunctions::concat(&vec![a, b], &mut p);
    assert_eq!(term_of(&p, r), Term::String("abcd".to_string()));
    let x = int_term(&mut p, 1);
    let y = int_term(&mut p, 2);
    let l1 = list(&mut p, vec![x]);
    let l2 = list(&mut p, vec![y, x]);
    let r = bootfrost::ifunctions::concat(&vec![l1, l2], &mut p);
    assert_eq!(term_of(&p, r), Term::List(vec![x, y, x]));
    assert_eq!(bootfrost::ifunctions::concat(&vec![a, l1], &mut p), ProcessingResult::Error);
}

#[test]
fn replace_all_occurrences() {
    let (mut p, _) = init();
    let s = text(&mut p, "a-b-c");
    let from = text(&mut p, "-");
    let to = text(&mut p, "+=");
    let r = replace(&vec![s, from, to], &mut p);
    assert_eq!(term_of(&p, r), Term::String("a+=b+=c".to_string()));
}

#[test]
fn replace_chars_matches_std() {
    let cases = [("aaa", "aa", "b"), ("ab", "", "x"), ("", "", "x"), ("hello", "l", "L"), ("abc", "d", "e")];
    for (s, f, t) in cases.iter() {
        let r = replace_chars(&s.chars().collect(), &f.chars().collect(), &t.chars().collect());
        let expected: Vec<char> = s.replace(f, t).chars().collect();
        assert_eq!(r, expected);
    }
}

#[test]
fn string_of_integer_and_other() {
    let (mut p, _) = init();
    let a = int_term(&mut p, -305);
    let r = string(&vec![a], &mut p);
    assert_eq!(term_of(&p, r), Term::String("-305".to_string()));
    let r = string(&vec![TermId(1)], &mut p);
    assert_eq!(term_of(&p, r), Term::String("hello".to_string()));
}

#[test]
fn list_functions() {
    let (mut p, _) = init();
    let x = int_term(&mut p, 1);
    let y = int_term(&mut p, 2);
    let z = int_term(&mut p, 3);
    let l = list(&mut p, vec![x, y]);
    let r = push1(&vec![l, z], &mut p);
    assert_eq!(term_of(&p, r), Term::List(vec![x, y, z]));
    assert_eq!(last1(&vec![l], &p), ProcessingResult::Existing(y));
    assert_eq!(first1(&vec![l], &p), ProcessingResult::Existing(x));
    let empty = list(&mut p, vec![]);
    assert_eq!(last1(&vec![empty], &p), ProcessingResult::Error);
    assert_eq!(notempty(&vec![l], &mut p), ProcessingResult::Existing(TermId(1)));
    assert_eq!(notempty(&vec![empty], &mut p), ProcessingResult::Existing(TermId(0)));
    assert_eq!(inlist(&vec![x, l], &mut p), ProcessingResult::Existing(TermId(1)));
    assert_eq!(inlist(&vec![z, l], &mut p), ProcessingResult::Existing(TermId(0)));
    assert_eq!(notinlist(&vec![z, l], &mut p), ProcessingResult::Existing(TermId(1)));
    let sub = list(&mut p, vec![y]);
    assert_eq!(subseteq(&vec![sub, l], &mut p), ProcessingResult::Existing(TermId(1)));
    assert_eq!(subseteq(&vec![l, sub], &mut p), ProcessingResult::Existing(TermId(0)));
}

#[test]
fn sort_gives_ascending_integers() {
    let (mut p, _) = init();
    let a = int_term(&mut p, 5);
    let b = int_term(&mut p, -1);
    let c = int_term(&mut p, 3);
    let l = list(&mut p, vec![a, b, c, a]);
    let r = sortlist(&vec![l], &mut p);
    assert_eq!(term_of(&p, r), Term::List(vec![b, c, a, a]));
    let s = text(&mut p, "x");
    let bad = list(&mut p, vec![a, s]);
    assert_eq!(sortlist(&vec![bad], &mut p), ProcessingResult::Error);
    assert_eq!(sort_ints(&vec![3, 1, 2, 1]), vec![1, 1, 2, 3]);
}

#[test]
fn base_length_and_text() {
    let (mut p, _) = init();
    let mut base = Base::new();
    let a = int_term(&mut p, 10);
    let s = text(&mut p, "x");
    base.push(a, BlockId(1));
    base.push(s, BlockId(1));
    let r = blen(&vec![], &mut p, &base);
    assert_eq!(term_of(&p, r), Term::Integer(2));
    let mut attributes = Attributes::new();
    let r = base_to_string(&vec![], &mut p, &base, &attributes);
    assert_eq!(term_of(&p, r), Term::String("10,\"x\"".to_string()));
    attributes.set_attribute(
        KeyObject::BaseIndex(0),
        AttributeName("deleted".to_string()),
        AttributeValue("true".to_string()),
        BlockId(2),
    );
    let r = base_to_string(&vec![], &mut p, &base, &attributes);
    assert_eq!(term_of(&p, r), Term::String("\"x\"".to_string()));
}

#[test]
fn remove_fact_marks_matched_fact() {
    let (mut p, _) = init();
    let mut answer = Answer::new(BlockId(1), QuestionId(0), 3, 1);
    answer.push_satom(0, 2);
    let zero = int_term(&mut p, 0);
    let one = int_term(&mut p, 1);
    let mut attributes = Attributes::new();
    let r = remove_fact(&vec![zero], &mut p, &answer, &mut attributes, BlockId(7));
    assert_eq!(r, ProcessingResult::Existing(TermId(1)));
    assert!(attributes.check(
        KeyObject::BaseIndex(2),
        AttributeName("deleted".to_string()),
        AttributeValue("true".to_string())
    ));
    assert_eq!(remove_fact(&vec![one], &mut p, &answer, &mut attributes, BlockId(7)), ProcessingResult::Error);
    attributes.remove_bid(BlockId(7));
    assert!(!attributes.check(
        KeyObject::BaseIndex(2),
        AttributeName("deleted".to_string()),
        AttributeValue("true".to_string())
    ));
}

#[test]
fn file_result_is_a_string_or_nothing() {
    let (mut p, _) = init();
    let r = read_file_result(Some("data".to_string()), &mut p);
    assert_eq!(term_of(&p, r), Term::String("data".to_string()));
    assert_eq!(read_file_result(None, &mut p), ProcessingResult::Error);
}

#[test]
fn apply_dispatches_and_solve_needs_depth() {
    let (psterms, _) = init();
    let mut env = PEnv { psterms, base: Base::new(), attributes: Attributes::new(), bid: BlockId(1) };
    let answer = Answer::new(BlockId(1), QuestionId(0), 1, 0);
    let mut host = Unattended;
    let a = int_term(&mut env.psterms, 2);
    let b = int_term(&mut env.psterms, 3);
    let r = apply_ifunction(IFunction::Multiply, &vec![a, b], &mut env, &answer, &mut host, 1);
    assert_eq!(term_of(&env.psterms, r), Term::Integer(6));
    let src = text(&mut env.psterms, "? P(a)\n\t! x: P(x)\n");
    let lim = int_term(&mut env.psterms, 10);
    let r = apply_ifunction(IFunction::Solve, &vec![src, lim], &mut env, &answer, &mut host, 1);
    assert_eq!(r, ProcessingResult::Existing(TermId(1)));
    let r = apply_ifunction(IFunction::Solve, &vec![src, lim], &mut env, &answer, &mut host, 0);
    assert_eq!(r, ProcessingResult::Error);
    let r = apply_ifunction(IFunction::ReadFileToString, &vec![src], &mut env, &answer, &mut host, 1);
    assert_eq!(r, ProcessingResult::Error);
}
