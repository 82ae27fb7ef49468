use vstd::prelude::*;
use crate::solver::text_accepted;
use vstd::relations::sorted_by;
use crate::misc::{TermId, ProcessingResult, DisplayMode};
use crate::term::{IFunction, PSTerms, PSTermsV, Term, TermV, BTerm, copy_tids};
use crate::text::{chars_of_string, string_of};
use crate::render::{int_chars, int_to_string, push_all, push_tids, tids_chars, RENDER_DEPTH};
use crate::base::Base;
use crate::attributes::{Attributes, AttributeName, AttributeValue, KeyObject, Setting, holds};
use crate::answer::{Answer, AnswerV, LogItem, LogItemV};
use crate::environment::{PEnv, Host, env_ok};
use crate::idmap::NameMap;
use crate::misc::Position;
use crate::term::SymbolV;

verus! {

broadcast use vstd::seq_lib::group_to_multiset_ensures;

/// What an interpreted function gives: a value (found again or added to the
/// tables), one of the terms it was given, or nothing, where the original
/// computation has no result.
pub enum Outcome {
    Value(TermV),
    Arg(TermId),
    Fail,
}

/// `r` is the identifier of the value `v`: the one it is found again under,
/// or a new entry at the end of the tables.
pub open spec fn interns(old: PSTermsV, new: PSTermsV, r: ProcessingResult, v: TermV) -> bool {
    match r {
        ProcessingResult::Existing(t) => old.lookup(v) == Some(t) && new == old,
        ProcessingResult::New(t) => {
            &&& old.lookup(v) is None
            &&& t.0 == old.terms.len()
            &&& new.terms == old.terms.push(v)
            &&& new.indexed == old.indexed.push(true)
            &&& new.symbols == old.symbols
        },
        ProcessingResult::Error => false,
    }
}

/// `r` and the tables `new` are what outcome `o` asks for.
pub open spec fn meets(old: PSTermsV, new: PSTermsV, r: ProcessingResult, o: Outcome) -> bool {
    match o {
        Outcome::Value(v) => interns(old, new, r, v),
        Outcome::Arg(t) => r == ProcessingResult::Existing(t) && new == old,
        Outcome::Fail => r is Error && new == old,
    }
}

/// The integer held by term `t`, if it is one.
pub open spec fn int_of(p: PSTermsV, t: TermId) -> Option<i64> {
    match p.terms[t.0 as int] {
        TermV::Integer(i) => Some(i),
        _ => None,
    }
}

/// The list held by term `t`, if it is one.
pub open spec fn list_of(p: PSTermsV, t: TermId) -> Option<Seq<TermId>> {
    match p.terms[t.0 as int] {
        TermV::List(l) => Some(l),
        _ => None,
    }
}

/// The string held by term `t`, if it is one.
pub open spec fn str_of(p: PSTermsV, t: TermId) -> Option<Seq<char>> {
    match p.terms[t.0 as int] {
        TermV::String(s) => Some(s),
        _ => None,
    }
}

/// Whether `v` fits in an `i64`.
pub open spec fn in_i64(v: int) -> bool {
    i64::MIN <= v <= i64::MAX
}

/// The arithmetic and comparisons on two integers; an arithmetic result
/// outside `i64` has none.
pub open spec fn int_binary(f: IFunction, a: i64, b: i64) -> Outcome {
    match f {
        IFunction::Plus => if in_i64(a + b) {
            Outcome::Value(TermV::Integer((a + b) as i64))
        } else {
            Outcome::Fail
        },
        IFunction::Minus => if in_i64(a - b) {
            Outcome::Value(TermV::Integer((a - b) as i64))
        } else {
            Outcome::Fail
        },
        IFunction::Multiply => if in_i64(a * b) {
            Outcome::Value(TermV::Integer((a * b) as i64))
        } else {
            Outcome::Fail
        },
        IFunction::Lt => Outcome::Value(TermV::Bool(a < b)),
        IFunction::Gt => Outcome::Value(TermV::Bool(a > b)),
        IFunction::LtEq => Outcome::Value(TermV::Bool(a <= b)),
        IFunction::GtEq => Outcome::Value(TermV::Bool(a >= b)),
        _ => Outcome::Fail,
    }
}

/// Whether `f` is one of the two-integer functions.
pub open spec fn is_int_binary(f: IFunction) -> bool {
    f is Plus || f is Minus || f is Multiply || f is Lt || f is Gt || f is LtEq || f is GtEq
}

/// The string `to` in place of each occurrence of `from` in `s`, from left
/// to right, occurrences not overlapping; an empty `from` occurs before
/// each character and at the end.
pub open spec fn replaced(s: Seq<char>, from: Seq<char>, to: Seq<char>) -> Seq<char>
    decreases s.len(),
{
    if from.len() == 0 {
        if s.len() == 0 {
            to
        } else {
            to + seq![s[0]] + replaced(s.drop_first(), from, to)
        }
    } else if s.len() == 0 {
        s
    } else if from.len() <= s.len() && s.take(from.len() as int) == from {
        to + replaced(s.skip(from.len() as int), from, to)
    } else {
        seq![s[0]] + replaced(s.drop_first(), from, to)
    }
}

pub open spec fn hello_chars() -> Seq<char> {
    seq!['h', 'e', 'l', 'l', 'o']
}

/// What the interpreted functions that read nothing but their arguments
/// give on the arguments `args`.
pub open spec fn pure_outcome(f: IFunction, p: PSTermsV, args: Seq<TermId>) -> Outcome {
    match f {
        IFunction::Eq => if args.len() == 2 {
            Outcome::Value(TermV::Bool(args[0] == args[1]))
        } else {
            Outcome::Fail
        },
        IFunction::NotEq => if args.len() == 2 {
            Outcome::Value(TermV::Bool(args[0] != args[1]))
        } else {
            Outcome::Fail
        },
        IFunction::Plus | IFunction::Minus | IFunction::Multiply | IFunction::Lt | IFunction::Gt
        | IFunction::LtEq | IFunction::GtEq => if args.len() == 2 && int_of(p, args[0]) is Some
            && int_of(p, args[1]) is Some {
            int_binary(f, int_of(p, args[0]).unwrap(), int_of(p, args[1]).unwrap())
        } else {
            Outcome::Fail
        },
        IFunction::Concat => if args.len() == 2 {
            match (p.terms[args[0].0 as int], p.terms[args[1].0 as int]) {
                (TermV::String(x), TermV::String(y)) => Outcome::Value(TermV::String(x + y)),
                (TermV::List(x), TermV::List(y)) => Outcome::Value(TermV::List(x + y)),
                _ => Outcome::Fail,
            }
        } else {
            Outcome::Fail
        },
        IFunction::Replace => if args.len() == 3 && str_of(p, args[0]) is Some && str_of(p, args[1]) is Some
            && str_of(p, args[2]) is Some {
            Outcome::Value(
                TermV::String(
                    replaced(
                        str_of(p, args[0]).unwrap(),
                        str_of(p, args[1]).unwrap(),
                        str_of(p, args[2]).unwrap(),
                    ),
                ),
            )
        } else {
            Outcome::Fail
        },
        IFunction::ToString => if args.len() == 1 {
            match int_of(p, args[0]) {
                Some(i) => Outcome::Value(TermV::String(int_chars(i as int))),
                None => Outcome::Value(TermV::String(hello_chars())),
            }
        } else {
            Outcome::Fail
        },
        IFunction::Push => if args.len() == 2 && list_of(p, args[0]) is Some {
            Outcome::Value(TermV::List(list_of(p, args[0]).unwrap().push(args[1])))
        } else {
            Outcome::Fail
        },
        IFunction::Last => if args.len() == 1 && list_of(p, args[0]) is Some && list_of(p, args[0]).unwrap().len()
            > 0 {
            Outcome::Arg(list_of(p, args[0]).unwrap().last())
        } else {
            Outcome::Fail
        },
        IFunction::First => if args.len() == 1 && list_of(p, args[0]) is Some && list_of(
            p,
            args[0],
        ).unwrap().len() > 0 {
            Outcome::Arg(list_of(p, args[0]).unwrap()[0])
        } else {
            Outcome::Fail
        },
        IFunction::NotEmpty => if args.len() == 1 && list_of(p, args[0]) is Some {
            Outcome::Value(TermV::Bool(list_of(p, args[0]).unwrap().len() > 0))
        } else {
            Outcome::Fail
        },
        IFunction::In => if args.len() == 2 && list_of(p, args[1]) is Some {
            Outcome::Value(TermV::Bool(list_of(p, args[1]).unwrap().contains(args[0])))
        } else {
            Outcome::Fail
        },
        IFunction::NotIn => if args.len() == 2 && list_of(p, args[1]) is Some {
            Outcome::Value(TermV::Bool(!list_of(p, args[1]).unwrap().contains(args[0])))
        } else {
            Outcome::Fail
        },
        IFunction::SubsetEq => if args.len() == 2 && list_of(p, args[1]) is Some && list_of(p, args[0]) is Some {
            Outcome::Value(
                TermV::Bool(
                    forall|i: int|
                        0 <= i < list_of(p, args[0]).unwrap().len() ==> list_of(p, args[1]).unwrap().contains(
                            #[trigger] list_of(p, args[0]).unwrap()[i],
                        ),
                ),
            )
        } else {
            Outcome::Fail
        },
        _ => Outcome::Fail,
    }
}

/// The interpreted functions whose result depends on their arguments alone
/// and is one term.
pub open spec fn is_pure(f: IFunction) -> bool {
    !(f is Blen || f is BaseToString || f is RemoveFact || f is ReadFileToString || f is Solve || f is Sort)
}

/// Every identifier of `args` is a term of the tables.
pub open spec fn args_valid(p: PSTermsV, args: Seq<TermId>) -> bool {
    forall|k: int| 0 <= k < args.len() ==> (#[trigger] args[k]).0 < p.terms.len()
}

/// Interns `t`.
fn give(psterms: &mut PSTerms, t: Term) -> (r: ProcessingResult)
    requires
        old(psterms)@.wf(),
        old(psterms)@.has_booleans(),
        old(psterms)@.term_fits(t@),
    ensures
        final(psterms)@.wf(),
        final(psterms)@.has_booleans(),
        final(psterms)@.terms.len() <= usize::MAX,
        interns(old(psterms)@, final(psterms)@, r, t@),
{
    let r = psterms.get_tid(t);
    let _n = psterms.len();
    r
}

/// Interns the boolean `b`.
fn give_bool(psterms: &mut PSTerms, b: bool) -> (r: ProcessingResult)
    requires
        old(psterms)@.wf(),
        old(psterms)@.has_booleans(),
    ensures
        final(psterms)@.wf(),
        final(psterms)@.has_booleans(),
        interns(old(psterms)@, final(psterms)@, r, TermV::Bool(b)),
        r == ProcessingResult::Existing(TermId(if b { 1 } else { 0 })),
{
    proof {
        crate::term::lemma_lookup_unique(psterms@, TermV::Bool(b), if b { 1 } else { 0 });
    }
    give(psterms, Term::Bool(b))
}

/// `==` on two terms: whether they are the same term.
pub fn eq(args: &Vec<TermId>, psterms: &mut PSTerms) -> (r: ProcessingResult)
    requires
        old(psterms)@.wf(),
        old(psterms)@.has_booleans(),
    ensures
        final(psterms)@.wf(),
        final(psterms)@.has_booleans(),
        meets(old(psterms)@, final(psterms)@, r, pure_outcome(IFunction::Eq, old(psterms)@, args@)),
{
    if args.len() != 2 {
        return ProcessingResult::Error;
    }
    give_bool(psterms, args[0] == args[1])
}

/// `!=` on two terms: whether they are different terms.
pub fn noteq(args: &Vec<TermId>, psterms: &mut PSTerms) -> (r: ProcessingResult)
    requires
        old(psterms)@.wf(),
        old(psterms)@.has_booleans(),
    ensures
        final(psterms)@.wf(),
        final(psterms)@.has_booleans(),
        meets(old(psterms)@, final(psterms)@, r, pure_outcome(IFunction::NotEq, old(psterms)@, args@)),
{
    if args.len() != 2 {
        return ProcessingResult::Error;
    }
    give_bool(psterms, args[0] != args[1])
}

/// The integer held by term `t`, if any.
fn get_int(psterms: &PSTerms, t: TermId) -> (r: Option<i64>)
    requires
        t.0 < psterms@.terms.len(),
    ensures
        r == int_of(psterms@, t),
{
    match psterms.term_ref(&t) {
        Term::Integer(i) => Some(*i),
        _ => None,
    }
}

/// A copy of the list held by term `t`, if any.
fn get_list(psterms: &PSTerms, t: TermId) -> (r: Option<Vec<TermId>>)
    requires
        t.0 < psterms@.terms.len(),
    ensures
        match r {
            Some(v) => list_of(psterms@, t) == Some(v@),
            None => list_of(psterms@, t) is None,
        },
{
    match psterms.term_ref(&t) {
        Term::List(l) => Some(copy_tids(l)),
        _ => None,
    }
}

/// The characters of the string held by term `t`, if any.
fn get_str(psterms: &PSTerms, t: TermId) -> (r: Option<Vec<char>>)
    requires
        t.0 < psterms@.terms.len(),
    ensures
        match r {
            Some(v) => str_of(psterms@, t) == Some(v@),
            None => str_of(psterms@, t) is None,
        },
{
    match psterms.term_ref(&t) {
        Term::String(s) => Some(chars_of_string(s)),
        _ => None,
    }
}

/// The arithmetic (`+`, `-`, `*`) and comparisons (`<`, `>`, `<=`, `>=`)
/// on two integers.
pub fn int_binary_fn(f: IFunction, args: &Vec<TermId>, psterms: &mut PSTerms) -> (r: ProcessingResult)
    requires
        old(psterms)@.wf(),
        old(psterms)@.has_booleans(),
        args_valid(old(psterms)@, args@),
        is_int_binary(f),
    ensures
        final(psterms)@.wf(),
        final(psterms)@.has_booleans(),
        meets(old(psterms)@, final(psterms)@, r, pure_outcome(f, old(psterms)@, args@)),
{
    if args.len() != 2 {
        return ProcessingResult::Error;
    }
    let a = match get_int(psterms, args[0]) {
        Some(a) => a,
        None => {
            return ProcessingResult::Error;
        },
    };
    let b = match get_int(psterms, args[1]) {
        Some(b) => b,
        None => {
            return ProcessingResult::Error;
        },
    };
    match f {
        IFunction::Plus => match a.checked_add(b) {
            Some(c) => give(psterms, Term::Integer(c)),
            None => ProcessingResult::Error,
        },
        IFunction::Minus => match a.checked_sub(b) {
            Some(c) => give(psterms, Term::Integer(c)),
            None => ProcessingResult::Error,
        },
        IFunction::Multiply => match a.checked_mul(b) {
            Some(c) => give(psterms, Term::Integer(c)),
            None => ProcessingResult::Error,
        },
        IFunction::Lt => give_bool(psterms, a < b),
        IFunction::Gt => give_bool(psterms, a > b),
        IFunction::LtEq => give_bool(psterms, a <= b),
        _ => give_bool(psterms, a >= b),
    }
}

/// `++`: two strings or two lists, one after the other.
pub fn concat(args: &Vec<TermId>, psterms: &mut PSTerms) -> (r: ProcessingResult)
    requires
        old(psterms)@.wf(),
        old(psterms)@.has_booleans(),
        args_valid(old(psterms)@, args@),
    ensures
        final(psterms)@.wf(),
        final(psterms)@.has_booleans(),
        meets(old(psterms)@, final(psterms)@, r, pure_outcome(IFunction::Concat, old(psterms)@, args@)),
{
    if args.len() != 2 {
        return ProcessingResult::Error;
    }
    let s1 = get_str(psterms, args[0]);
    let s2 = get_str(psterms, args[1]);
    match (s1, s2) {
        (Some(x), Some(y)) => {
            let mut v = x;
            push_all(&mut v, &y);
            return give(psterms, Term::String(string_of(&v)));
        },
        _ => {},
    }
    let l1 = get_list(psterms, args[0]);
    let l2 = get_list(psterms, args[1]);
    match (l1, l2) {
        (Some(x), Some(y)) => {
            let ghost xv = x@;
            let mut v = x;
            let mut yy = y;
            v.append(&mut yy);
            proof {
                assert forall|k: int| 0 <= k < v@.len() implies (#[trigger] v@[k]).0 < psterms@.terms.len() by {
                    if k < xv.len() {
                        assert(v@[k] == list_of(psterms@, args@[0]).unwrap()[k]);
                        assert(crate::term::args_of(psterms@.terms[args@[0].0 as int])[k] == v@[k]);
                    } else {
                        assert(v@[k] == list_of(psterms@, args@[1]).unwrap()[k - xv.len()]);
                        assert(crate::term::args_of(psterms@.terms[args@[1].0 as int])[k - xv.len()] == v@[k]);
                    }
                }
            }
            give(psterms, Term::List(v))
        },
        _ => ProcessingResult::Error,
    }
}

/// Whether `from` occurs in `s` at place `i`.
fn occurs_at(s: &Vec<char>, i: usize, from: &Vec<char>) -> (r: bool)
    requires
        i <= s@.len(),
    ensures
        r == (from@.len() <= s@.len() - i && s@.skip(i as int).take(from@.len() as int) == from@),
{
    let n = s.len();
    if from.len() > n - i {
        return false;
    }
    let mut k: usize = 0;
    while k < from.len()
        invariant
            n == s@.len(),
            i <= s@.len(),
            from@.len() <= s@.len() - i,
            k <= from@.len(),
            forall|j: int| 0 <= j < k ==> s@[i + j] == from@[j],
        decreases from@.len() - k,
    {
        if s[i + k] != from[k] {
            proof {
                assert(s@.skip(i as int).take(from@.len() as int)[k as int] != from@[k as int]);
            }
            return false;
        }
        k = k + 1;
    }
    proof {
        assert(s@.skip(i as int).take(from@.len() as int) =~= from@);
    }
    true
}

/// The characters of `s` with each occurrence of `from` replaced by `to`,
/// as [`replaced`] defines it.
pub fn replace_chars(s: &Vec<char>, from: &Vec<char>, to: &Vec<char>) -> (r: Vec<char>)
    ensures
        r@ == replaced(s@, from@, to@),
{
    let mut out: Vec<char> = Vec::new();
    let mut i: usize = 0;
    proof {
        assert(s@.skip(0) =~= s@);
    }
    while i < s.len()
        invariant
            i <= s@.len(),
            out@ + replaced(s@.skip(i as int), from@, to@) == replaced(s@, from@, to@),
        decreases s@.len() - i,
    {
        let ghost rest = s@.skip(i as int);
        if from.len() > 0 && occurs_at(s, i, from) {
            proof {
                assert(rest.skip(from@.len() as int) =~= s@.skip(i + from@.len()));
                assert(replaced(rest, from@, to@) == to@ + replaced(rest.skip(from@.len() as int), from@, to@));
                assert(out@ + to@ + replaced(s@.skip(i + from@.len()), from@, to@) =~= out@ + (to@
                    + replaced(rest.skip(from@.len() as int), from@, to@)));
            }
            push_all(&mut out, to);
            i = i + from.len();
        } else {
            proof {
                assert(rest.drop_first() =~= s@.skip(i + 1));
                assert(rest[0] == s@[i as int]);
            }
            if from.len() == 0 {
                proof {
                    assert(out@ + to@ + seq![s@[i as int]] + replaced(s@.skip(i + 1), from@, to@) =~= out@
                        + (to@ + seq![rest[0]] + replaced(rest.drop_first(), from@, to@)));
                }
                push_all(&mut out, to);
            } else {
                proof {
                    assert(out@ + seq![s@[i as int]] + replaced(s@.skip(i + 1), from@, to@) =~= out@ + (
                    seq![rest[0]] + replaced(rest.drop_first(), from@, to@)));
                }
            }
            out.push(s[i]);
            i = i + 1;
        }
    }
    proof {
        assert(s@.skip(i as int) =~= Seq::<char>::empty());
        if from@.len() == 0 {
            assert(out@ + to@ =~= replaced(s@, from@, to@));
        } else {
            assert(out@ =~= replaced(s@, from@, to@));
        }
    }
    if from.len() == 0 {
        push_all(&mut out, to);
    }
    out
}

/// `replace(s, from, to)`: the string `s` with each occurrence of `from`
/// replaced by `to`.
pub fn replace(args: &Vec<TermId>, psterms: &mut PSTerms) -> (r: ProcessingResult)
    requires
        old(psterms)@.wf(),
        old(psterms)@.has_booleans(),
        args_valid(old(psterms)@, args@),
    ensures
        final(psterms)@.wf(),
        final(psterms)@.has_booleans(),
        meets(old(psterms)@, final(psterms)@, r, pure_outcome(IFunction::Replace, old(psterms)@, args@)),
{
    if args.len() != 3 {
        return ProcessingResult::Error;
    }
    match (get_str(psterms, args[0]), get_str(psterms, args[1]), get_str(psterms, args[2])) {
        (Some(a), Some(b), Some(c)) => {
            let v = replace_chars(&a, &b, &c);
            give(psterms, Term::String(string_of(&v)))
        },
        _ => ProcessingResult::Error,
    }
}

/// `string(t)`: the decimal form of an integer, and `"hello"` for any
/// other term.
pub fn string(args: &Vec<TermId>, psterms: &mut PSTerms) -> (r: ProcessingResult)
    requires
        old(psterms)@.wf(),
        old(psterms)@.has_booleans(),
        args_valid(old(psterms)@, args@),
    ensures
        final(psterms)@.wf(),
        final(psterms)@.has_booleans(),
        meets(old(psterms)@, final(psterms)@, r, pure_outcome(IFunction::ToString, old(psterms)@, args@)),
{
    if args.len() != 1 {
        return ProcessingResult::Error;
    }
    match get_int(psterms, args[0]) {
        Some(i) => give(psterms, Term::String(int_to_string(i))),
        None => {
            let v = vec!['h', 'e', 'l', 'l', 'o'];
            proof {
                assert(v@ =~= hello_chars());
            }
            give(psterms, Term::String(string_of(&v)))
        },
    }
}

/// `push(l, t)`: the list `l` with `t` added at its end.
pub fn push1(args: &Vec<TermId>, psterms: &mut PSTerms) -> (r: ProcessingResult)
    requires
        old(psterms)@.wf(),
        old(psterms)@.has_booleans(),
        args_valid(old(psterms)@, args@),
    ensures
        final(psterms)@.wf(),
        final(psterms)@.has_booleans(),
        meets(old(psterms)@, final(psterms)@, r, pure_outcome(IFunction::Push, old(psterms)@, args@)),
{
    if args.len() != 2 {
        return ProcessingResult::Error;
    }
    match get_list(psterms, args[0]) {
        Some(l) => {
            let ghost lv = l@;
            let mut v = l;
            v.push(args[1]);
            proof {
                assert forall|k: int| 0 <= k < v@.len() implies (#[trigger] v@[k]).0 < psterms@.terms.len() by {
                    if k < lv.len() {
                        assert(crate::term::args_of(psterms@.terms[args@[0].0 as int])[k] == v@[k]);
                    }
                }
            }
            give(psterms, Term::List(v))
        },
        None => ProcessingResult::Error,
    }
}

/// `last(l)`: the last term of a non-empty list.
pub fn last1(args: &Vec<TermId>, psterms: &PSTerms) -> (r: ProcessingResult)
    requires
        args_valid(psterms@, args@),
    ensures
        meets(psterms@, psterms@, r, pure_outcome(IFunction::Last, psterms@, args@)),
{
    if args.len() != 1 {
        return ProcessingResult::Error;
    }
    match get_list(psterms, args[0]) {
        Some(l) => if l.len() > 0 {
            ProcessingResult::Existing(l[l.len() - 1])
        } else {
            ProcessingResult::Error
        },
        None => ProcessingResult::Error,
    }
}

/// `first(l)`: the first term of a non-empty list.
pub fn first1(args: &Vec<TermId>, psterms: &PSTerms) -> (r: ProcessingResult)
    requires
        args_valid(psterms@, args@),
    ensures
        meets(psterms@, psterms@, r, pure_outcome(IFunction::First, psterms@, args@)),
{
    if args.len() != 1 {
        return ProcessingResult::Error;
    }
    match get_list(psterms, args[0]) {
        Some(l) => if l.len() > 0 {
            ProcessingResult::Existing(l[0])
        } else {
            ProcessingResult::Error
        },
        None => ProcessingResult::Error,
    }
}

/// `notempty(l)`: whether a list has a term.
pub fn notempty(args: &Vec<TermId>, psterms: &mut PSTerms) -> (r: ProcessingResult)
    requires
        old(psterms)@.wf(),
        old(psterms)@.has_booleans(),
        args_valid(old(psterms)@, args@),
    ensures
        final(psterms)@.wf(),
        final(psterms)@.has_booleans(),
        meets(old(psterms)@, final(psterms)@, r, pure_outcome(IFunction::NotEmpty, old(psterms)@, args@)),
{
    if args.len() != 1 {
        return ProcessingResult::Error;
    }
    match get_list(psterms, args[0]) {
        Some(l) => give_bool(psterms, l.len() > 0),
        None => ProcessingResult::Error,
    }
}

/// Whether `t` is one of the terms of `l`.
fn contains_tid(l: &Vec<TermId>, t: TermId) -> (r: bool)
    ensures
        r == l@.contains(t),
{
    let mut i: usize = 0;
    while i < l.len()
        invariant
            i <= l@.len(),
            forall|j: int| 0 <= j < i ==> l@[j] != t,
        decreases l@.len() - i,
    {
        if l[i] == t {
            return true;
        }
        i = i + 1;
    }
    false
}

/// `t in l`: whether `t` is one of the terms of the list `l`.
pub fn inlist(args: &Vec<TermId>, psterms: &mut PSTerms) -> (r: ProcessingResult)
    requires
        old(psterms)@.wf(),
        old(psterms)@.has_booleans(),
        args_valid(old(psterms)@, args@),
    ensures
        final(psterms)@.wf(),
        final(psterms)@.has_booleans(),
        meets(old(psterms)@, final(psterms)@, r, pure_outcome(IFunction::In, old(psterms)@, args@)),
{
    if args.len() != 2 {
        return ProcessingResult::Error;
    }
    match get_list(psterms, args[1]) {
        Some(l) => give_bool(psterms, contains_tid(&l, args[0])),
        None => ProcessingResult::Error,
    }
}

/// `t notin l`: whether `t` is none of the terms of the list `l`.
pub fn notinlist(args: &Vec<TermId>, psterms: &mut PSTerms) -> (r: ProcessingResult)
    requires
        old(psterms)@.wf(),
        old(psterms)@.has_booleans(),
        args_valid(old(psterms)@, args@),
    ensures
        final(psterms)@.wf(),
        final(psterms)@.has_booleans(),
        meets(old(psterms)@, final(psterms)@, r, pure_outcome(IFunction::NotIn, old(psterms)@, args@)),
{
    if args.len() != 2 {
        return ProcessingResult::Error;
    }
    match get_list(psterms, args[1]) {
        Some(l) => give_bool(psterms, !contains_tid(&l, args[0])),
        None => ProcessingResult::Error,
    }
}

/// `a subseteq b`: whether every term of the list `a` is in the list `b`.
pub fn subseteq(args: &Vec<TermId>, psterms: &mut PSTerms) -> (r: ProcessingResult)
    requires
        old(psterms)@.wf(),
        old(psterms)@.has_booleans(),
        args_valid(old(psterms)@, args@),
    ensures
        final(psterms)@.wf(),
        final(psterms)@.has_booleans(),
        meets(old(psterms)@, final(psterms)@, r, pure_outcome(IFunction::SubsetEq, old(psterms)@, args@)),
{
    if args.len() != 2 {
        return ProcessingResult::Error;
    }
    let b = match get_list(psterms, args[1]) {
        Some(b) => b,
        None => {
            return ProcessingResult::Error;
        },
    };
    let a = match get_list(psterms, args[0]) {
        Some(a) => a,
        None => {
            return ProcessingResult::Error;
        },
    };
    let mut all = true;
    let mut i: usize = 0;
    while i < a.len()
        invariant
            i <= a@.len(),
            all == (forall|j: int| 0 <= j < i ==> b@.contains(#[trigger] a@[j])),
        decreases a@.len() - i,
    {
        if !contains_tid(&b, a[i]) {
            all = false;
        }
        i = i + 1;
    }
    give_bool(psterms, all)
}

/// The interpreted functions that read nothing but their arguments.
pub fn apply_pure(f: IFunction, args: &Vec<TermId>, psterms: &mut PSTerms) -> (r: ProcessingResult)
    requires
        old(psterms)@.wf(),
        old(psterms)@.has_booleans(),
        args_valid(old(psterms)@, args@),
        is_pure(f),
    ensures
        final(psterms)@.wf(),
        final(psterms)@.has_booleans(),
        meets(old(psterms)@, final(psterms)@, r, pure_outcome(f, old(psterms)@, args@)),
{
    match f {
        IFunction::Eq => eq(args, psterms),
        IFunction::NotEq => noteq(args, psterms),
        IFunction::Plus | IFunction::Minus | IFunction::Multiply | IFunction::Lt | IFunction::Gt
        | IFunction::LtEq | IFunction::GtEq => int_binary_fn(f, args, psterms),
        IFunction::Concat => concat(args, psterms),
        IFunction::Replace => replace(args, psterms),
        IFunction::ToString => string(args, psterms),
        IFunction::Push => push1(args, psterms),
        IFunction::Last => last1(args, psterms),
        IFunction::First => first1(args, psterms),
        IFunction::NotEmpty => notempty(args, psterms),
        IFunction::In => inlist(args, psterms),
        IFunction::NotIn => notinlist(args, psterms),
        _ => subseteq(args, psterms),
    }
}


/// The identifier a successful result carries.
pub open spec fn tid_of(r: ProcessingResult) -> TermId {
    match r {
        ProcessingResult::New(t) => t,
        ProcessingResult::Existing(t) => t,
        ProcessingResult::Error => TermId(0),
    }
}

/// The tables `new` are `old` with terms added at the end, each of them
/// found again by its value, and nothing else changed.
pub open spec fn grows(old: PSTermsV, new: PSTermsV) -> bool {
    &&& new.extends(old)
    &&& new.symbols == old.symbols
    &&& forall|j: int| 0 <= j < old.terms.len() ==> #[trigger] new.indexed[j] == old.indexed[j]
    &&& forall|j: int| old.terms.len() <= j < new.terms.len() ==> #[trigger] new.indexed[j]
}

pub proof fn lemma_grows_refl(p: PSTermsV)
    requires
        p.wf(),
    ensures
        grows(p, p),
{
    assert(p.terms.subrange(0, p.terms.len() as int) =~= p.terms);
    assert(p.symbols.subrange(0, p.symbols.len() as int) =~= p.symbols);
}

pub proof fn lemma_grows_trans(p: PSTermsV, q: PSTermsV, r: PSTermsV)
    requires
        p.wf(),
        q.wf(),
        r.wf(),
        grows(p, q),
        grows(q, r),
    ensures
        grows(p, r),
{
    crate::term::PSTerms::lemma_extends_trans(p, q, r);
    assert forall|j: int| 0 <= j < p.terms.len() implies #[trigger] r.indexed[j] == p.indexed[j] by {
        assert(r.indexed[j] == q.indexed[j]);
    }
    assert forall|j: int| p.terms.len() <= j < r.terms.len() implies #[trigger] r.indexed[j] by {
        if j < q.terms.len() {
            assert(r.indexed[j] == q.indexed[j]);
        }
    }
}

/// What a value is found again under is a term with that value.
pub proof fn lemma_lookup_some(p: PSTermsV, v: TermV)
    requires
        p.wf(),
        p.lookup(v) is Some,
        p.terms.len() <= usize::MAX,
    ensures
        p.lookup(v).unwrap().0 < p.terms.len(),
        p.terms[p.lookup(v).unwrap().0 as int] == v,
        p.indexed[p.lookup(v).unwrap().0 as int],
{
    assert(p.is_indexed(v));
    let i = choose|i: int| 0 <= i < p.terms.len() && p.indexed[i] && p.terms[i] == v;
    crate::term::lemma_lookup_unique(p, v, i);
    assert((i as usize) as int == i);
}

pub proof fn lemma_interns_grows(old: PSTermsV, new: PSTermsV, r: ProcessingResult, v: TermV)
    requires
        old.wf(),
        new.wf(),
        new.terms.len() <= usize::MAX,
        interns(old, new, r, v),
    ensures
        grows(old, new),
        tid_of(r).0 < new.terms.len(),
        new.terms[tid_of(r).0 as int] == v,
        !(r is Error),
{
    lemma_grows_refl(old);
    match r {
        ProcessingResult::Existing(t) => {
            lemma_lookup_some(old, v);
        },
        ProcessingResult::New(t) => {
            assert(new.terms.subrange(0, old.terms.len() as int) =~= old.terms);
            assert(new.symbols.subrange(0, old.symbols.len() as int) =~= old.symbols);
        },
        ProcessingResult::Error => {},
    }
}

/// The order of integers.
pub open spec fn int_leq() -> spec_fn(i64, i64) -> bool {
    |a: i64, b: i64| a <= b
}

/// Every term of `l` is an integer.
pub open spec fn all_ints(p: PSTermsV, l: Seq<TermId>) -> bool {
    forall|k: int| 0 <= k < l.len() ==> (#[trigger] l[k]).0 < p.terms.len() && int_of(p, l[k]) is Some
}

/// The integers held by the terms of `l`.
pub open spec fn ints(p: PSTermsV, l: Seq<TermId>) -> Seq<i64> {
    l.map_values(|t: TermId| int_of(p, t).unwrap())
}

/// The integers of `v` in ascending order.
pub fn sort_ints(v: &Vec<i64>) -> (r: Vec<i64>)
    ensures
        sorted_by(r@, int_leq()),
        r@.to_multiset() == v@.to_multiset(),
{
    let mut out: Vec<i64> = Vec::new();
    let mut i: usize = 0;
    while i < v.len()
        invariant
            i <= v@.len(),
            sorted_by(out@, int_leq()),
            out@.to_multiset() == v@.take(i as int).to_multiset(),
        decreases v@.len() - i,
    {
        let x = v[i];
        let mut p: usize = 0;
        while p < out.len() && out[p] <= x
            invariant
                p <= out@.len(),
                forall|j: int| 0 <= j < p ==> out@[j] <= x,
            decreases out@.len() - p,
        {
            p = p + 1;
        }
        let ghost before = out@;
        out.insert(p, x);
        proof {
            assert(out@ == before.insert(p as int, x));
            assert forall|a: int, b: int| 0 <= a < b < out@.len() implies #[trigger] (int_leq())(
                out@[a],
                out@[b],
            ) by {
                if b < p {
                } else if b == p {
                    assert(before[a] <= x);
                } else if a < p {
                    assert((int_leq())(before[a], before[b - 1]));
                } else if a == p {
                    assert(!(before[p as int] <= x));
                    if b - 1 > p {
                        assert((int_leq())(before[p as int], before[b - 1]));
                    }
                } else {
                    assert((int_leq())(before[a - 1], before[b - 1]));
                }
            }
            assert(v@.take(i + 1) =~= v@.take(i as int).push(x));
        }
        i = i + 1;
    }
    proof {
        assert(v@.take(i as int) =~= v@);
    }
    out
}

/// `sort(l)`: the list of the integers of `l` in ascending order.
#[verifier::rlimit(40)]
pub fn sortlist(args: &Vec<TermId>, psterms: &mut PSTerms) -> (r: ProcessingResult)
    requires
        old(psterms)@.wf(),
        old(psterms)@.has_booleans(),
        args_valid(old(psterms)@, args@),
    ensures
        final(psterms)@.wf(),
        final(psterms)@.has_booleans(),
        (r is Error) == !(args@.len() == 1 && list_of(old(psterms)@, args@[0]) is Some && all_ints(
            old(psterms)@,
            list_of(old(psterms)@, args@[0]).unwrap(),
        )),
        r is Error ==> final(psterms)@ == old(psterms)@,
        !(r is Error) ==> {
            let l = list_of(old(psterms)@, args@[0]).unwrap();
            let t = tid_of(r);
            &&& grows(old(psterms)@, final(psterms)@)
            &&& t.0 < final(psterms)@.terms.len()
            &&& final(psterms)@.terms[t.0 as int] is List
            &&& list_of(final(psterms)@, t).unwrap().len() == l.len()
            &&& all_ints(final(psterms)@, list_of(final(psterms)@, t).unwrap())
            &&& sorted_by(ints(final(psterms)@, list_of(final(psterms)@, t).unwrap()), int_leq())
            &&& ints(final(psterms)@, list_of(final(psterms)@, t).unwrap()).to_multiset() == ints(
                old(psterms)@,
                l,
            ).to_multiset()
        },
{
    if args.len() != 1 {
        return ProcessingResult::Error;
    }
    let l = match get_list(psterms, args[0]) {
        Some(l) => l,
        None => {
            return ProcessingResult::Error;
        },
    };
    let ghost p0 = psterms@;
    proof {
        assert forall|k: int| 0 <= k < l@.len() implies (#[trigger] l@[k]).0 < p0.terms.len() by {
            assert(crate::term::args_of(p0.terms[args@[0].0 as int])[k] == l@[k]);
        }
    }
    let mut vals: Vec<i64> = Vec::new();
    let mut i: usize = 0;
    while i < l.len()
        invariant
            psterms@ == p0,
            p0 == old(psterms)@,
            args@.len() == 1,
            list_of(p0, args@[0]) == Some(l@),
            p0.wf(),
            p0.has_booleans(),
            i <= l@.len(),
            forall|k: int| 0 <= k < l@.len() ==> (#[trigger] l@[k]).0 < p0.terms.len(),
            forall|k: int| 0 <= k < i ==> int_of(p0, #[trigger] l@[k]) is Some,
            vals@ == ints(p0, l@.take(i as int)),
        decreases l@.len() - i,
    {
        match get_int(psterms, l[i]) {
            Some(x) => {
                vals.push(x);
                proof {
                    assert(vals@ =~= ints(p0, l@.take(i + 1)));
                }
            },
            None => {
                return ProcessingResult::Error;
            },
        }
        i = i + 1;
    }
    proof {
        assert(l@.take(i as int) =~= l@);
    }
    let sorted = sort_ints(&vals);
    let mut ts: Vec<TermId> = Vec::new();
    let mut j: usize = 0;
    proof {
        lemma_grows_refl(p0);
    }
    while j < sorted.len()
        invariant
            p0.wf(),
            psterms@.wf(),
            psterms@.has_booleans(),
            grows(p0, psterms@),
            j <= sorted@.len(),
            ts@.len() == j,
            forall|k: int|
                0 <= k < j ==> (#[trigger] ts@[k]).0 < psterms@.terms.len() && psterms@.terms[ts@[k].0 as int]
                    == TermV::Integer(sorted@[k]),
        decreases sorted@.len() - j,
    {
        let ghost pb = psterms@;
        let g = give(psterms, Term::Integer(sorted[j]));
        proof {
            lemma_interns_grows(pb, psterms@, g, TermV::Integer(sorted@[j as int]));
            lemma_grows_trans(p0, pb, psterms@);
            assert forall|k: int| 0 <= k < j implies psterms@.terms[(#[trigger] ts@[k]).0 as int]
                == TermV::Integer(sorted@[k]) by {
                assert(psterms@.terms.subrange(0, pb.terms.len() as int)[ts@[k].0 as int] == pb.terms[ts@[k].0 as int]);
            }
        }
        ts.push(g.unwrap());
        j = j + 1;
    }
    let ghost p1 = psterms@;
    let ghost tsv = ts@;
    proof {
        assert(ints(p1, tsv) =~= sorted@);
        assert(ints(p0, l@) == vals@);
        vstd::seq_lib::to_multiset_len(sorted@);
        vstd::seq_lib::to_multiset_len(vals@);
        assert(tsv.len() == l@.len());
    }
    let g = give(psterms, Term::List(ts));
    proof {
        lemma_interns_grows(p1, psterms@, g, TermV::List(tsv));
        lemma_grows_trans(p0, p1, psterms@);
        assert forall|k: int| 0 <= k < tsv.len() implies psterms@.terms[(#[trigger] tsv[k]).0 as int]
            == p1.terms[tsv[k].0 as int] by {
            assert(psterms@.terms.subrange(0, p1.terms.len() as int)[tsv[k].0 as int] == p1.terms[tsv[k].0 as int]);
        }
        assert(ints(psterms@, tsv) =~= ints(p1, tsv));
        assert(grows(old(psterms)@, psterms@));
        assert(tid_of(g).0 < psterms@.terms.len());
        assert(list_of(psterms@, tid_of(g)) == Some(tsv));
        assert(tsv.len() == l@.len());
        assert(all_ints(psterms@, tsv));
        assert(sorted_by(ints(psterms@, tsv), int_leq()));
        assert(ints(psterms@, tsv).to_multiset() == ints(old(psterms)@, l@).to_multiset());
    }
    g
}

/// The name of the attribute marking a fact as removed.
pub open spec fn deleted_chars() -> Seq<char> {
    seq!['d', 'e', 'l', 'e', 't', 'e', 'd']
}

/// The value marking a fact as removed.
pub open spec fn true_word() -> Seq<char> {
    seq!['t', 'r', 'u', 'e']
}

pub fn deleted_name() -> (a: AttributeName)
    ensures
        a.0@ == deleted_chars(),
{
    let v = vec!['d', 'e', 'l', 'e', 't', 'e', 'd'];
    proof {
        assert(v@ =~= deleted_chars());
    }
    AttributeName(string_of(&v))
}

pub fn true_value() -> (a: AttributeValue)
    ensures
        a.0@ == true_word(),
{
    let v = vec!['t', 'r', 'u', 'e'];
    proof {
        assert(v@ =~= true_word());
    }
    AttributeValue(string_of(&v))
}

/// Whether the fact at place `i` of the base has been removed.
pub open spec fn is_deleted(attrs: Seq<Setting>, i: int) -> bool {
    holds(attrs, KeyObject::BaseIndex(i as usize), deleted_chars(), true_word())
}

/// The terms of the first `n` entries of the base that are not removed.
pub open spec fn live_terms(entries: Seq<BTerm>, attrs: Seq<Setting>, n: int) -> Seq<TermId>
    decreases n,
{
    if n <= 0 {
        Seq::empty()
    } else if is_deleted(attrs, n - 1) {
        live_terms(entries, attrs, n - 1)
    } else {
        live_terms(entries, attrs, n - 1).push(entries[n - 1].term)
    }
}

/// The text of the base: its facts that are not removed, shown plainly and
/// separated by commas.
pub open spec fn base_chars(p: PSTermsV, entries: Seq<BTerm>, attrs: Seq<Setting>) -> Seq<char> {
    tids_chars(p, live_terms(entries, attrs, entries.len() as int), None, DisplayMode::Plain, seq![','], RENDER_DEPTH as nat)
}

/// `blen()`: the number of facts in the base.
pub fn blen(args: &Vec<TermId>, psterms: &mut PSTerms, base: &Base) -> (r: ProcessingResult)
    requires
        old(psterms)@.wf(),
        old(psterms)@.has_booleans(),
    ensures
        final(psterms)@.wf(),
        final(psterms)@.has_booleans(),
        meets(
            old(psterms)@,
            final(psterms)@,
            r,
            if args@.len() == 0 && base.entries().len() <= i64::MAX {
                Outcome::Value(TermV::Integer(base.entries().len() as i64))
            } else {
                Outcome::Fail
            },
        ),
{
    if args.len() != 0 {
        return ProcessingResult::Error;
    }
    let n = base.len() as u64;
    if n > 9223372036854775807 {
        return ProcessingResult::Error;
    }
    give(psterms, Term::Integer(n as i64))
}

/// `base_to_string()`: the text of the base (see [`base_chars`]).
pub fn base_to_string(args: &Vec<TermId>, psterms: &mut PSTerms, base: &Base, attributes: &Attributes) -> (r:
    ProcessingResult)
    requires
        old(psterms)@.wf(),
        old(psterms)@.has_booleans(),
    ensures
        final(psterms)@.wf(),
        final(psterms)@.has_booleans(),
        meets(
            old(psterms)@,
            final(psterms)@,
            r,
            if args@.len() == 0 {
                Outcome::Value(TermV::String(base_chars(old(psterms)@, base.entries(), attributes@)))
            } else {
                Outcome::Fail
            },
        ),
{
    if args.len() != 0 {
        return ProcessingResult::Error;
    }
    let mut live: Vec<TermId> = Vec::new();
    let mut i: usize = 0;
    while i < base.len()
        invariant
            i <= base.entries().len(),
            live@ == live_terms(base.entries(), attributes@, i as int),
        decreases base.entries().len() - i,
    {
        let gone = attributes.check(KeyObject::BaseIndex(i), deleted_name(), true_value());
        if !gone {
            live.push(base.get(i).term);
        }
        i = i + 1;
    }
    let d = vec![','];
    let mut out: Vec<char> = Vec::new();
    push_tids(&mut out, psterms, &live, None, DisplayMode::Plain, &d, RENDER_DEPTH);
    proof {
        assert(d@ =~= seq![',']);
        assert(out@ =~= base_chars(psterms@, base.entries(), attributes@));
    }
    give(psterms, Term::String(string_of(&out)))
}

/// Whether `remove_fact(i)` applies: `i` is the place of a matching step of
/// the answer.
pub open spec fn remove_ok(p: PSTermsV, args: Seq<TermId>, a: AnswerV) -> bool {
    &&& args.len() == 1
    &&& int_of(p, args[0]) is Some
    &&& 0 <= int_of(p, args[0]).unwrap() < a.log.len()
    &&& a.log[int_of(p, args[0]).unwrap() as int] is Matching
}

/// The fact that the step of `remove_fact(i)` matched.
pub open spec fn removed_fact(p: PSTermsV, args: Seq<TermId>, a: AnswerV) -> usize {
    match a.log[int_of(p, args[0]).unwrap() as int] {
        LogItemV::Matching { batom_i, .. } => batom_i,
        _ => 0,
    }
}

/// `remove_fact(i)`: marks as removed, on behalf of block `bid`, the fact
/// matched at step `i` of the answer; gives `true`.
pub fn remove_fact(args: &Vec<TermId>, psterms: &mut PSTerms, answer: &Answer, attributes: &mut Attributes, bid: crate::misc::BlockId) -> (r: ProcessingResult)
    requires
        old(psterms)@.wf(),
        old(psterms)@.has_booleans(),
        args_valid(old(psterms)@, args@),
    ensures
        final(psterms)@.wf(),
        final(psterms)@.has_booleans(),
        final(psterms)@ == old(psterms)@,
        (r is Error) == !remove_ok(old(psterms)@, args@, answer@),
        !(r is Error) ==> r == ProcessingResult::Existing(TermId(1)) && final(attributes)@ == old(attributes)@.push(
            Setting {
                obj: KeyObject::BaseIndex(removed_fact(old(psterms)@, args@, answer@)),
                attr: deleted_chars(),
                value: true_word(),
                bid: bid,
            },
        ),
        r is Error ==> final(attributes)@ == old(attributes)@,
{
    if args.len() != 1 {
        return ProcessingResult::Error;
    }
    let i = match get_int(psterms, args[0]) {
        Some(i) => i,
        None => {
            return ProcessingResult::Error;
        },
    };
    if i < 0 || i as u64 >= answer.log.len() as u64 {
        return ProcessingResult::Error;
    }
    let k = i as usize;
    match &answer.log[k] {
        LogItem::Matching { batom_i, .. } => {
            attributes.set_attribute(KeyObject::BaseIndex(*batom_i), deleted_name(), true_value(), bid);
            give_bool(psterms, true)
        },
        LogItem::Interpretation { .. } => ProcessingResult::Error,
    }
}

/// What `read_file_to_string` gives once the file was read: its contents
/// as a string, and nothing when it could not be read.
pub fn read_file_result(content: Option<String>, psterms: &mut PSTerms) -> (r: ProcessingResult)
    requires
        old(psterms)@.wf(),
        old(psterms)@.has_booleans(),
    ensures
        final(psterms)@.wf(),
        final(psterms)@.has_booleans(),
        meets(
            old(psterms)@,
            final(psterms)@,
            r,
            match content {
                Some(c) => Outcome::Value(TermV::String(c@)),
                None => Outcome::Fail,
            },
        ),
{
    match content {
        Some(c) => give(psterms, Term::String(c)),
        None => ProcessingResult::Error,
    }
}

/// `read_file_to_string(path)`: the contents of the file the host reads
/// at `path`.
pub fn read_file_to_string<H: Host>(args: &Vec<TermId>, psterms: &mut PSTerms, host: &mut H) -> (r:
    ProcessingResult)
    requires
        old(psterms)@.wf(),
        old(psterms)@.has_booleans(),
        args_valid(old(psterms)@, args@),
    ensures
        final(psterms)@.wf(),
        final(psterms)@.has_booleans(),
        !(args@.len() == 1 && str_of(old(psterms)@, args@[0]) is Some) ==> r is Error && final(psterms)@ == old(
            psterms,
        )@,
        r is Error ==> final(psterms)@ == old(psterms)@,
        !(r is Error) ==> exists|c: Seq<char>| interns(old(psterms)@, final(psterms)@, r, TermV::String(c)),
{
    if args.len() != 1 {
        return ProcessingResult::Error;
    }
    match get_str(psterms, args[0]) {
        Some(path) => {
            let content = host.read_file(&string_of(&path));
            read_file_result(content, psterms)
        },
        None => ProcessingResult::Error,
    }
}

/// Evaluates the interpreted function `f` on the terms `args`.
pub fn apply_ifunction<H: Host>(
    f: IFunction,
    args: &Vec<TermId>,
    env: &mut PEnv,
    answer: &Answer,
    host: &mut H,
    depth: usize,
) -> (r: ProcessingResult)
    requires
        env_ok(old(env)),
        args_valid(old(env).psterms@, args@),
    ensures
        env_ok(final(env)),
        grows(old(env).psterms@, final(env).psterms@),
        final(env).base == old(env).base,
        final(env).bid == old(env).bid,
        !(r is Error) ==> tid_of(r).0 < final(env).psterms@.terms.len(),
        is_pure(f) ==> meets(old(env).psterms@, final(env).psterms@, r, pure_outcome(f, old(env).psterms@, args@)),
        !(f is RemoveFact) ==> final(env).attributes@ == old(env).attributes@,
        f is Blen ==> meets(
            old(env).psterms@,
            final(env).psterms@,
            r,
            if args@.len() == 0 && old(env).base.entries().len() <= i64::MAX {
                Outcome::Value(TermV::Integer(old(env).base.entries().len() as i64))
            } else {
                Outcome::Fail
            },
        ),
        f is BaseToString ==> meets(
            old(env).psterms@,
            final(env).psterms@,
            r,
            if args@.len() == 0 {
                Outcome::Value(TermV::String(base_chars(old(env).psterms@, old(env).base.entries(), old(env).attributes@)))
            } else {
                Outcome::Fail
            },
        ),
        f is RemoveFact ==> {
            &&& final(env).psterms@ == old(env).psterms@
            &&& (r is Error) == !remove_ok(old(env).psterms@, args@, answer@)
            &&& !(r is Error) ==> r == ProcessingResult::Existing(TermId(1)) && final(env).attributes@ == old(
                env,
            ).attributes@.push(
                Setting {
                    obj: KeyObject::BaseIndex(removed_fact(old(env).psterms@, args@, answer@)),
                    attr: deleted_chars(),
                    value: true_word(),
                    bid: old(env).bid,
                },
            )
            &&& r is Error ==> final(env).attributes@ == old(env).attributes@
        },
        f is ReadFileToString ==> !(r is Error) ==> final(env).psterms@.terms[tid_of(r).0 as int] is String,
        f is ReadFileToString ==> !(args@.len() == 1 && str_of(old(env).psterms@, args@[0]) is Some) ==> r is Error,
        f is Solve ==> !(r is Error) ==> final(env).psterms@.terms[tid_of(r).0 as int] is Bool,
        f is Solve ==> !(depth > 0 && args@.len() == 2 && str_of(old(env).psterms@, args@[0]) is Some && int_of(
            old(env).psterms@,
            args@[1],
        ) is Some && int_of(old(env).psterms@, args@[1]).unwrap() >= 0) ==> r is Error,
        f is Solve && depth > 0 && args@.len() == 2 && str_of(old(env).psterms@, args@[0]) is Some && int_of(
            old(env).psterms@,
            args@[1],
        ) is Some && 0 <= int_of(old(env).psterms@, args@[1]).unwrap() <= usize::MAX ==> {
            let text = str_of(old(env).psterms@, args@[0]).unwrap();
            let limit = int_of(old(env).psterms@, args@[1]).unwrap();
            &&& !text_accepted(text) ==> r is Error
            &&& text_accepted(text) && limit == 0 ==> r == ProcessingResult::Existing(TermId(0))
        },
        f is Sort ==> !(r is Error) ==> final(env).psterms@.terms[tid_of(r).0 as int] is List,
        f is Sort ==> (r is Error) == !(args@.len() == 1 && list_of(old(env).psterms@, args@[0]) is Some && all_ints(
            old(env).psterms@,
            list_of(old(env).psterms@, args@[0]).unwrap(),
        )),
        f is Sort && !(r is Error) ==> {
            let l = list_of(old(env).psterms@, args@[0]).unwrap();
            let sorted = list_of(final(env).psterms@, tid_of(r)).unwrap();
            &&& sorted.len() == l.len()
            &&& all_ints(final(env).psterms@, sorted)
            &&& sorted_by(ints(final(env).psterms@, sorted), int_leq())
            &&& ints(final(env).psterms@, sorted).to_multiset() == ints(old(env).psterms@, l).to_multiset()
        },
    decreases depth, 1nat, 0nat, 0nat,
{
    let ghost p0 = env.psterms@;
    proof {
        lemma_grows_refl(p0);
    }
    let r = match f {
        IFunction::Blen => blen(args, &mut env.psterms, &env.base),
        IFunction::BaseToString => base_to_string(args, &mut env.psterms, &env.base, &env.attributes),
        IFunction::RemoveFact => remove_fact(args, &mut env.psterms, answer, &mut env.attributes, env.bid),
        IFunction::ReadFileToString => read_file_to_string(args, &mut env.psterms, host),
        IFunction::Solve => crate::solver::solve(args, &mut env.psterms, host, depth),
        IFunction::Sort => sortlist(args, &mut env.psterms),
        _ => apply_pure(f, args, &mut env.psterms),
    };
    let _n = env.psterms.len();
    proof {
        if f is ReadFileToString {
            if !(r is Error) {
                let c = choose|c: Seq<char>| interns(p0, env.psterms@, r, TermV::String(c));
                lemma_interns_grows(p0, env.psterms@, r, TermV::String(c));
            }
        } else if f is Blen {
            if !(r is Error) {
                lemma_interns_grows(p0, env.psterms@, r, TermV::Integer(env.base.entries().len() as i64));
            }
        } else if f is BaseToString {
            if !(r is Error) {
                lemma_interns_grows(p0, env.psterms@, r, TermV::String(base_chars(p0, env.base.entries(), env.attributes@)));
            }
        } else if is_pure(f) {
            match pure_outcome(f, p0, args@) {
                Outcome::Value(v) => {
                    lemma_interns_grows(p0, env.psterms@, r, v);
                },
                Outcome::Arg(t) => {
                    assert(list_of(p0, args@[0]) is Some);
                    let l = list_of(p0, args@[0]).unwrap();
                    assert(crate::term::args_of(p0.terms[args@[0].0 as int]) == l);
                    if f is Last {
                        assert(l[l.len() - 1] == t);
                    } else {
                        assert(l[0] == t);
                    }
                },
                Outcome::Fail => {},
            }
        }
    }
    r
}

/// The name an interpreted function is written with.
pub open spec fn ifunction_name(f: IFunction) -> Seq<char> {
    match f {
        IFunction::NotEq => seq!['!', '='],
        IFunction::Eq => seq!['=', '='],
        IFunction::Plus => seq!['+'],
        IFunction::Minus => seq!['-'],
        IFunction::Multiply => seq!['*'],
        IFunction::Lt => seq!['<'],
        IFunction::Gt => seq!['>'],
        IFunction::LtEq => seq!['<', '='],
        IFunction::GtEq => seq!['>', '='],
        IFunction::Concat => seq!['+', '+'],
        IFunction::Replace => seq!['r', 'e', 'p', 'l', 'a', 'c', 'e'],
        IFunction::Blen => seq!['b', 'l', 'e', 'n'],
        IFunction::BaseToString => seq!['b', 'a', 's', 'e', '_', 't', 'o', '_', 's', 't', 'r', 'i', 'n', 'g'],
        IFunction::RemoveFact => seq!['r', 'e', 'm', 'o', 'v', 'e', '_', 'f', 'a', 'c', 't'],
        IFunction::ReadFileToString => seq!['r', 'e', 'a', 'd', '_', 'f', 'i', 'l', 'e', '_', 't', 'o', '_', 's', 't', 'r', 'i', 'n', 'g'],
        IFunction::Solve => seq!['s', 'o', 'l', 'v', 'e'],
        IFunction::ToString => seq!['s', 't', 'r', 'i', 'n', 'g'],
        IFunction::Push => seq!['p', 'u', 's', 'h'],
        IFunction::Last => seq!['l', 'a', 's', 't'],
        IFunction::First => seq!['f', 'i', 'r', 's', 't'],
        IFunction::NotEmpty => seq!['n', 'o', 't', 'e', 'm', 'p', 't', 'y'],
        IFunction::In => seq!['i', 'n'],
        IFunction::NotIn => seq!['n', 'o', 't', 'i', 'n'],
        IFunction::SubsetEq => seq!['s', 'u', 'b', 's', 'e', 't', 'e', 'q'],
        IFunction::Sort => seq!['s', 'o', 'r', 't'],
    }
}

/// How an interpreted function is written.
pub open spec fn ifunction_position(f: IFunction) -> Position {
    match f {
        IFunction::NotEq => Position::Infix,
        IFunction::Eq => Position::Infix,
        IFunction::Plus => Position::Infix,
        IFunction::Minus => Position::Infix,
        IFunction::Multiply => Position::Infix,
        IFunction::Lt => Position::Infix,
        IFunction::Gt => Position::Infix,
        IFunction::LtEq => Position::Infix,
        IFunction::GtEq => Position::Infix,
        IFunction::Concat => Position::Infix,
        IFunction::Replace => Position::Classic,
        IFunction::Blen => Position::Classic,
        IFunction::BaseToString => Position::Classic,
        IFunction::RemoveFact => Position::Classic,
        IFunction::ReadFileToString => Position::Classic,
        IFunction::Solve => Position::Classic,
        IFunction::ToString => Position::Classic,
        IFunction::Push => Position::Classic,
        IFunction::Last => Position::Classic,
        IFunction::First => Position::Classic,
        IFunction::NotEmpty => Position::Classic,
        IFunction::In => Position::Infix,
        IFunction::NotIn => Position::Infix,
        IFunction::SubsetEq => Position::Infix,
        IFunction::Sort => Position::Infix,
    }
}

/// The interpreted functions, in the order their symbols are registered.
pub open spec fn ifunction_order() -> Seq<IFunction> {
    seq![IFunction::NotEq, IFunction::Eq, IFunction::Plus, IFunction::Minus, IFunction::Multiply, IFunction::Lt, IFunction::Gt, IFunction::LtEq, IFunction::GtEq, IFunction::Concat, IFunction::Replace, IFunction::Blen, IFunction::BaseToString, IFunction::RemoveFact, IFunction::ReadFileToString, IFunction::Solve, IFunction::ToString, IFunction::Push, IFunction::Last, IFunction::First, IFunction::NotEmpty, IFunction::In, IFunction::NotIn, IFunction::SubsetEq, IFunction::Sort]
}

/// The symbol registered for interpreted function `f` as symbol `i`.
pub open spec fn ifunction_symbol(f: IFunction, i: usize) -> SymbolV {
    SymbolV { uid: i, name: ifunction_name(f), f: Some(f), position: ifunction_position(f) }
}

fn ifunction_name_string(f: IFunction) -> (s: String)
    ensures
        s@ == ifunction_name(f),
{
    let v: Vec<char> = match f {
        IFunction::NotEq => vec!['!', '='],
        IFunction::Eq => vec!['=', '='],
        IFunction::Plus => vec!['+'],
        IFunction::Minus => vec!['-'],
        IFunction::Multiply => vec!['*'],
        IFunction::Lt => vec!['<'],
        IFunction::Gt => vec!['>'],
        IFunction::LtEq => vec!['<', '='],
        IFunction::GtEq => vec!['>', '='],
        IFunction::Concat => vec!['+', '+'],
        IFunction::Replace => vec!['r', 'e', 'p', 'l', 'a', 'c', 'e'],
        IFunction::Blen => vec!['b', 'l', 'e', 'n'],
        IFunction::BaseToString => vec!['b', 'a', 's', 'e', '_', 't', 'o', '_', 's', 't', 'r', 'i', 'n', 'g'],
        IFunction::RemoveFact => vec!['r', 'e', 'm', 'o', 'v', 'e', '_', 'f', 'a', 'c', 't'],
        IFunction::ReadFileToString => vec!['r', 'e', 'a', 'd', '_', 'f', 'i', 'l', 'e', '_', 't', 'o', '_', 's', 't', 'r', 'i', 'n', 'g'],
        IFunction::Solve => vec!['s', 'o', 'l', 'v', 'e'],
        IFunction::ToString => vec!['s', 't', 'r', 'i', 'n', 'g'],
        IFunction::Push => vec!['p', 'u', 's', 'h'],
        IFunction::Last => vec!['l', 'a', 's', 't'],
        IFunction::First => vec!['f', 'i', 'r', 's', 't'],
        IFunction::NotEmpty => vec!['n', 'o', 't', 'e', 'm', 'p', 't', 'y'],
        IFunction::In => vec!['i', 'n'],
        IFunction::NotIn => vec!['n', 'o', 't', 'i', 'n'],
        IFunction::SubsetEq => vec!['s', 'u', 'b', 's', 'e', 't', 'e', 'q'],
        IFunction::Sort => vec!['s', 'o', 'r', 't'],
    };
    proof {
        assert(v@ =~= ifunction_name(f));
    }
    string_of(&v)
}

fn ifunction_position_of(f: IFunction) -> (p: Position)
    ensures
        p == ifunction_position(f),
{
    match f {
        IFunction::NotEq => Position::Infix,
        IFunction::Eq => Position::Infix,
        IFunction::Plus => Position::Infix,
        IFunction::Minus => Position::Infix,
        IFunction::Multiply => Position::Infix,
        IFunction::Lt => Position::Infix,
        IFunction::Gt => Position::Infix,
        IFunction::LtEq => Position::Infix,
        IFunction::GtEq => Position::Infix,
        IFunction::Concat => Position::Infix,
        IFunction::Replace => Position::Classic,
        IFunction::Blen => Position::Classic,
        IFunction::BaseToString => Position::Classic,
        IFunction::RemoveFact => Position::Classic,
        IFunction::ReadFileToString => Position::Classic,
        IFunction::Solve => Position::Classic,
        IFunction::ToString => Position::Classic,
        IFunction::Push => Position::Classic,
        IFunction::Last => Position::Classic,
        IFunction::First => Position::Classic,
        IFunction::NotEmpty => Position::Classic,
        IFunction::In => Position::Infix,
        IFunction::NotIn => Position::Infix,
        IFunction::SubsetEq => Position::Infix,
        IFunction::Sort => Position::Infix,
    }
}

/// The tables holding the two booleans and a symbol for each interpreted
/// function, in the order of [`ifunction_order`], with the map from their
/// names to their symbols.
pub fn init() -> (r: (PSTerms, NameMap))
    ensures
        r.0@.wf(),
        r.0@.has_booleans(),
        r.0@.terms.len() == 2,
        r.0@.symbols.len() == ifunction_order().len(),
        forall|i: int| 0 <= i < ifunction_order().len() ==> #[trigger] r.0@.symbols[i] == ifunction_symbol(ifunction_order()[i], i as usize),
        forall|i: int| 0 <= i < ifunction_order().len() ==> #[trigger] r.1@.contains_key(ifunction_name(ifunction_order()[i])),
        forall|k: Seq<char>| #[trigger] r.1@.contains_key(k) ==> r.1@[k] < r.0@.symbols.len() && r.0@.symbols[r.1@[k] as int].name == k,
{
    let order: Vec<IFunction> = vec![IFunction::NotEq, IFunction::Eq, IFunction::Plus, IFunction::Minus, IFunction::Multiply, IFunction::Lt, IFunction::Gt, IFunction::LtEq, IFunction::GtEq, IFunction::Concat, IFunction::Replace, IFunction::Blen, IFunction::BaseToString, IFunction::RemoveFact, IFunction::ReadFileToString, IFunction::Solve, IFunction::ToString, IFunction::Push, IFunction::Last, IFunction::First, IFunction::NotEmpty, IFunction::In, IFunction::NotIn, IFunction::SubsetEq, IFunction::Sort];
    proof {
        assert(order@ =~= ifunction_order());
    }
    let mut psterms = PSTerms::new();
    let mut fmap = NameMap::new();
    let mut i: usize = 0;
    while i < order.len()
        invariant
            order@ == ifunction_order(),
            i <= order@.len(),
            psterms@.wf(),
            psterms@.has_booleans(),
            psterms@.terms.len() == 2,
            psterms@.symbols.len() == i,
            forall|j: int| 0 <= j < i ==> #[trigger] psterms@.symbols[j] == ifunction_symbol(order@[j], j as usize),
            forall|j: int| 0 <= j < i ==> #[trigger] fmap@.contains_key(ifunction_name(order@[j])),
            forall|k: Seq<char>| #[trigger] fmap@.contains_key(k) ==> fmap@[k] < psterms@.symbols.len() && psterms@.symbols[fmap@[k] as int].name == k,
        decreases order@.len() - i,
    {
        let f = order[i];
        let sid = psterms.add_ifunction(ifunction_name_string(f), Some(f), ifunction_position_of(f));
        fmap.insert(ifunction_name_string(f), sid.0);
        proof {
            assert(psterms@.symbols[i as int] == ifunction_symbol(order@[i as int], i));
        }
        i = i + 1;
    }
    (psterms, fmap)
}

/// Interning is read back: once a value has been interned, it is found
/// again under the identifier interning gave, so interning it a second
/// time adds nothing and gives that identifier.
pub proof fn law_intern_found_again(old: PSTermsV, new: PSTermsV, r: ProcessingResult, v: TermV)
    requires
        old.wf(),
        new.wf(),
        new.terms.len() <= usize::MAX,
        interns(old, new, r, v),
    ensures
        new.lookup(v) == Some(tid_of(r)),
        new.terms[tid_of(r).0 as int] == v,
{
    match r {
        ProcessingResult::New(t) => {
            crate::term::lemma_lookup_unique(new, v, t.0 as int);
        },
        ProcessingResult::Existing(t) => {
            lemma_lookup_some(old, v);
        },
        ProcessingResult::Error => {},
    }
}

} // verus!
