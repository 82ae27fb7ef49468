use vstd::prelude::*;
use crate::misc::{TermId, ProcessingResult, AnswerId, TqfId, BlockId, QuestionId};
use crate::term::{IFunction, PSTerms, PSTermsV, Term, TermV, args_of, symbol_of, copy_tids};
use crate::context::Context;
use crate::answer::{Answer, AnswerV, LogItemV, qatom_of, pushed};
use crate::environment::{PEnv, Host, env_ok};
use crate::ifunctions::{Outcome, pure_outcome, is_pure, apply_ifunction, grows, tid_of, args_valid, lemma_grows_refl, lemma_grows_trans, interns, lemma_interns_grows, init, int_of, str_of};
use crate::question::{
    views, QView, LocalEnd, local_end, Tqf, Question, LocalSearch, resumes_soundly, answer_sound, lemma_search_sound_grows,
    questions_closed, closed_in,
};
use crate::strategies::{Strategy, StrategyItem, SelectorStrategy, AnswerFilter, plain_shift_strategy, general_strategy, manual_strategy, plain_shift_items, manual_items, general_order};
use crate::plain::{
    PlainFormula, PFormulaV, formula_ok, plain_to_tqf, tqfs_ok, tqf_ok, scopes_view, pf_view, tqf_reads_as, var_map,
    lemma_tqf_reads_as_extends,
};
use crate::idmap::NameMap;
use crate::base::{Base, trailing_start};
use crate::attributes::Attributes;
use crate::parser::{ParseError, parse_string, max_text_len, g_text};
use crate::plain::lemma_pf_view_next;
use crate::text::{chars_of, string_of};
use crate::render::{tids_chars, tid_chars, push_tids, push_tid, push_all, push_nat_chars, ctx_view, nat_chars, RENDER_DEPTH};
use crate::ifunctions::{is_deleted, deleted_name, true_value};
use crate::attributes::{Setting, KeyObject};
use crate::term::BTerm;
use crate::misc::{DisplayMode, Quantifier};

verus! {

/// How many times the result of an interpreted function may itself be
/// rewritten, and how many bindings matching may follow, in one call.
pub const PROCESSING_FUEL: usize = 1000;

/// The terms that rewrite to themselves.
pub open spec fn is_value(t: TermV) -> bool {
    t is SConstant || t is Bool || t is Integer || t is String || t is List
}

/// The value `m` binds `k` to, when it is a term of the tables.
pub open spec fn bound_in(p: PSTermsV, m: Map<usize, usize>, k: usize) -> ProcessingResult {
    if m[k] < p.terms.len() {
        ProcessingResult::Existing(TermId(m[k]))
    } else {
        ProcessingResult::Error
    }
}

/// What rewriting gives for a term that is not a functor term: a variable
/// the context or the answer binds gives what it is bound to (the context
/// first); an unbound existential variable, and a value, give themselves;
/// an unbound universal variable gives nothing.
pub open spec fn rewrite_leaf(
    p: PSTermsV,
    ctx: Map<usize, usize>,
    a1: Option<Map<usize, usize>>,
    tid: TermId,
) -> Option<ProcessingResult> {
    let t = p.terms[tid.0 as int];
    if t is AVariable || t is EVariable {
        if ctx.contains_key(tid.0) {
            Some(bound_in(p, ctx, tid.0))
        } else if a1 is Some && a1.unwrap().contains_key(tid.0) {
            Some(bound_in(p, a1.unwrap(), tid.0))
        } else if t is EVariable {
            Some(ProcessingResult::Existing(tid))
        } else {
            Some(ProcessingResult::Error)
        }
    } else if is_value(t) {
        Some(ProcessingResult::Existing(tid))
    } else {
        None
    }
}

/// The function of the interpreted functor term `t`, if its symbol has one.
pub open spec fn ifun_of(p: PSTermsV, t: TermV) -> Option<IFunction> {
    let s = symbol_of(t).unwrap();
    if s.0 < p.symbols.len() {
        p.symbols[s.0 as int].f
    } else {
        None
    }
}

/// `v` is the term that the outcome `o` names: a term holding its value,
/// or the argument it gives.
pub open spec fn names(p: PSTermsV, o: Outcome, v: TermId) -> bool {
    match o {
        Outcome::Value(x) => v.0 < p.terms.len() && p.terms[v.0 as int] == x,
        Outcome::Arg(t) => v == t,
        Outcome::Fail => false,
    }
}

/// The pure function `f` gives the term `v` on the arguments `b`.
pub open spec fn evaluates(p: PSTermsV, f: IFunction, b: Seq<TermId>, v: TermId) -> bool {
    names(p, pure_outcome(f, p, b), v)
}

/// `rid` is what rewriting `tid` gave, as far as the term fixes it, when
/// `fuel` results of interpreted functions may be rewritten in a chain:
/// for a variable or a value, what [`rewrite_leaf`] gives; for a functor
/// term that is not interpreted, the functor term with the same symbol
/// whose arguments are what rewriting its arguments gave; for a term of a
/// pure interpreted function, what rewriting (with one less fuel) the term
/// gives that the function gives on the rewritten arguments; for one of
/// another interpreted function, a term of the tables.
pub open spec fn rewrites_in(
    p: PSTermsV,
    ctx: Map<usize, usize>,
    a1: Option<Map<usize, usize>>,
    fuel: nat,
    tid: int,
    rid: int,
) -> bool
    decreases fuel, tid,
{
    let t = p.terms[tid];
    &&& 0 <= tid < p.terms.len()
    &&& 0 <= rid < p.terms.len()
    &&& if t is SFunctor {
        let a = args_of(t);
        let b = args_of(p.terms[rid]);
        &&& p.terms[rid] is SFunctor
        &&& symbol_of(p.terms[rid]) == symbol_of(t)
        &&& b.len() == a.len()
        &&& forall|k: int|
            0 <= k < a.len() ==> 0 <= (#[trigger] a[k]).0 < tid && rewrites_in(p, ctx, a1, fuel, a[k].0 as int, b[k].0 as int)
    } else if t is IFunctor {
        let a = args_of(t);
        let f = ifun_of(p, t);
        f is Some && is_pure(f.unwrap()) ==> exists|b: Seq<TermId>, v: TermId|
            #[trigger] evaluates(p, f.unwrap(), b, v) && b.len() == a.len() && (forall|k: int|
                0 <= k < a.len() ==> 0 <= (#[trigger] a[k]).0 < tid && rewrites_in(p, ctx, a1, fuel, a[k].0 as int, b[k].0 as int))
                && fuel > 0 && rewrites_in(p, ctx, a1, (fuel - 1) as nat, v.0 as int, rid)
    } else {
        rewrite_leaf(p, ctx, a1, TermId(tid as usize)) == Some(ProcessingResult::Existing(TermId(rid as usize)))
    }
}

/// What rewriting `tid` gives under the fuel the prover runs with.
pub open spec fn rewrites_to(
    p: PSTermsV,
    ctx: Map<usize, usize>,
    a1: Option<Map<usize, usize>>,
    tid: int,
    rid: int,
) -> bool {
    rewrites_in(p, ctx, a1, PROCESSING_FUEL as nat, tid, rid)
}

/// Whether rewriting `tid` can fail: a term outside the tables, a
/// variable that nothing binds (or that is bound outside the tables), an
/// interpreted functor term (its function may fail), or a functor term
/// one of whose arguments can fail.
pub open spec fn may_fail(p: PSTermsV, ctx: Map<usize, usize>, a1: Option<Map<usize, usize>>, tid: int) -> bool
    decreases tid,
{
    if !(0 <= tid < p.terms.len()) {
        true
    } else {
        let t = p.terms[tid];
        if t is SFunctor {
            let a = args_of(t);
            exists|k: int| 0 <= k < a.len() && 0 <= (#[trigger] a[k]).0 < tid && may_fail(p, ctx, a1, a[k].0 as int)
        } else if t is IFunctor {
            true
        } else {
            rewrite_leaf(p, ctx, a1, TermId(tid as usize)) == Some(ProcessingResult::Error)
        }
    }
}

/// What a pure function gives depends on the terms of its arguments
/// alone, so it stays so when the tables grow.
pub proof fn lemma_pure_outcome_grows(f: IFunction, p: PSTermsV, q: PSTermsV, b: Seq<TermId>)
    requires
        grows(p, q),
        forall|k: int| 0 <= k < b.len() ==> (#[trigger] b[k]).0 < p.terms.len(),
    ensures
        pure_outcome(f, p, b) == pure_outcome(f, q, b),
{
    assert forall|k: int| 0 <= k < b.len() implies q.terms[(#[trigger] b[k]).0 as int] == p.terms[b[k].0 as int] by {
        assert(q.terms.subrange(0, p.terms.len() as int)[b[k].0 as int] == p.terms[b[k].0 as int]);
    }
    if b.len() > 0 {
        assert(q.terms[b[0].0 as int] == p.terms[b[0].0 as int]);
    }
    if b.len() > 1 {
        assert(q.terms[b[1].0 as int] == p.terms[b[1].0 as int]);
    }
    if b.len() > 2 {
        assert(q.terms[b[2].0 as int] == p.terms[b[2].0 as int]);
    }
}

/// Each of `args` rewrites without failure as a leaf: a bound variable,
/// an unbound existential variable, or a value.
pub open spec fn leaves_rewrite(p: PSTermsV, ctx: Map<usize, usize>, a1: Option<Map<usize, usize>>, args: Seq<TermId>) -> bool {
    forall|k: int|
        0 <= k < args.len() ==> (#[trigger] args[k]).0 < p.terms.len() && rewrite_leaf(p, ctx, a1, args[k]) matches Some(
            ProcessingResult::Existing(_),
        )
}

/// What rewriting gives for each of `args` when they rewrite as leaves.
pub open spec fn leaf_results(p: PSTermsV, ctx: Map<usize, usize>, a1: Option<Map<usize, usize>>, args: Seq<TermId>) -> Seq<
    TermId,
> {
    args.map_values(|t: TermId| tid_of(rewrite_leaf(p, ctx, a1, t).unwrap()))
}

/// The value a pure interpreted function gives on arguments that rewrite
/// as leaves, when `tid` is such a term and the function gives a value.
#[verifier::opaque]
pub open spec fn pure_leaf_value(p: PSTermsV, ctx: Map<usize, usize>, a1: Option<Map<usize, usize>>, tid: TermId) -> Option<
    TermV,
> {
    if tid.0 < p.terms.len() && p.terms[tid.0 as int] is IFunctor {
        let t = p.terms[tid.0 as int];
        match ifun_of(p, t) {
            Some(f) => if is_pure(f) && leaves_rewrite(p, ctx, a1, args_of(t)) {
                match pure_outcome(f, p, leaf_results(p, ctx, a1, args_of(t))) {
                    Outcome::Value(x) => Some(x),
                    _ => None,
                }
            } else {
                None
            },
            None => None,
        }
    } else {
        None
    }
}

/// What rewriting gave stays so when the tables grow.
pub proof fn lemma_rewrites_in_grows(
    p: PSTermsV,
    q: PSTermsV,
    ctx: Map<usize, usize>,
    a1: Option<Map<usize, usize>>,
    fuel: nat,
    tid: int,
    rid: int,
)
    requires
        p.wf(),
        grows(p, q),
        rewrites_in(p, ctx, a1, fuel, tid, rid),
    ensures
        rewrites_in(q, ctx, a1, fuel, tid, rid),
    decreases fuel, tid,
{
    assert(q.terms.subrange(0, p.terms.len() as int)[tid] == p.terms[tid]);
    assert(q.terms.subrange(0, p.terms.len() as int)[rid] == p.terms[rid]);
    let t = p.terms[tid];
    let a = args_of(t);
    if t is SFunctor {
        let b = args_of(p.terms[rid]);
        assert forall|k: int| 0 <= k < a.len() implies 0 <= (#[trigger] a[k]).0 < tid && rewrites_in(
            q,
            ctx,
            a1,
            fuel,
            a[k].0 as int,
            b[k].0 as int,
        ) by {
            lemma_rewrites_in_grows(p, q, ctx, a1, fuel, a[k].0 as int, b[k].0 as int);
        }
    } else if t is IFunctor {
        let f = ifun_of(p, t);
        assert(ifun_of(q, t) == f);
        if f is Some && is_pure(f.unwrap()) {
            let (b, v) = choose|b: Seq<TermId>, v: TermId|
                #[trigger] evaluates(p, f.unwrap(), b, v) && b.len() == a.len() && (forall|k: int|
                    0 <= k < a.len() ==> 0 <= (#[trigger] a[k]).0 < tid && rewrites_in(p, ctx, a1, fuel, a[k].0 as int, b[k].0 as int))
                    && fuel > 0 && rewrites_in(p, ctx, a1, (fuel - 1) as nat, v.0 as int, rid);
            assert forall|k: int| 0 <= k < a.len() implies 0 <= (#[trigger] a[k]).0 < tid && rewrites_in(
                q,
                ctx,
                a1,
                fuel,
                a[k].0 as int,
                b[k].0 as int,
            ) by {
                lemma_rewrites_in_grows(p, q, ctx, a1, fuel, a[k].0 as int, b[k].0 as int);
            }
            assert forall|k: int| 0 <= k < b.len() implies (#[trigger] b[k]).0 < p.terms.len() by {
                assert(a[k].0 < tid);
            }
            lemma_pure_outcome_grows(f.unwrap(), p, q, b);
            lemma_rewrites_in_grows(p, q, ctx, a1, (fuel - 1) as nat, v.0 as int, rid);
            if pure_outcome(f.unwrap(), p, b) is Value {
                assert(q.terms.subrange(0, p.terms.len() as int)[v.0 as int] == p.terms[v.0 as int]);
            }
            assert(evaluates(q, f.unwrap(), b, v));
        }
    }
}

/// What rewriting gave stays so when the tables grow.
pub proof fn lemma_rewrites_to_grows(
    p: PSTermsV,
    q: PSTermsV,
    ctx: Map<usize, usize>,
    a1: Option<Map<usize, usize>>,
    tid: int,
    rid: int,
)
    requires
        p.wf(),
        grows(p, q),
        rewrites_to(p, ctx, a1, tid, rid),
    ensures
        rewrites_to(q, ctx, a1, tid, rid),
{
    lemma_rewrites_in_grows(p, q, ctx, a1, PROCESSING_FUEL as nat, tid, rid);
}

pub open spec fn amap_of(a: Option<&Answer>) -> Option<Map<usize, usize>> {
    match a {
        Some(x) => Some(x@.amap),
        None => None,
    }
}

/// Rewrites the term `tid`: variables are replaced by what `context`, then
/// `answer1`, binds them to, and interpreted functions are evaluated (on
/// behalf of `answer`); the identifier of the resulting term is given.
#[verifier::rlimit(80)]
#[verifier::spinoff_prover]
pub fn processing<H: Host>(
    tid: TermId,
    context: &Context,
    answer1: Option<&Answer>,
    env: &mut PEnv,
    answer: &Answer,
    host: &mut H,
    depth: usize,
    fuel: usize,
) -> (r: ProcessingResult)
    requires
        env_ok(old(env)),
    ensures
        env_ok(final(env)),
        grows(old(env).psterms@, final(env).psterms@),
        final(env).base == old(env).base,
        final(env).bid == old(env).bid,
        !(r is Error) ==> tid_of(r).0 < final(env).psterms@.terms.len(),
        tid.0 >= old(env).psterms@.terms.len() ==> r is Error,
        tid.0 < old(env).psterms@.terms.len() ==> (rewrite_leaf(
            old(env).psterms@,
            context.map@,
            amap_of(answer1),
            tid,
        ) matches Some(x) ==> r == x && final(env).psterms@ == old(env).psterms@ && final(env).attributes@ == old(
            env,
        ).attributes@),
        tid.0 < old(env).psterms@.terms.len() && old(env).psterms@.terms[tid.0 as int] is SFunctor && !(r is Error)
            ==> final(env).psterms@.terms[tid_of(r).0 as int] is SFunctor && symbol_of(
            final(env).psterms@.terms[tid_of(r).0 as int],
        ) == symbol_of(old(env).psterms@.terms[tid.0 as int]) && args_of(
            final(env).psterms@.terms[tid_of(r).0 as int],
        ).len() == args_of(old(env).psterms@.terms[tid.0 as int]).len(),
        !(r is Error) ==> rewrites_in(
            final(env).psterms@,
            context.map@,
            amap_of(answer1),
            fuel as nat,
            tid.0 as int,
            tid_of(r).0 as int,
        ),
        r is Error ==> may_fail(final(env).psterms@, context.map@, amap_of(answer1), tid.0 as int),
        fuel > 0 ==> (pure_leaf_value(old(env).psterms@, context.map@, amap_of(answer1), tid) matches Some(x) ==> r is Existing
            && final(env).psterms@.terms[tid_of(r).0 as int] == x),
    decreases depth, 2nat, fuel, tid.0,
{
    let ghost p0 = env.psterms@;
    let ghost want0 = pure_leaf_value(p0, context.map@, amap_of(answer1), tid);
    proof {
        lemma_grows_refl(p0);
        reveal(pure_leaf_value);
        if want0 is Some {
            assert(tid.0 < p0.terms.len() && p0.terms[tid.0 as int] is IFunctor);
            assert(leaves_rewrite(p0, context.map@, amap_of(answer1), args_of(p0.terms[tid.0 as int])));
        }
    }
    if tid.0 >= env.psterms.len() {
        return ProcessingResult::Error;
    }
    let t = env.psterms.get_term(&tid);
    let is_e = match &t {
        Term::EVariable(..) => true,
        _ => false,
    };
    let is_i = match &t {
        Term::IFunctor(..) => true,
        _ => false,
    };
    match t {
        Term::AVariable(..) | Term::EVariable(..) => {
            match context.get(&tid) {
                Some(v) => {
                    return if v.0 < env.psterms.len() {
                        ProcessingResult::Existing(v)
                    } else {
                        ProcessingResult::Error
                    };
                },
                None => {},
            }
            match answer1 {
                Some(a) => match a.get(&tid) {
                    Some(v) => {
                        return if v.0 < env.psterms.len() {
                            ProcessingResult::Existing(v)
                        } else {
                            ProcessingResult::Error
                        };
                    },
                    None => {},
                },
                None => {},
            }
            if is_e {
                ProcessingResult::Existing(tid)
            } else {
                ProcessingResult::Error
            }
        },
        Term::SConstant(..) | Term::Bool(..) | Term::Integer(..) | Term::String(..) | Term::List(..) => {
            ProcessingResult::Existing(tid)
        },
        Term::SFunctor(sid, args) | Term::IFunctor(sid, args) => {
            proof {
                assert(args@ == args_of(p0.terms[tid.0 as int]));
                assert forall|k: int| 0 <= k < args@.len() implies (#[trigger] args@[k]).0 < tid.0 by {
                    assert(args_of(p0.terms[tid.0 as int])[k] == args@[k]);
                }
                assert(symbol_of(p0.terms[tid.0 as int]) is Some);
            }
            let mut new_args: Vec<TermId> = Vec::new();
            let mut i: usize = 0;
            let ghost leafy = leaves_rewrite(p0, context.map@, amap_of(answer1), args@);
            proof {
                assert(leaf_results(p0, context.map@, amap_of(answer1), args@).take(0) =~= new_args@);
            }
            while i < args.len()
                invariant
                    env_ok(env),
                    p0.wf(),
                    grows(p0, env.psterms@),
                    env.base == old(env).base,
                    env.bid == old(env).bid,
                    p0 == old(env).psterms@,
                    tid.0 < p0.terms.len(),
                    p0.terms[tid.0 as int] is SFunctor || p0.terms[tid.0 as int] is IFunctor,
                    is_i == p0.terms[tid.0 as int] is IFunctor,
                    symbol_of(p0.terms[tid.0 as int]) == Some(sid),
                    args@ == args_of(p0.terms[tid.0 as int]),
                    forall|k: int| 0 <= k < args@.len() ==> (#[trigger] args@[k]).0 < tid.0,
                    i <= args@.len(),
                    new_args@.len() == i,
                    forall|k: int| 0 <= k < new_args@.len() ==> (#[trigger] new_args@[k]).0 < env.psterms@.terms.len(),
                    forall|k: int|
                        0 <= k < new_args@.len() ==> rewrites_in(
                            env.psterms@,
                            context.map@,
                            amap_of(answer1),
                            fuel as nat,
                            args@[k].0 as int,
                            (#[trigger] new_args@[k]).0 as int,
                        ),
                    leafy == leaves_rewrite(p0, context.map@, amap_of(answer1), args@),
                    want0 == pure_leaf_value(p0, context.map@, amap_of(answer1), tid),
                    want0 is Some ==> leafy,
                    leafy ==> env.psterms@ == p0 && new_args@ == leaf_results(
                        p0,
                        context.map@,
                        amap_of(answer1),
                        args@,
                    ).take(i as int),
                decreases args@.len() - i,
            {
                let ghost pb = env.psterms@;
                let ghost nb = new_args@;
                let r = processing(args[i], context, answer1, env, answer, host, depth, fuel);
                proof {
                    if leafy {
                        assert(args@[i as int].0 < p0.terms.len());
                        assert(rewrite_leaf(p0, context.map@, amap_of(answer1), args@[i as int]) matches Some(
                            ProcessingResult::Existing(_),
                        ));
                        assert(pb == p0);
                        assert(r == rewrite_leaf(pb, context.map@, amap_of(answer1), args@[i as int]).unwrap());
                        assert(!(r is Error));
                    }
                }
                proof {
                    lemma_grows_trans(p0, pb, env.psterms@);
                }
                if let ProcessingResult::Error = r {
                    proof {
                        let pf = env.psterms@;
                        assert(pf.terms.subrange(0, p0.terms.len() as int)[tid.0 as int] == p0.terms[tid.0 as int]);
                        if !is_i {
                            let a = args_of(pf.terms[tid.0 as int]);
                            assert(a[i as int] == args@[i as int]);
                            assert(0 <= a[i as int].0 < tid.0 && may_fail(pf, context.map@, amap_of(answer1), a[i as int].0 as int));
                        }
                    }
                    return ProcessingResult::Error;
                }
                new_args.push(r.unwrap());
                proof {
                    if leafy {
                        assert(new_args@ =~= leaf_results(p0, context.map@, amap_of(answer1), args@).take(i + 1));
                    }
                    assert forall|k: int| 0 <= k < new_args@.len() implies rewrites_in(
                        env.psterms@,
                        context.map@,
                        amap_of(answer1),
                        fuel as nat,
                        args@[k].0 as int,
                        (#[trigger] new_args@[k]).0 as int,
                    ) by {
                        if k < i {
                            assert(new_args@[k] == nb[k]);
                            lemma_rewrites_in_grows(
                                pb,
                                env.psterms@,
                                context.map@,
                                amap_of(answer1),
                                fuel as nat,
                                args@[k].0 as int,
                                nb[k].0 as int,
                            );
                        }
                    }
                }
                i = i + 1;
            }
            if is_i {
                let f = if sid.0 < env.psterms.symbols_len() {
                    env.psterms.get_symbol(&sid).f
                } else {
                    None
                };
                proof {
                    assert(env.psterms@.symbols == p0.symbols);
                    assert(f == ifun_of(p0, p0.terms[tid.0 as int]));
                }
                let f = match f {
                    Some(f) => f,
                    None => {
                        proof {
                            reveal(pure_leaf_value);
                        }
                        return ProcessingResult::Error;
                    },
                };
                let _len_before = env.psterms.len();
                let ghost pb = env.psterms@;
                let ghost want = pure_leaf_value(p0, context.map@, amap_of(answer1), tid);
                proof {
                    reveal(pure_leaf_value);
                    if want is Some {
                        assert(new_args@ =~= leaf_results(p0, context.map@, amap_of(answer1), args@));
                        assert(pb == p0);
                        assert(pure_outcome(f, pb, new_args@) == Outcome::Value(want.unwrap()));
                    }
                }
                let res = apply_ifunction(f, &new_args, env, answer, host, depth);
                proof {
                    lemma_grows_trans(p0, pb, env.psterms@);
                }
                if let ProcessingResult::Error = res {
                    return ProcessingResult::Error;
                }
                if fuel == 0 {
                    return ProcessingResult::Error;
                }
                let ghost pc = env.psterms@;
                proof {
                    if want is Some {
                        let x = want.unwrap();
                        assert(interns(pb, pc, res, x));
                        if res is Existing {
                            assert(pb.is_indexed(x));
                            let i = choose|i: int| 0 <= i < pb.terms.len() && pb.indexed[i] && pb.terms[i] == x;
                            assert(tid_of(res) == TermId(i as usize));
                            assert(pc == pb);
                        } else {
                            assert(pc.terms == pb.terms.push(x));
                        }
                        assert(pc.terms[tid_of(res).0 as int] == x);
                        assert(is_value(x));
                    }
                }
                let r = processing(res.unwrap(), context, answer1, env, answer, host, depth, fuel - 1);
                proof {
                    lemma_grows_trans(p0, pc, env.psterms@);
                    let pf = env.psterms@;
                    assert(pf.terms.subrange(0, p0.terms.len() as int)[tid.0 as int] == p0.terms[tid.0 as int]);
                    assert(ifun_of(pf, pf.terms[tid.0 as int]) == Some(f));
                    if !(r is Error) && is_pure(f) {
                        let b = new_args@;
                        let v = tid_of(res);
                        let a = args_of(pf.terms[tid.0 as int]);
                        lemma_grows_trans(pb, pc, pf);
                        assert forall|k: int| 0 <= k < a.len() implies 0 <= (#[trigger] a[k]).0 < tid.0 && rewrites_in(
                            pf,
                            context.map@,
                            amap_of(answer1),
                            fuel as nat,
                            a[k].0 as int,
                            b[k].0 as int,
                        ) by {
                            assert(a[k] == args@[k]);
                            lemma_rewrites_in_grows(pb, pf, context.map@, amap_of(answer1), fuel as nat, a[k].0 as int, b[k].0 as int);
                        }
                        lemma_pure_outcome_grows(f, pb, pf, b);
                        let o = pure_outcome(f, pb, b);
                        if o is Value {
                            let x = o->Value_0;
                            assert(interns(pb, pc, res, x));
                            if res is Existing {
                                assert(pb.is_indexed(x));
                                let i = choose|i: int| 0 <= i < pb.terms.len() && pb.indexed[i] && pb.terms[i] == x;
                                assert(v == TermId(i as usize));
                                assert(pc == pb);
                                assert(pc.terms[v.0 as int] == x);
                            } else {
                                assert(pc.terms == pb.terms.push(x));
                                assert(pc.terms[v.0 as int] == x);
                            }
                            assert(pf.terms.subrange(0, pc.terms.len() as int)[v.0 as int] == pc.terms[v.0 as int]);
                        }
                        assert(evaluates(pf, f, b, v));
                    }
                }
                r
            } else {
                let ghost pb = env.psterms@;
                proof {
                    assert(pb.symbols == p0.symbols);
                    assert(symbol_of(p0.terms[tid.0 as int]) == Some(sid));
                }
                let ghost na = new_args@;
                let r = env.psterms.get_tid(Term::SFunctor(sid, new_args));
                let _n = env.psterms.len();
                proof {
                    lemma_interns_grows(pb, env.psterms@, r, TermV::SFunctor(sid, na));
                    lemma_grows_trans(p0, pb, env.psterms@);
                    let a = args@;
                    assert forall|k: int| 0 <= k < a.len() implies 0 <= (#[trigger] a[k]).0 < tid.0 && rewrites_in(
                        env.psterms@,
                        context.map@,
                        amap_of(answer1),
                        fuel as nat,
                        a[k].0 as int,
                        na[k].0 as int,
                    ) by {
                        lemma_rewrites_in_grows(pb, env.psterms@, context.map@, amap_of(answer1), fuel as nat, a[k].0 as int, na[k].0 as int);
                    }
                    assert(env.psterms@.terms.subrange(0, p0.terms.len() as int)[tid.0 as int] == p0.terms[tid.0 as int]);
                }
                r
            }
        },
    }
}

/// Cutting tables that only grew back to their old length (as `back_to`
/// does) gives the old tables again.
pub proof fn lemma_back_to_restores(p0: PSTermsV, p1: PSTermsV, fin: PSTermsV)
    requires
        p0.wf(),
        p1.wf(),
        fin.wf(),
        grows(p0, p1),
        fin.symbols == p1.symbols,
        fin.terms == p1.terms.take(p0.terms.len() as int),
        forall|j: int|
            0 <= j < fin.terms.len() ==> #[trigger] fin.indexed[j] == (p1.indexed[j] && forall|q: int|
                p0.terms.len() <= q < p1.terms.len() ==> p1.terms[q] != p1.terms[j]),
    ensures
        fin == p0,
{
    assert(fin.terms =~= p0.terms);
    assert forall|j: int| 0 <= j < fin.indexed.len() implies fin.indexed[j] == p0.indexed[j] by {
        assert(p1.indexed[j] == p0.indexed[j]);
        if p0.indexed[j] {
            assert forall|q: int| p0.terms.len() <= q < p1.terms.len() implies p1.terms[q] != p1.terms[j] by {
                assert(p1.indexed[q]);
                assert(p1.indexed[j]);
            }
        }
    }
    assert(fin.indexed =~= p0.indexed);
    assert(fin.symbols == p0.symbols);
}

/// Everything of an answer but its substitution and its steps.
pub open spec fn same_search(a: AnswerV, b: AnswerV) -> bool {
    &&& a.bid == b.bid
    &&& a.qid == b.qid
    &&& a.lower == b.lower
    &&& a.middle == b.middle
    &&& a.upper == b.upper
    &&& a.k == b.k
    &&& a.conj_len == b.conj_len
    &&& a.state == b.state
    &&& a.level == b.level
}

/// Whether the base term `b` is an instance of the question term `q`
/// under `ctx` and the substitution `m`: a variable stands for what the
/// context binds it to, a universal variable otherwise for what `m` binds
/// it to (itself or an instance), functor terms agree symbol by symbol and
/// argument by argument; an interpreted term is not looked into here.
/// `fuel` bounds the variable bindings followed.
pub open spec fn matches_under(p: PSTermsV, ctx: Map<usize, usize>, m: Map<usize, usize>, b: TermId, q: TermId, fuel: nat) -> bool
    decreases fuel, q.0 + 1, 0nat,
{
    if b == q {
        true
    } else if b.0 >= p.terms.len() || q.0 >= p.terms.len() {
        false
    } else {
        match p.terms[q.0 as int] {
            TermV::AVariable(_) => if ctx.contains_key(q.0) {
                fuel > 0 && matches_under(p, ctx, m, b, TermId(ctx[q.0]), (fuel - 1) as nat)
            } else {
                m.contains_key(q.0) && (m[q.0] == b.0 || (fuel > 0 && matches_under(
                    p,
                    ctx,
                    m,
                    b,
                    TermId(m[q.0]),
                    (fuel - 1) as nat,
                )))
            },
            TermV::EVariable(_, _) => ctx.contains_key(q.0) && fuel > 0 && matches_under(
                p,
                ctx,
                m,
                b,
                TermId(ctx[q.0]),
                (fuel - 1) as nat,
            ),
            TermV::SFunctor(s, qargs) => match p.terms[b.0 as int] {
                TermV::SFunctor(s2, bargs) => s2 == s && args_match(
                    p,
                    ctx,
                    m,
                    bargs,
                    qargs,
                    fuel,
                    q.0 as nat,
                    if qargs.len() < bargs.len() {
                        qargs.len()
                    } else {
                        bargs.len()
                    },
                ),
                _ => false,
            },
            TermV::IFunctor(_, _) => true,
            _ => false,
        }
    }
}

/// The first `n` arguments of `bargs` are instances of those of `qargs`
/// (the question arguments stored before `bound`).
pub open spec fn args_match(
    p: PSTermsV,
    ctx: Map<usize, usize>,
    m: Map<usize, usize>,
    bargs: Seq<TermId>,
    qargs: Seq<TermId>,
    fuel: nat,
    bound: nat,
    n: nat,
) -> bool
    decreases fuel, bound, n,
{
    if n == 0 {
        true
    } else {
        args_match(p, ctx, m, bargs, qargs, fuel, bound, (n - 1) as nat) && (qargs[n - 1].0 < bound ==> matches_under(
            p,
            ctx,
            m,
            bargs[n - 1],
            qargs[n - 1],
            fuel,
        ))
    }
}

/// Matching against the question term `q` meets no interpreted functor
/// term and has fuel for each binding it follows: the bindings of `ctx`
/// and of `m` are followed with one less fuel, and functor terms are looked
/// into argument by argument.
pub open spec fn ifun_free(p: PSTermsV, ctx: Map<usize, usize>, m: Map<usize, usize>, q: TermId, fuel: nat) -> bool
    decreases fuel, q.0 + 1,
{
    if q.0 >= p.terms.len() {
        true
    } else {
        let t = p.terms[q.0 as int];
        if t is AVariable {
            if ctx.contains_key(q.0) {
                fuel > 0 && ifun_free(p, ctx, m, TermId(ctx[q.0]), (fuel - 1) as nat)
            } else if m.contains_key(q.0) {
                fuel > 0 && ifun_free(p, ctx, m, TermId(m[q.0]), (fuel - 1) as nat)
            } else {
                true
            }
        } else if t is EVariable {
            ctx.contains_key(q.0) ==> fuel > 0 && ifun_free(p, ctx, m, TermId(ctx[q.0]), (fuel - 1) as nat)
        } else if t is SFunctor {
            let a = args_of(t);
            forall|k: int| 0 <= k < a.len() && (#[trigger] a[k]).0 < q.0 ==> ifun_free(p, ctx, m, a[k], fuel)
        } else {
            !(t is IFunctor)
        }
    }
}

/// The variable `v` occurs in the question term `q`: `q` is `v`, or a
/// variable whose binding (in `ctx`, else in `m`, followed with one less
/// fuel) holds it, or a functor term one of whose arguments holds it.
pub open spec fn reaches(p: PSTermsV, ctx: Map<usize, usize>, m: Map<usize, usize>, q: TermId, v: usize, fuel: nat) -> bool
    decreases fuel, q.0 + 1,
{
    if q.0 == v {
        true
    } else if q.0 >= p.terms.len() {
        false
    } else {
        let t = p.terms[q.0 as int];
        if t is AVariable || t is EVariable {
            if ctx.contains_key(q.0) {
                fuel > 0 && reaches(p, ctx, m, TermId(ctx[q.0]), v, (fuel - 1) as nat)
            } else {
                m.contains_key(q.0) && fuel > 0 && reaches(p, ctx, m, TermId(m[q.0]), v, (fuel - 1) as nat)
            }
        } else if t is SFunctor {
            let a = args_of(t);
            exists|k: int| 0 <= k < a.len() && (#[trigger] a[k]).0 < q.0 && reaches(p, ctx, m, a[k], v, fuel)
        } else {
            false
        }
    }
}

/// `v` is the term `b` or a term inside it (an argument, at any depth, of
/// functor terms).
pub open spec fn subterm_of(p: PSTermsV, b: TermId, v: usize) -> bool
    decreases b.0,
{
    if b.0 == v {
        true
    } else if b.0 >= p.terms.len() {
        false
    } else {
        let t = p.terms[b.0 as int];
        let a = args_of(t);
        (t is SFunctor || t is IFunctor) && exists|k: int| 0 <= k < a.len() && (#[trigger] a[k]).0 < b.0 && subterm_of(p, a[k], v)
    }
}

/// Which terms lie inside `b` depends on the terms up to `b` alone.
pub proof fn lemma_subterm_prefix(p: PSTermsV, q: PSTermsV, b: TermId, v: usize)
    requires
        p.extends(q),
        b.0 < q.terms.len(),
        subterm_of(p, b, v),
    ensures
        subterm_of(q, b, v),
    decreases b.0,
{
    if b.0 != v {
        assert(p.terms.subrange(0, q.terms.len() as int)[b.0 as int] == q.terms[b.0 as int]);
        let a = args_of(p.terms[b.0 as int]);
        let k = choose|k: int| 0 <= k < a.len() && (#[trigger] a[k]).0 < b.0 && subterm_of(p, a[k], v);
        lemma_subterm_prefix(p, q, a[k], v);
    }
}

/// The variable `v` occurs in one of the first `n` terms of `qs`.
pub open spec fn reaches_before(
    p: PSTermsV,
    ctx: Map<usize, usize>,
    m: Map<usize, usize>,
    qs: Seq<TermId>,
    n: int,
    v: usize,
    fuel: nat,
) -> bool {
    exists|j: int| 0 <= j < n && reaches(p, ctx, m, #[trigger] qs[j], v, fuel)
}

/// The variables that occur in the first arguments of a functor term free
/// of interpreted functors occur in the term.
pub proof fn lemma_reaches_close(
    p: PSTermsV,
    ctx: Map<usize, usize>,
    m: Map<usize, usize>,
    m_old: Map<usize, usize>,
    q: TermId,
    qs: Seq<TermId>,
    n: int,
    fuel: nat,
)
    requires
        q.0 < p.terms.len(),
        p.terms[q.0 as int] is SFunctor,
        args_of(p.terms[q.0 as int]) == qs,
        0 <= n <= qs.len(),
        forall|k: int| 0 <= k < qs.len() ==> (#[trigger] qs[k]).0 < q.0,
        ifun_free(p, ctx, m, q, fuel),
        (forall|j: int| 0 <= j < n ==> ifun_free(p, ctx, m, #[trigger] qs[j], fuel)) ==> forall|k: usize|
            #[trigger] m.contains_key(k) && !m_old.contains_key(k) ==> reaches_before(p, ctx, m, qs, n, k, fuel),
    ensures
        forall|k: usize| #[trigger] m.contains_key(k) && !m_old.contains_key(k) ==> reaches(p, ctx, m, q, k, fuel),
{
    assert forall|j: int| 0 <= j < n implies ifun_free(p, ctx, m, #[trigger] qs[j], fuel) by {
        assert(qs[j].0 < q.0);
    }
    assert forall|k: usize| #[trigger] m.contains_key(k) && !m_old.contains_key(k) implies reaches(p, ctx, m, q, k, fuel) by {
        if q.0 != k {
            let j = choose|j: int| 0 <= j < n && reaches(p, ctx, m, #[trigger] qs[j], k, fuel);
            assert(qs[j].0 < q.0);
        }
    }
}

/// What occurs in a term still does when the substitution gains bindings.
pub proof fn lemma_reaches_mono(
    p: PSTermsV,
    ctx: Map<usize, usize>,
    m1: Map<usize, usize>,
    m2: Map<usize, usize>,
    q: TermId,
    v: usize,
    fuel: nat,
)
    requires
        reaches(p, ctx, m1, q, v, fuel),
        keeps(m1, m2),
    ensures
        reaches(p, ctx, m2, q, v, fuel),
    decreases fuel, q.0 + 1,
{
    if q.0 != v && q.0 < p.terms.len() {
        let t = p.terms[q.0 as int];
        if t is AVariable || t is EVariable {
            if ctx.contains_key(q.0) {
                lemma_reaches_mono(p, ctx, m1, m2, TermId(ctx[q.0]), v, (fuel - 1) as nat);
            } else {
                assert(m1.contains_key(q.0));
                lemma_reaches_mono(p, ctx, m1, m2, TermId(m1[q.0]), v, (fuel - 1) as nat);
            }
        } else if t is SFunctor {
            let a = args_of(t);
            let k = choose|k: int| 0 <= k < a.len() && (#[trigger] a[k]).0 < q.0 && reaches(p, ctx, m1, a[k], v, fuel);
            lemma_reaches_mono(p, ctx, m1, m2, a[k], v, fuel);
        }
    }
}

/// A term free of interpreted functors under a substitution is so under
/// any part of it.
pub proof fn lemma_ifun_free_anti(
    p: PSTermsV,
    ctx: Map<usize, usize>,
    m1: Map<usize, usize>,
    m2: Map<usize, usize>,
    q: TermId,
    fuel: nat,
)
    requires
        ifun_free(p, ctx, m2, q, fuel),
        keeps(m1, m2),
    ensures
        ifun_free(p, ctx, m1, q, fuel),
    decreases fuel, q.0 + 1,
{
    if q.0 < p.terms.len() {
        let t = p.terms[q.0 as int];
        if t is AVariable {
            if ctx.contains_key(q.0) {
                lemma_ifun_free_anti(p, ctx, m1, m2, TermId(ctx[q.0]), (fuel - 1) as nat);
            } else if m1.contains_key(q.0) {
                assert(m2.contains_key(q.0));
                lemma_ifun_free_anti(p, ctx, m1, m2, TermId(m1[q.0]), (fuel - 1) as nat);
            }
        } else if t is EVariable {
            if ctx.contains_key(q.0) {
                lemma_ifun_free_anti(p, ctx, m1, m2, TermId(ctx[q.0]), (fuel - 1) as nat);
            }
        } else if t is SFunctor {
            let a = args_of(t);
            assert forall|k: int| 0 <= k < a.len() && (#[trigger] a[k]).0 < q.0 implies ifun_free(p, ctx, m1, a[k], fuel) by {
                lemma_ifun_free_anti(p, ctx, m1, m2, a[k], fuel);
            }
        }
    }
}

/// A match of all first `n` arguments is a match of each of them.
pub proof fn lemma_args_match_at(
    p: PSTermsV,
    ctx: Map<usize, usize>,
    m: Map<usize, usize>,
    bargs: Seq<TermId>,
    qargs: Seq<TermId>,
    fuel: nat,
    bound: nat,
    n: nat,
    i: nat,
)
    requires
        args_match(p, ctx, m, bargs, qargs, fuel, bound, n),
        i < n,
        qargs[i as int].0 < bound,
    ensures
        matches_under(p, ctx, m, bargs[i as int], qargs[i as int], fuel),
    decreases n,
{
    if i + 1 < n {
        lemma_args_match_at(p, ctx, m, bargs, qargs, fuel, bound, (n - 1) as nat, i);
    }
}

/// `b` has every binding of `a`.
pub open spec fn keeps(a: Map<usize, usize>, b: Map<usize, usize>) -> bool {
    forall|k: usize| #[trigger] a.contains_key(k) ==> b.contains_key(k) && b[k] == a[k]
}

/// An instance stays an instance when the substitution gains bindings.
pub proof fn lemma_matches_under_mono(
    p: PSTermsV,
    ctx: Map<usize, usize>,
    m1: Map<usize, usize>,
    m2: Map<usize, usize>,
    b: TermId,
    q: TermId,
    fuel: nat,
)
    requires
        matches_under(p, ctx, m1, b, q, fuel),
        keeps(m1, m2),
    ensures
        matches_under(p, ctx, m2, b, q, fuel),
    decreases fuel, q.0 + 1, 0nat,
{
    if b == q || b.0 >= p.terms.len() || q.0 >= p.terms.len() {
    } else {
        match p.terms[q.0 as int] {
            TermV::AVariable(_) => {
                if ctx.contains_key(q.0) {
                    lemma_matches_under_mono(p, ctx, m1, m2, b, TermId(ctx[q.0]), (fuel - 1) as nat);
                } else {
                    assert(m1.contains_key(q.0));
                    assert(m2[q.0] == m1[q.0]);
                    if m1[q.0] != b.0 {
                        lemma_matches_under_mono(p, ctx, m1, m2, b, TermId(m1[q.0]), (fuel - 1) as nat);
                    }
                }
            },
            TermV::EVariable(_, _) => {
                lemma_matches_under_mono(p, ctx, m1, m2, b, TermId(ctx[q.0]), (fuel - 1) as nat);
            },
            TermV::SFunctor(s, qargs) => {
                match p.terms[b.0 as int] {
                    TermV::SFunctor(s2, bargs) => {
                        let n = if qargs.len() < bargs.len() {
                            qargs.len()
                        } else {
                            bargs.len()
                        };
                        lemma_args_match_mono(p, ctx, m1, m2, bargs, qargs, fuel, q.0 as nat, n);
                    },
                    _ => {},
                }
            },
            _ => {},
        }
    }
}

pub proof fn lemma_args_match_mono(
    p: PSTermsV,
    ctx: Map<usize, usize>,
    m1: Map<usize, usize>,
    m2: Map<usize, usize>,
    bargs: Seq<TermId>,
    qargs: Seq<TermId>,
    fuel: nat,
    bound: nat,
    n: nat,
)
    requires
        args_match(p, ctx, m1, bargs, qargs, fuel, bound, n),
        keeps(m1, m2),
    ensures
        args_match(p, ctx, m2, bargs, qargs, fuel, bound, n),
    decreases fuel, bound, n,
{
    if n > 0 {
        lemma_args_match_mono(p, ctx, m1, m2, bargs, qargs, fuel, bound, (n - 1) as nat);
        if qargs[n - 1].0 < bound {
            lemma_matches_under_mono(p, ctx, m1, m2, bargs[n - 1], qargs[n - 1], fuel);
        }
    }
}

/// The variables a step bound.
pub open spec fn step_avars(item: LogItemV) -> Seq<TermId> {
    match item {
        LogItemV::Matching { avars, .. } => avars,
        LogItemV::Interpretation { .. } => Seq::empty(),
    }
}

/// The fact a matching step is about.
pub open spec fn step_batom(item: LogItemV) -> usize {
    match item {
        LogItemV::Matching { batom_i, .. } => batom_i,
        LogItemV::Interpretation { .. } => 0,
    }
}

/// `b` is `a` after matching went on in its last step: the other steps, and
/// the atom and fact of the last step, are unchanged; the last step's
/// variables gained, at their end, only variables `a` did not bind; and
/// every binding `b` adds to those of `a` is of a variable of the last step.
pub open spec fn matching_extends(a: AnswerV, b: AnswerV) -> bool {
    let aa = step_avars(a.log.last());
    let ba = step_avars(b.log.last());
    &&& b.log.len() == a.log.len()
    &&& b.log.drop_last() == a.log.drop_last()
    &&& b.log.last() is Matching
    &&& qatom_of(b.log.last()) == qatom_of(a.log.last())
    &&& step_batom(b.log.last()) == step_batom(a.log.last())
    &&& aa.len() <= ba.len()
    &&& ba.take(aa.len() as int) == aa
    &&& forall|i: int| aa.len() <= i < ba.len() ==> !a.amap.contains_key((#[trigger] ba[i]).0)
    &&& keeps(a.amap, b.amap)
    &&& forall|k: usize| #[trigger] b.amap.contains_key(k) && !a.amap.contains_key(k) ==> ba.contains(TermId(k))
}

pub proof fn lemma_matching_extends_refl(a: AnswerV)
    requires
        matching_step(a),
    ensures
        matching_extends(a, a),
{
    assert(step_avars(a.log.last()).take(step_avars(a.log.last()).len() as int) =~= step_avars(a.log.last()));
}

pub proof fn lemma_matching_extends_trans(a: AnswerV, b: AnswerV, c: AnswerV)
    requires
        matching_step(a),
        matching_extends(a, b),
        matching_extends(b, c),
    ensures
        matching_extends(a, c),
{
    let aa = step_avars(a.log.last());
    let ba = step_avars(b.log.last());
    let ca = step_avars(c.log.last());
    assert(ca.take(aa.len() as int) =~= aa) by {
        assert(ca.take(aa.len() as int) =~= ca.take(ba.len() as int).take(aa.len() as int));
    }
    assert forall|i: int| aa.len() <= i < ca.len() implies !a.amap.contains_key((#[trigger] ca[i]).0) by {
        if i < ba.len() {
            assert(ca.take(ba.len() as int)[i] == ba[i]);
        } else {
            if a.amap.contains_key(ca[i].0) {
                assert(b.amap.contains_key(ca[i].0));
            }
        }
    }
    assert forall|k: usize| #[trigger] c.amap.contains_key(k) && !a.amap.contains_key(k) implies ca.contains(
        TermId(k),
    ) by {
        if b.amap.contains_key(k) {
            assert(ba.contains(TermId(k)));
            let j = choose|j: int| 0 <= j < ba.len() && ba[j] == TermId(k);
            assert(ca.take(ba.len() as int)[j] == ba[j]);
            assert(ca[j] == TermId(k));
        }
    }
    assert(keeps(a.amap, c.amap)) by {
        assert forall|k: usize| #[trigger] a.amap.contains_key(k) implies c.amap.contains_key(k) && c.amap[k]
            == a.amap[k] by {
            assert(b.amap.contains_key(k));
        }
    }
}

/// An instance stays an instance when the tables grow.
pub proof fn lemma_matches_under_grows(
    p: PSTermsV,
    q: PSTermsV,
    ctx: Map<usize, usize>,
    m: Map<usize, usize>,
    b: TermId,
    qt: TermId,
    fuel: nat,
)
    requires
        p.terms.len() <= q.terms.len(),
        q.terms.subrange(0, p.terms.len() as int) == p.terms,
        matches_under(p, ctx, m, b, qt, fuel),
    ensures
        matches_under(q, ctx, m, b, qt, fuel),
    decreases fuel, qt.0 + 1, 0nat,
{
    if b != qt {
        assert(q.terms.subrange(0, p.terms.len() as int)[qt.0 as int] == p.terms[qt.0 as int]);
        assert(q.terms.subrange(0, p.terms.len() as int)[b.0 as int] == p.terms[b.0 as int]);
        match p.terms[qt.0 as int] {
            TermV::AVariable(_) => {
                if ctx.contains_key(qt.0) {
                    lemma_matches_under_grows(p, q, ctx, m, b, TermId(ctx[qt.0]), (fuel - 1) as nat);
                } else if m[qt.0] != b.0 {
                    lemma_matches_under_grows(p, q, ctx, m, b, TermId(m[qt.0]), (fuel - 1) as nat);
                }
            },
            TermV::EVariable(_, _) => {
                lemma_matches_under_grows(p, q, ctx, m, b, TermId(ctx[qt.0]), (fuel - 1) as nat);
            },
            TermV::SFunctor(s, qargs) => {
                match p.terms[b.0 as int] {
                    TermV::SFunctor(s2, bargs) => {
                        let n = if qargs.len() < bargs.len() {
                            qargs.len()
                        } else {
                            bargs.len()
                        };
                        lemma_args_match_grows(p, q, ctx, m, bargs, qargs, fuel, qt.0 as nat, n);
                    },
                    _ => {},
                }
            },
            _ => {},
        }
    }
}

pub proof fn lemma_args_match_grows(
    p: PSTermsV,
    q: PSTermsV,
    ctx: Map<usize, usize>,
    m: Map<usize, usize>,
    bargs: Seq<TermId>,
    qargs: Seq<TermId>,
    fuel: nat,
    bound: nat,
    n: nat,
)
    requires
        p.terms.len() <= q.terms.len(),
        q.terms.subrange(0, p.terms.len() as int) == p.terms,
        args_match(p, ctx, m, bargs, qargs, fuel, bound, n),
    ensures
        args_match(q, ctx, m, bargs, qargs, fuel, bound, n),
    decreases fuel, bound, n,
{
    if n > 0 {
        lemma_args_match_grows(p, q, ctx, m, bargs, qargs, fuel, bound, (n - 1) as nat);
        if qargs[n - 1].0 < bound {
            lemma_matches_under_grows(p, q, ctx, m, bargs[n - 1], qargs[n - 1], fuel);
        }
    }
}

/// The answer still has steps, the last of them a matching one.
pub open spec fn matching_step(a: AnswerV) -> bool {
    a.log.len() > 0 && a.log.last() is Matching
}

/// What matching the base term `b` against the question term `q` gives,
/// step by step as [`matching`] goes, starting from the answer `a`: the
/// result, the answer afterwards, and whether the run met only terms this
/// description covers (an interpreted functor term, whose evaluation rests
/// on the functions, is not covered).
pub open spec fn match_run(p: PSTermsV, ctx: Map<usize, usize>, a: AnswerV, b: TermId, q: TermId, fuel: nat) -> (
    Option<bool>,
    AnswerV,
    bool,
)
    decreases fuel, q.0 + 1, 0nat,
{
    if b == q {
        (Some(true), a, true)
    } else if b.0 >= p.terms.len() || q.0 >= p.terms.len() {
        (Some(false), a, true)
    } else {
        let t = p.terms[q.0 as int];
        if t is AVariable {
            if ctx.contains_key(q.0) {
                if fuel == 0 {
                    (None, a, true)
                } else {
                    match_run(p, ctx, a, b, TermId(ctx[q.0]), (fuel - 1) as nat)
                }
            } else if a.amap.contains_key(q.0) {
                if fuel == 0 {
                    (None, a, true)
                } else {
                    match_run(p, ctx, a, b, TermId(a.amap[q.0]), (fuel - 1) as nat)
                }
            } else {
                (Some(true), pushed(a, q, b), true)
            }
        } else if t is EVariable {
            if ctx.contains_key(q.0) {
                if fuel == 0 {
                    (None, a, true)
                } else {
                    match_run(p, ctx, a, b, TermId(ctx[q.0]), (fuel - 1) as nat)
                }
            } else {
                (Some(false), a, true)
            }
        } else if t is SFunctor {
            let bt = p.terms[b.0 as int];
            if bt is SFunctor && symbol_of(bt) == symbol_of(t) {
                let qa = args_of(t);
                let ba = args_of(bt);
                let n = if qa.len() < ba.len() {
                    qa.len()
                } else {
                    ba.len()
                };
                args_run(p, ctx, a, ba, qa, fuel, q.0 as nat, 0, n)
            } else {
                (Some(false), a, true)
            }
        } else if t is IFunctor {
            (None, a, false)
        } else {
            (Some(false), a, true)
        }
    }
}

/// Matching the arguments `ba[i..n]` against `qa[i..n]` (those stored
/// before `bound`) in turn, stopping at the first that does not match.
pub open spec fn args_run(
    p: PSTermsV,
    ctx: Map<usize, usize>,
    a: AnswerV,
    ba: Seq<TermId>,
    qa: Seq<TermId>,
    fuel: nat,
    bound: nat,
    i: nat,
    n: nat,
) -> (Option<bool>, AnswerV, bool)
    decreases fuel, bound, n - i,
{
    if i >= n {
        (Some(true), a, true)
    } else if qa[i as int].0 >= bound {
        (None, a, false)
    } else {
        let r = match_run(p, ctx, a, ba[i as int], qa[i as int], fuel);
        if !r.2 || r.0 != Some(true) {
            r
        } else {
            args_run(p, ctx, r.1, ba, qa, fuel, bound, i + 1, n)
        }
    }
}

/// Whether the base term `btid` is an instance of the question term `qtid`
/// under `context` and the answer under construction, which it extends
/// with the bindings it needs; `None` when an interpreted function cannot
/// be evaluated.  The tables are left as they were.
pub fn matching<H: Host>(
    btid: TermId,
    qtid: TermId,
    context: &Context,
    curr_answer: &mut Answer,
    env: &mut PEnv,
    host: &mut H,
    depth: usize,
    fuel: usize,
) -> (r: Option<bool>)
    requires
        env_ok(old(env)),
        matching_step(old(curr_answer)@),
    ensures
        env_ok(final(env)),
        final(env).psterms@ == old(env).psterms@,
        final(env).base == old(env).base,
        final(env).bid == old(env).bid,
        matching_step(final(curr_answer)@),
        final(curr_answer)@.log.len() == old(curr_answer)@.log.len(),
        forall|j: int| 0 <= j < old(curr_answer)@.log.len() ==> qatom_of(#[trigger] final(curr_answer)@.log[j]) == qatom_of(old(curr_answer)@.log[j]),
        same_search(old(curr_answer)@, final(curr_answer)@),
        keeps(old(curr_answer)@.amap, final(curr_answer)@.amap),
        matching_extends(old(curr_answer)@, final(curr_answer)@),
        r == Some(true) ==> matches_under(old(env).psterms@, context.map@, final(curr_answer)@.amap, btid, qtid, fuel as nat),
        ifun_free(old(env).psterms@, context.map@, final(curr_answer)@.amap, qtid, fuel as nat) ==> r is Some,
        r == Some(false) && ifun_free(old(env).psterms@, context.map@, final(curr_answer)@.amap, qtid, fuel as nat)
            ==> !matches_under(old(env).psterms@, context.map@, final(curr_answer)@.amap, btid, qtid, fuel as nat),
        ifun_free(old(env).psterms@, context.map@, final(curr_answer)@.amap, qtid, fuel as nat) ==> forall|k: usize|
            #[trigger] final(curr_answer)@.amap.contains_key(k) && !old(curr_answer)@.amap.contains_key(k) ==> reaches(
                old(env).psterms@,
                context.map@,
                final(curr_answer)@.amap,
                qtid,
                k,
                fuel as nat,
            ),
        forall|k: usize|
            #[trigger] final(curr_answer)@.amap.contains_key(k) && !old(curr_answer)@.amap.contains_key(k) ==> subterm_of(
                old(env).psterms@,
                btid,
                final(curr_answer)@.amap[k],
            ),
        btid == qtid ==> r == Some(true) && final(curr_answer)@ == old(curr_answer)@,
        match_run(old(env).psterms@, context.map@, old(curr_answer)@, btid, qtid, fuel as nat).2 ==> r == match_run(
            old(env).psterms@,
            context.map@,
            old(curr_answer)@,
            btid,
            qtid,
            fuel as nat,
        ).0 && final(curr_answer)@ == match_run(old(env).psterms@, context.map@, old(curr_answer)@, btid, qtid, fuel as nat).1
            && final(env).attributes@ == old(env).attributes@,
        ({
            let w = pure_leaf_value(old(env).psterms@, context.map@, Some(old(curr_answer)@.amap), qtid);
            fuel > 0 && btid != qtid && btid.0 < old(env).psterms@.terms.len() && w is Some && is_value(w.unwrap())
        }) ==> ({
            let x = pure_leaf_value(old(env).psterms@, context.map@, Some(old(curr_answer)@.amap), qtid).unwrap();
            &&& r is Some
            &&& r == Some(true) ==> old(env).psterms@.terms[btid.0 as int] == x
            &&& old(env).psterms@.terms[btid.0 as int] != x ==> r == Some(false)
            &&& final(curr_answer)@ == old(curr_answer)@
        }),
    decreases depth, 4nat, fuel, qtid.0,
{
    proof {
        lemma_matching_extends_refl(curr_answer@);
        assert(pure_leaf_value(env.psterms@, context.map@, Some(curr_answer@.amap), qtid) is Some ==> qtid.0
            < env.psterms@.terms.len() && env.psterms@.terms[qtid.0 as int] is IFunctor) by {
            reveal(pure_leaf_value);
        }
    }
    if btid == qtid {
        return Some(true);
    }
    let n = env.psterms.len();
    if btid.0 >= n || qtid.0 >= n {
        return Some(false);
    }
    let ghost p0 = env.psterms@;
    let qterm = env.psterms.get_term(&qtid);
    match qterm {
        Term::AVariable(..) => {
            match context.get(&qtid) {
                Some(v) => {
                    if fuel == 0 {
                        return None;
                    }
                    return matching(btid, v, context, curr_answer, env, host, depth, fuel - 1);
                },
                None => {},
            }
            match curr_answer.get(&qtid) {
                Some(v) => {
                    if fuel == 0 {
                        return None;
                    }
                    let ghost m0 = curr_answer@.amap;
                    let r = matching(btid, v, context, curr_answer, env, host, depth, fuel - 1);
                    proof {
                        let fin = curr_answer@.amap;
                        assert(m0.contains_key(qtid.0));
                        assert(fin.contains_key(qtid.0) && fin[qtid.0] == v.0);
                        if ifun_free(p0, context.map@, fin, qtid, fuel as nat) {
                            assert(ifun_free(p0, context.map@, fin, v, (fuel - 1) as nat));
                            assert forall|k: usize| #[trigger] fin.contains_key(k) && !m0.contains_key(k) implies reaches(
                                p0,
                                context.map@,
                                fin,
                                qtid,
                                k,
                                fuel as nat,
                            ) by {
                                assert(reaches(p0, context.map@, fin, v, k, (fuel - 1) as nat));
                            }
                        }
                    }
                    r
                },
                None => {
                    let ghost a0 = curr_answer@;
                    curr_answer.push(qtid, btid);
                    proof {
                        let aa = step_avars(a0.log.last());
                        let ba = step_avars(curr_answer@.log.last());
                        assert(ba == aa.push(qtid));
                        assert(ba.take(aa.len() as int) =~= aa);
                        assert(curr_answer@.log.drop_last() =~= a0.log.drop_last());
                        assert forall|k: usize| #[trigger] curr_answer@.amap.contains_key(k) && !a0.amap.contains_key(k) implies ba.contains(
                            TermId(k),
                        ) by {
                            assert(k == qtid.0);
                            assert(ba[aa.len() as int] == qtid);
                        }
                        assert forall|k: usize| #[trigger] curr_answer@.amap.contains_key(k) && !a0.amap.contains_key(k) implies reaches(
                            p0,
                            context.map@,
                            curr_answer@.amap,
                            qtid,
                            k,
                            fuel as nat,
                        ) by {
                            assert(k == qtid.0);
                        }
                        assert forall|k: usize| #[trigger] curr_answer@.amap.contains_key(k) && !a0.amap.contains_key(k) implies subterm_of(
                            p0,
                            btid,
                            curr_answer@.amap[k],
                        ) by {
                            assert(k == qtid.0);
                            assert(curr_answer@.amap[k] == btid.0);
                        }
                    }
                    Some(true)
                },
            }
        },
        Term::EVariable(..) => {
            match context.get(&qtid) {
                Some(v) => {
                    if fuel == 0 {
                        return None;
                    }
                    matching(btid, v, context, curr_answer, env, host, depth, fuel - 1)
                },
                None => Some(false),
            }
        },
        Term::SFunctor(q_sid, q_args) => {
            let b_args = match env.psterms.term_ref(&btid) {
                Term::SFunctor(b_sid, b_args) => if *b_sid == q_sid {
                    Some(crate::term::copy_tids(b_args))
                } else {
                    None
                },
                _ => None,
            };
            let b_args = match b_args {
                Some(b) => b,
                None => {
                    return Some(false);
                },
            };
            proof {
                assert(p0.terms[btid.0 as int] == TermV::SFunctor(q_sid, b_args@));
                assert forall|k: int| 0 <= k < b_args@.len() implies (#[trigger] b_args@[k]).0 < btid.0 by {
                    assert(args_of(p0.terms[btid.0 as int])[k] == b_args@[k]);
                }
                assert(q_args@ == args_of(p0.terms[qtid.0 as int]));
                assert forall|k: int| 0 <= k < q_args@.len() implies (#[trigger] q_args@[k]).0 < qtid.0 by {
                    assert(args_of(p0.terms[qtid.0 as int])[k] == q_args@[k]);
                }
            }
            let m = if q_args.len() < b_args.len() {
                q_args.len()
            } else {
                b_args.len()
            };
            let mut i: usize = 0;
            while i < m
                invariant
                    env_ok(env),
                    env.psterms@ == p0,
                    p0 == old(env).psterms@,
                    env.base == old(env).base,
                    env.bid == old(env).bid,
                    matching_step(curr_answer@),
                    curr_answer@.log.len() == old(curr_answer)@.log.len(),
                    forall|j: int| 0 <= j < old(curr_answer)@.log.len() ==> qatom_of(#[trigger] curr_answer@.log[j]) == qatom_of(old(curr_answer)@.log[j]),
                    same_search(old(curr_answer)@, curr_answer@),
                    btid != qtid,
                    m <= q_args@.len(),
                    m <= b_args@.len(),
                    m == (if q_args@.len() < b_args@.len() { q_args@.len() } else { b_args@.len() }),
                    i <= m,
                    forall|k: int| 0 <= k < q_args@.len() ==> (#[trigger] q_args@[k]).0 < qtid.0,
                    keeps(old(curr_answer)@.amap, curr_answer@.amap),
                    matching_step(old(curr_answer)@),
                    matching_extends(old(curr_answer)@, curr_answer@),
                    args_match(p0, context.map@, curr_answer@.amap, b_args@, q_args@, fuel as nat, qtid.0 as nat, i as nat),
                    qtid.0 < p0.terms.len(),
                    btid.0 < p0.terms.len(),
                    p0.terms[qtid.0 as int] == TermV::SFunctor(q_sid, q_args@),
                    p0.terms[btid.0 as int] == TermV::SFunctor(q_sid, b_args@),
                    pure_leaf_value(p0, context.map@, Some(old(curr_answer)@.amap), qtid) is None,
                    (forall|j: int| 0 <= j < i ==> ifun_free(p0, context.map@, curr_answer@.amap, #[trigger] q_args@[j], fuel as nat))
                        ==> forall|k: usize|
                        #[trigger] curr_answer@.amap.contains_key(k) && !old(curr_answer)@.amap.contains_key(k)
                            ==> reaches_before(p0, context.map@, curr_answer@.amap, q_args@, i as int, k, fuel as nat),
                    forall|k: usize|
                        #[trigger] curr_answer@.amap.contains_key(k) && !old(curr_answer)@.amap.contains_key(k)
                            ==> subterm_of(p0, btid, curr_answer@.amap[k]),
                    forall|k: int| 0 <= k < b_args@.len() ==> (#[trigger] b_args@[k]).0 < btid.0,
                    match_run(p0, context.map@, old(curr_answer)@, btid, qtid, fuel as nat).2 ==> env.attributes@
                        == old(env).attributes@,
                    match_run(p0, context.map@, old(curr_answer)@, btid, qtid, fuel as nat).2 ==> args_run(
                        p0,
                        context.map@,
                        curr_answer@,
                        b_args@,
                        q_args@,
                        fuel as nat,
                        qtid.0 as nat,
                        i as nat,
                        m as nat,
                    ) == match_run(p0, context.map@, old(curr_answer)@, btid, qtid, fuel as nat),
                decreases m - i,
            {
                let ghost m0 = curr_answer@.amap;
                let ghost ab = curr_answer@;
                let r = matching(b_args[i], q_args[i], context, curr_answer, env, host, depth, fuel);
                proof {
                    assert(q_args@[i as int].0 < qtid.0);
                    let step = match_run(p0, context.map@, ab, b_args@[i as int], q_args@[i as int], fuel as nat);
                    assert(args_run(p0, context.map@, ab, b_args@, q_args@, fuel as nat, qtid.0 as nat, i as nat, m as nat)
                        == if !step.2 || step.0 != Some(true) {
                        step
                    } else {
                        args_run(p0, context.map@, step.1, b_args@, q_args@, fuel as nat, qtid.0 as nat, (i + 1) as nat, m as nat)
                    });
                    let m1 = curr_answer@.amap;
                    assert forall|k: usize| #[trigger] m1.contains_key(k) && !old(curr_answer)@.amap.contains_key(k) implies subterm_of(
                        p0,
                        btid,
                        m1[k],
                    ) by {
                        if !m0.contains_key(k) {
                            assert(subterm_of(p0, b_args@[i as int], m1[k]));
                            assert(args_of(p0.terms[btid.0 as int]) == b_args@);
                            assert(args_of(p0.terms[btid.0 as int])[i as int] == b_args@[i as int]);
                        }
                    }
                    if forall|j: int| 0 <= j < i + 1 ==> ifun_free(p0, context.map@, m1, #[trigger] q_args@[j], fuel as nat) {
                        assert forall|j: int| 0 <= j < i implies ifun_free(p0, context.map@, m0, #[trigger] q_args@[j], fuel as nat) by {
                            lemma_ifun_free_anti(p0, context.map@, m0, m1, q_args@[j], fuel as nat);
                        }
                        assert forall|k: usize| #[trigger] m1.contains_key(k) && !old(curr_answer)@.amap.contains_key(k) implies reaches_before(
                            p0,
                            context.map@,
                            m1,
                            q_args@,
                            i + 1,
                            k,
                            fuel as nat,
                        ) by {
                            if m0.contains_key(k) {
                                let j = choose|j: int| 0 <= j < i && reaches(p0, context.map@, m0, #[trigger] q_args@[j], k, fuel as nat);
                                lemma_reaches_mono(p0, context.map@, m0, m1, q_args@[j], k, fuel as nat);
                                assert(reaches(p0, context.map@, m1, q_args@[j], k, fuel as nat));
                            } else {
                                assert(ifun_free(p0, context.map@, m1, q_args@[i as int], fuel as nat));
                                assert(reaches(p0, context.map@, m1, q_args@[i as int], k, fuel as nat));
                            }
                        }
                    }
                    if ifun_free(p0, context.map@, m1, qtid, fuel as nat) {
                        lemma_reaches_close(p0, context.map@, m1, old(curr_answer)@.amap, qtid, q_args@, (i + 1) as int, fuel as nat);
                    }
                    lemma_matching_extends_trans(old(curr_answer)@, ab, curr_answer@);
                    lemma_args_match_mono(p0, context.map@, m0, curr_answer@.amap, b_args@, q_args@, fuel as nat, qtid.0 as nat, i as nat);
                    assert(keeps(old(curr_answer)@.amap, curr_answer@.amap)) by {
                        assert forall|k: usize| #[trigger] old(curr_answer)@.amap.contains_key(k) implies curr_answer@.amap.contains_key(k)
                            && curr_answer@.amap[k] == old(curr_answer)@.amap[k] by {
                            assert(m0.contains_key(k));
                        }
                    }
                }
                match r {
                    Some(true) => {},
                    _ => {
                        proof {
                            let fin = curr_answer@.amap;
                            assert(p0.terms[qtid.0 as int] == TermV::SFunctor(q_sid, q_args@));
                            assert(p0.terms[btid.0 as int] == TermV::SFunctor(q_sid, b_args@));
                            if ifun_free(p0, context.map@, fin, qtid, fuel as nat) {
                                assert(q_args@[i as int].0 < qtid.0);
                                let qa = q_args@;
                                assert(args_of(p0.terms[qtid.0 as int]) == qa);
                                assert(args_of(p0.terms[qtid.0 as int])[i as int] == qa[i as int]);
                                assert(ifun_free(p0, context.map@, fin, qa[i as int], fuel as nat));
                                if matches_under(p0, context.map@, fin, btid, qtid, fuel as nat) {
                                    lemma_args_match_at(
                                        p0,
                                        context.map@,
                                        fin,
                                        b_args@,
                                        q_args@,
                                        fuel as nat,
                                        qtid.0 as nat,
                                        m as nat,
                                        i as nat,
                                    );
                                }
                            }
                        }
                        return r;
                    },
                }
                i = i + 1;
            }
            proof {
                assert(p0.terms[qtid.0 as int] == TermV::SFunctor(q_sid, q_args@));
                assert(p0.terms[btid.0 as int] == TermV::SFunctor(q_sid, b_args@));
                if ifun_free(p0, context.map@, curr_answer@.amap, qtid, fuel as nat) {
                    lemma_reaches_close(p0, context.map@, curr_answer@.amap, old(curr_answer)@.amap, qtid, q_args@, i as int, fuel as nat);
                }
            }
            Some(true)
        },
        Term::IFunctor(..) => {
            let p = env.psterms.len();
            let ghost a0 = curr_answer@;
            let ghost want = pure_leaf_value(p0, context.map@, Some(a0.amap), qtid);
            let new_qtid = processing(qtid, context, Some(&*curr_answer), env, &*curr_answer, host, depth, fuel);
            let ghost pp = env.psterms@;
            let new_qtid = match new_qtid {
                ProcessingResult::Error => {
                    let ghost p1 = env.psterms@;
                    env.psterms.back_to(p);
                    proof {
                        lemma_back_to_restores(p0, p1, env.psterms@);
                    }
                    return None;
                },
                ProcessingResult::New(t) => t,
                ProcessingResult::Existing(t) => t,
            };
            if fuel == 0 {
                let ghost p1 = env.psterms@;
                env.psterms.back_to(p);
                proof {
                    lemma_back_to_restores(p0, p1, env.psterms@);
                }
                return None;
            }
            let ghost a1 = curr_answer@.amap;
            proof {
                if want is Some && is_value(want.unwrap()) && btid.0 < p0.terms.len() {
                    let x = want.unwrap();
                    assert(pp.terms[new_qtid.0 as int] == x);
                    assert(pp.terms.subrange(0, p0.terms.len() as int)[btid.0 as int] == p0.terms[btid.0 as int]);
                    assert(match_run(pp, context.map@, a0, btid, new_qtid, (fuel - 1) as nat) == if btid == new_qtid {
                        (Some(true), a0, true)
                    } else {
                        (Some(false), a0, true)
                    });
                }
            }
            let m = matching(btid, new_qtid, context, curr_answer, env, host, depth, fuel - 1);
            let ghost p1 = env.psterms@;
            env.psterms.back_to(p);
            proof {
                lemma_back_to_restores(p0, p1, env.psterms@);
                assert forall|k: usize| #[trigger] curr_answer@.amap.contains_key(k) && !a1.contains_key(k) implies subterm_of(
                    p0,
                    btid,
                    curr_answer@.amap[k],
                ) by {
                    lemma_subterm_prefix(p1, p0, btid, curr_answer@.amap[k]);
                }
            }
            m
        },
        _ => Some(false),
    }
}

/// How a run of the prover ended: the formula was refuted (no branch is
/// left), no question has an answer, the step limit was reached, or an
/// interpreted function could not be evaluated.
#[derive(Copy, Clone, PartialEq, Eq, Structural, Debug)]
pub enum SolverResultType {
    Refuted,
    Exhausted,
    LimitReached,
    Error,
}

/// How a run ended, and after how many steps.
#[derive(Copy, Clone, PartialEq, Eq, Structural, Debug)]
pub struct SolverResult {
    pub t: SolverResultType,
    pub steps: usize,
}

/// A block of the branch being refuted: the answer that opened it, the
/// formula whose following formula (`eindex`) it adds, its context, its
/// identifier, and where the term tables ended when it was opened.
pub struct BranchBlock {
    pub aid: AnswerId,
    pub atqf: TqfId,
    pub eindex: usize,
    pub context: Context,
    pub bid: BlockId,
    pub psterms_car: usize,
    pub enabled: bool,
}

/// What opening a block gave.
#[derive(Copy, Clone, PartialEq, Eq, Structural, Debug)]
enum EnableResult {
    Enabled,
    FalseFound,
    Failed,
}

/// What the search for an answer among all questions gave.
#[derive(Copy, Clone, PartialEq, Eq, Structural, Debug)]
enum GlobalSearch {
    Found(AnswerId),
    NotFound,
    Failed,
}

/// What each question keeps, as its searches see it.
pub open spec fn qviews(qs: Seq<Question>) -> Seq<QView> {
    qs.map_values(|q: Question| QView { stack: views(q.curr_answer_stack@), answers: views(q.answers@) })
}

/// How a search among all questions ends, as far as the searches of the
/// questions are described (see [`local_end`]).
pub enum GlobalEnd {
    Found(AnswerId),
    NotFound,
    Failed,
    Open,
}

/// The search trying the questions of `items` from place `k` on, in order,
/// for the top block of `bstack`, the questions being `qs` and what they
/// keep `qv`: the first that finds an answer gives it; one that fails ends
/// the search.
#[verifier::opaque]
pub open spec fn global_run(
    p: PSTermsV,
    bs: Seq<BTerm>,
    attrs: Seq<Setting>,
    tqfs: Seq<Tqf>,
    bstack: Seq<BranchBlock>,
    qs: Seq<Question>,
    qv: Seq<QView>,
    items: Seq<StrategyItem>,
    k: nat,
) -> GlobalEnd
    decreases items.len() - k,
{
    if k >= items.len() {
        GlobalEnd::NotFound
    } else {
        let qi = items[k as int].qid.0;
        if qi < qs.len() && qs[qi as int].fstack_i < bstack.len() {
            let q = qs[qi as int];
            match local_end(
                p,
                bs,
                attrs,
                tqfs,
                bstack[q.fstack_i as int].context.map@,
                q.aformula,
                q.qid,
                qv[qi as int].stack,
                qv[qi as int].answers,
                bstack.last().bid,
                items[k as int].limit,
            ) {
                LocalEnd::Found(i, _) => GlobalEnd::Found(AnswerId(qi, i)),
                LocalEnd::NotFound(v) => global_run(p, bs, attrs, tqfs, bstack, qs, qv.update(qi as int, v), items, k + 1),
                LocalEnd::Failed => GlobalEnd::Failed,
                LocalEnd::Open => GlobalEnd::Open,
            }
        } else {
            global_run(p, bs, attrs, tqfs, bstack, qs, qv, items, k + 1)
        }
    }
}

/// One step of the search among all questions: the question at place `k`
/// is tried first.
pub proof fn lemma_global_step(
    p: PSTermsV,
    bs: Seq<BTerm>,
    attrs: Seq<Setting>,
    tqfs: Seq<Tqf>,
    bstack: Seq<BranchBlock>,
    qs: Seq<Question>,
    qv: Seq<QView>,
    items: Seq<StrategyItem>,
    k: nat,
)
    requires
        k < items.len(),
    ensures
        ({
            let qi = items[k as int].qid.0;
            global_run(p, bs, attrs, tqfs, bstack, qs, qv, items, k) == if qi < qs.len() && qs[qi as int].fstack_i
                < bstack.len() {
                match local_end(
                    p,
                    bs,
                    attrs,
                    tqfs,
                    bstack[qs[qi as int].fstack_i as int].context.map@,
                    qs[qi as int].aformula,
                    qs[qi as int].qid,
                    qv[qi as int].stack,
                    qv[qi as int].answers,
                    bstack.last().bid,
                    items[k as int].limit,
                ) {
                    LocalEnd::Found(i, _) => GlobalEnd::Found(AnswerId(qi, i)),
                    LocalEnd::NotFound(v) => global_run(p, bs, attrs, tqfs, bstack, qs, qv.update(qi as int, v), items, k + 1),
                    LocalEnd::Failed => GlobalEnd::Failed,
                    LocalEnd::Open => GlobalEnd::Open,
                }
            } else {
                global_run(p, bs, attrs, tqfs, bstack, qs, qv, items, k + 1)
            }
        }),
{
    reveal(global_run);
}

/// The search among all questions, past the last one, finds nothing.
pub proof fn lemma_global_end(
    p: PSTermsV,
    bs: Seq<BTerm>,
    attrs: Seq<Setting>,
    tqfs: Seq<Tqf>,
    bstack: Seq<BranchBlock>,
    qs: Seq<Question>,
    qv: Seq<QView>,
    items: Seq<StrategyItem>,
    k: nat,
)
    requires
        k >= items.len(),
    ensures
        global_run(p, bs, attrs, tqfs, bstack, qs, qv, items, k) == GlobalEnd::NotFound,
{
    reveal(global_run);
}

/// The global search's result `r` is how `g` says it ends.
spec fn global_outcome(g: GlobalEnd, r: GlobalSearch) -> bool {
    match g {
        GlobalEnd::Found(aid) => r == GlobalSearch::Found(aid),
        GlobalEnd::NotFound => r == GlobalSearch::NotFound,
        GlobalEnd::Failed => r == GlobalSearch::Failed,
        GlobalEnd::Open => true,
    }
}

/// How deeply `solve` may start provers inside provers.
pub const SOLVE_DEPTH: usize = 8;

/// Every formula that follows a formula is one of the formulas, stored
/// before it.
pub open spec fn tqfs_linked(t: Seq<Tqf>) -> bool {
    forall|i: int, k: int| 0 <= i < t.len() && 0 <= k < t[i].next@.len() ==> (#[trigger] t[i].next@[k]).0 < i
}

/// Whether block `b` adds a formula after which another follows the same
/// formula, and a fresh block identifier is left for it.
pub open spec fn has_next_formula(tqfs: Seq<Tqf>, b: BranchBlock, counter: usize) -> bool {
    &&& b.atqf.0 < tqfs.len()
    &&& tqfs[b.atqf.0 as int].next@.len() > 0
    &&& b.eindex < tqfs[b.atqf.0 as int].next@.len() - 1
    &&& counter < usize::MAX
}

/// Block `b` moved to the next formula, under the fresh identifier
/// `counter + 1`.
pub open spec fn moved_on(b: BranchBlock, counter: usize) -> BranchBlock {
    BranchBlock { eindex: (b.eindex + 1) as usize, bid: BlockId((counter + 1) as usize), ..b }
}

/// The term `t` is a fact of the base that is not deleted.
pub open spec fn live_in(entries: Seq<BTerm>, t: TermId) -> bool {
    exists|i: int| 0 <= i < entries.len() && #[trigger] entries[i].term == t && !entries[i].deleted
}

/// The entries of `a` come first in `b`.
pub open spec fn base_grew(a: Seq<BTerm>, b: Seq<BTerm>) -> bool {
    a.len() <= b.len() && b.subrange(0, a.len() as int) == a
}

/// Each atom of the conjunct `conj` gave a fact of the base: the atom
/// itself for the first block (`first`), else what rewriting it under the
/// context `ctx` gave.
pub open spec fn atoms_added(
    p: PSTermsV,
    entries: Seq<BTerm>,
    conj: Seq<TermId>,
    ctx: Map<usize, usize>,
    first: bool,
) -> bool {
    forall|k: int| 0 <= k < conj.len() ==> #[trigger] atom_added(p, entries, conj[k], ctx, first)
}

/// The atom `a` gave a fact of the base: itself for the first block, else
/// what rewriting it under `ctx` gave.
pub open spec fn atom_added(p: PSTermsV, entries: Seq<BTerm>, a: TermId, ctx: Map<usize, usize>, first: bool) -> bool {
    exists|v: TermId|
        #[trigger] live_in(entries, v) && v.0 != 0 && (if first {
            v == a
        } else {
            rewrites_to(p, ctx, None, a.0 as int, v.0 as int)
        })
}

/// Answer `aid` (question `aid.0`, answer `aid.1`) exists, and its
/// question's block and formula do.
pub open spec fn answer_usable(questions: Seq<Question>, bstack: Seq<BranchBlock>, tqfs: Seq<Tqf>, aid: AnswerId) -> bool {
    &&& aid.0 < questions.len()
    &&& aid.1 < questions[aid.0 as int].answers@.len()
    &&& questions[aid.0 as int].fstack_i < bstack.len()
    &&& questions[aid.0 as int].aformula.0 < tqfs.len()
}

/// Question `j` resumes a sound search (see [`resumes_soundly`]) under the
/// context of its block.
pub open spec fn question_resumes(
    questions: Seq<Question>,
    p: PSTermsV,
    base: Seq<BTerm>,
    tqfs: Seq<Tqf>,
    bstack: Seq<BranchBlock>,
    j: int,
) -> bool {
    0 <= j < questions.len() && questions[j].fstack_i < bstack.len() ==> resumes_soundly(
        questions[j],
        p,
        base,
        tqfs,
        bstack[questions[j].fstack_i as int].context.map@,
    )
}

proof fn lemma_resumes_grows(q: Question, p: PSTermsV, r: PSTermsV, base: Seq<BTerm>, tqfs: Seq<Tqf>, ctx: Map<usize, usize>)
    requires
        grows(p, r),
        resumes_soundly(q, p, base, tqfs, ctx),
    ensures
        resumes_soundly(q, r, base, tqfs, ctx),
{
    if q.curr_answer_stack@.len() > 0 && q.aformula.0 < tqfs.len() {
        lemma_search_sound_grows(p, r, base, tqfs[q.aformula.0 as int].conj@, ctx, q.curr_answer_stack@.last()@);
    }
}

/// The formula list is `f` translated: its last formula is the root of
/// `f`, translated under the scope of its own variables.
pub open spec fn translates(p: PSTermsV, tqfs: Seq<Tqf>, f: PFormulaV) -> bool {
    &&& tqfs.len() > 0
    &&& tqf_reads_as(p, tqfs, tqfs.len() - 1, f, seq![var_map(f.vars, tqfs.last().vars@)])
}

/// Whether a text is a formula the prover can start on: short enough to
/// count, read without error, and with at least one formula line.
pub open spec fn text_accepted(s: Seq<char>) -> bool {
    &&& s.len() <= max_text_len()
    &&& g_text(s) matches Ok(f)
    &&& f.next.len() > 0
}

/// Why a text is refused (see [`text_accepted`]).
pub open spec fn text_error(s: Seq<char>) -> ParseError {
    if s.len() > max_text_len() {
        ParseError::TooLong
    } else {
        match g_text(s) {
            Err(e) => e,
            Ok(_) => ParseError::NoFormula,
        }
    }
}

/// The prover: the term tables, base and attributes, the formula tree,
/// the questions asked, and the stack of blocks of the current branch.
pub struct Solver {
    env: PEnv,
    tqfs: Vec<Tqf>,
    questions: Vec<Question>,
    bstack: Vec<BranchBlock>,
    curr_bid: BlockId,
    curr_step: usize,
    strategy: Strategy,
    depth: usize,
}

/// The variables `vars` are existential variables of the tables.
pub open spec fn all_evars(p: PSTermsV, vars: Seq<TermId>) -> bool {
    forall|i: int| 0 <= i < vars.len() ==> (#[trigger] vars[i]).0 < p.terms.len() && p.terms[vars[i].0 as int] is EVariable
}

/// The first formula that follows the root of `tqfs` (the last formula):
/// the formula whose atoms are the facts that start the first branch.
pub open spec fn first_formula(tqfs: Seq<Tqf>) -> Tqf {
    tqfs[tqfs.last().next@[0].0 as int]
}

/// The first formula is existential (or has no variables) and has no atom
/// `false`.
pub open spec fn first_formula_opens(tqfs: Seq<Tqf>) -> bool {
    &&& tqfs.len() > 0
    &&& tqfs.last().next@.len() > 0
    &&& (first_formula(tqfs).quantifier == Quantifier::Exists || first_formula(tqfs).vars@.len() == 0)
    &&& forall|k: int| 0 <= k < first_formula(tqfs).conj@.len() ==> (#[trigger] first_formula(tqfs).conj@[k]).0 != 0
}

/// Whether the identifiers of `evars` are existential variables of the tables.
fn evars_ok(evars: &Vec<TermId>, psterms: &PSTerms) -> (r: bool)
    ensures
        r == forall|i: int|
            0 <= i < evars@.len() ==> (#[trigger] evars@[i]).0 < psterms@.terms.len() && psterms@.terms[evars@[i].0 as int] is EVariable,
{
    let mut i: usize = 0;
    while i < evars.len()
        invariant
            i <= evars@.len(),
            forall|j: int|
                0 <= j < i ==> (#[trigger] evars@[j]).0 < psterms@.terms.len() && psterms@.terms[evars@[j].0 as int] is EVariable,
        decreases evars@.len() - i,
    {
        if evars[i].0 >= psterms.len() {
            return false;
        }
        match psterms.term_ref(&evars[i]) {
            Term::EVariable(..) => {},
            _ => {
                return false;
            },
        }
        i = i + 1;
    }
    true
}

impl Solver {
    /// The prover invariant: the environment is well formed, the formula
    /// tree is linked, and the strategy is one the prover runs.
    pub closed spec fn inv(&self) -> bool {
        &&& env_ok(&self.env)
        &&& tqfs_linked(self.tqfs@)
        &&& !(self.strategy is User)
    }

    /// The formula tree.
    pub closed spec fn formulas(&self) -> Seq<Tqf> {
        self.tqfs@
    }

    /// The term tables.
    pub closed spec fn tables(&self) -> PSTermsV {
        self.env.psterms@
    }

    /// The entries of the base.
    pub closed spec fn base_entries(&self) -> Seq<BTerm> {
        self.env.base.entries()
    }

    /// The attribute settings.
    pub closed spec fn settings(&self) -> Seq<Setting> {
        self.env.attributes@
    }

    /// The blocks of the branch stack.
    pub closed spec fn blocks(&self) -> Seq<BranchBlock> {
        self.bstack@
    }

    /// The last block identifier given out.
    pub closed spec fn block_counter(&self) -> usize {
        self.curr_bid.0
    }

    /// `self` and `other` agree in everything but their blocks and their
    /// block counter: the term tables, the base, the attributes, the
    /// formulas, the questions, the step, the strategy and the depth.
    pub closed spec fn same_but_blocks(&self, other: &Solver) -> bool {
        &&& self.env == other.env
        &&& self.tqfs@ == other.tqfs@
        &&& self.questions@ == other.questions@
        &&& self.curr_step == other.curr_step
        &&& self.strategy == other.strategy
        &&& self.depth == other.depth
    }

    /// The number of answers taken so far (the step counter).
    pub closed spec fn step(&self) -> usize {
        self.curr_step
    }

    /// The strategy is one the prover runs by itself (not asking the host).
    pub closed spec fn automatic(&self) -> bool {
        self.strategy is PlainShift || self.strategy is General
    }

    /// `items` is the list of questions to try the automatic strategy gives
    /// at this step.
    pub closed spec fn strategy_gives(&self, items: Seq<StrategyItem>) -> bool {
        match self.strategy {
            Strategy::PlainShift => items == plain_shift_items(self.questions@.len(), self.curr_step),
            Strategy::General => general_order(items, self.questions@, self.tqfs@, (self.bstack@.len() - 1) as usize),
            _ => false,
        }
    }

    /// How the search for an answer among all questions ends when it tries
    /// them in the order of `items` (see [`global_run`]).
    pub closed spec fn search_with(&self, items: Seq<StrategyItem>) -> GlobalEnd {
        global_run(
            self.env.psterms@,
            self.env.base.entries(),
            self.env.attributes@,
            self.tqfs@,
            self.bstack@,
            self.questions@,
            qviews(self.questions@),
            items,
            0,
        )
    }

    /// The questions asked.
    pub closed spec fn question_list(&self) -> Seq<Question> {
        self.questions@
    }

    /// The number of blocks on the branch stack.
    pub closed spec fn stack_len(&self) -> nat {
        self.bstack@.len()
    }

    /// How deeply provers started by `solve` may nest under this one.
    pub closed spec fn depth_of(&self) -> nat {
        self.depth as nat
    }

    /// The number of following formulas the top block has still to try.
    pub closed spec fn top_rest(&self) -> nat {
        if self.bstack@.len() > 0 && self.bstack@.last().atqf.0 < self.tqfs@.len() {
            let esize = self.tqfs@[self.bstack@.last().atqf.0 as int].next@.len();
            if self.bstack@.last().eindex < esize {
                (esize - self.bstack@.last().eindex) as nat
            } else {
                0
            }
        } else {
            0
        }
    }

    /// The formula that the top block adds (the following formula it has
    /// reached).
    spec fn top_formula(&self) -> TqfId {
        self.tqfs@[self.bstack@.last().atqf.0 as int].next@[self.bstack@.last().eindex as int]
    }

    /// The top block can be opened: it names a following formula, and the
    /// variables of that formula are existential variables of the tables.
    spec fn opens(&self) -> bool {
        &&& self.bstack@.len() > 0
        &&& self.bstack@.last().atqf.0 < self.tqfs@.len()
        &&& self.bstack@.last().eindex < self.tqfs@[self.bstack@.last().atqf.0 as int].next@.len()
        &&& all_evars(self.env.psterms@, self.tqfs@[self.top_formula().0 as int].vars@)
    }

    /// The answer the top block rests on exists.
    spec fn top_answer_exists(&self) -> bool {
        let aid = self.bstack@.last().aid;
        aid.0 < self.questions@.len() && aid.1 < self.questions@[aid.0 as int].answers@.len()
    }

    /// Why opening the top block failed: it cannot be opened; or, beyond the
    /// first block, its answer is gone, or rewriting one of the atoms of its
    /// formula under its context can fail.
    spec fn top_fails(&self) -> bool {
        &&& self.bstack@.len() > 0
        &&& {
            ||| !self.opens()
            ||| self.bstack@.len() > 1 && !self.top_answer_exists()
            ||| self.bstack@.len() > 1 && exists|k: int|
                0 <= k < self.tqfs@[self.top_formula().0 as int].conj@.len() && may_fail(
                    self.env.psterms@,
                    self.bstack@.last().context.map@,
                    None,
                    (#[trigger] self.tqfs@[self.top_formula().0 as int].conj@[k]).0 as int,
                )
        }
    }

    /// The level of the top block: the number of blocks under it.
    pub fn level(&self) -> (l: usize)
        requires
            self.stack_len() > 0,
        ensures
            l == self.stack_len() - 1,
    {
        self.bstack.len() - 1
    }

    /// The prover for the formula tree `pf`, its first block opened.
    pub fn from_pf(pf: PlainFormula, strategy: Strategy) -> (s: Solver)
        requires
            formula_ok(&pf),
            pf.next@.len() >= 1,
            !(strategy is User),
        ensures
            s.inv(),
            s.step() == 0,
            s.block_counter() == 1,
            s.settings() == Seq::<Setting>::empty(),
            s.blocks()[0].atqf == TqfId((s.formulas().len() - 1) as usize),
            s.blocks()[0].eindex == 0,
            s.blocks()[0].bid == BlockId(1),
            first_formula_opens(s.formulas()) ==> s.blocks()[0].enabled && s.question_list().len() == first_formula(
                s.formulas(),
            ).next@.len() && forall|j: int|
                0 <= j < s.question_list().len() ==> {
                    let q = #[trigger] s.question_list()[j];
                    &&& q.aformula == first_formula(s.formulas()).next@[j]
                    &&& q.qid == QuestionId(j as usize)
                    &&& q.bid == BlockId(1)
                    &&& q.fstack_i == 0
                    &&& q.answers@.len() == 0
                    &&& q.curr_answer_stack@.len() == 0
                },
            s.stack_len() == 1,
            s.depth_of() == SOLVE_DEPTH,
            translates(s.tables(), s.formulas(), pf_view(pf)),
            first_formula_opens(s.formulas()) ==> forall|k: int|
                0 <= k < first_formula(s.formulas()).conj@.len() ==> live_in(
                    s.base_entries(),
                    #[trigger] first_formula(s.formulas()).conj@[k],
                ),
    {
        Self::from_pf_at(pf, strategy, SOLVE_DEPTH)
    }

    fn from_pf_at(pf: PlainFormula, strategy: Strategy, depth: usize) -> (s: Solver)
        requires
            formula_ok(&pf),
            pf.next@.len() >= 1,
            !(strategy is User),
        ensures
            s.inv(),
            s.step() == 0,
            s.block_counter() == 1,
            s.settings() == Seq::<Setting>::empty(),
            s.blocks()[0].atqf == TqfId((s.formulas().len() - 1) as usize),
            s.blocks()[0].eindex == 0,
            s.blocks()[0].bid == BlockId(1),
            first_formula_opens(s.formulas()) ==> s.blocks()[0].enabled && s.question_list().len() == first_formula(
                s.formulas(),
            ).next@.len() && forall|j: int|
                0 <= j < s.question_list().len() ==> {
                    let q = #[trigger] s.question_list()[j];
                    &&& q.aformula == first_formula(s.formulas()).next@[j]
                    &&& q.qid == QuestionId(j as usize)
                    &&& q.bid == BlockId(1)
                    &&& q.fstack_i == 0
                    &&& q.answers@.len() == 0
                    &&& q.curr_answer_stack@.len() == 0
                },
            s.stack_len() == 1,
            s.depth_of() == depth,
            translates(s.tables(), s.formulas(), pf_view(pf)),
            first_formula_opens(s.formulas()) ==> forall|k: int|
                0 <= k < first_formula(s.formulas()).conj@.len() ==> live_in(
                    s.base_entries(),
                    #[trigger] first_formula(s.formulas()).conj@[k],
                ),
    {
        let (mut psterms, mut fmap) = init();
        let mut smap = NameMap::new();
        smap.insert(string_of(&vec!['f', 'a', 'l', 's', 'e']), 0);
        smap.insert(string_of(&vec!['t', 'r', 'u', 'e']), 1);
        let mut vstack: Vec<NameMap> = Vec::new();
        let mut tqfs: Vec<Tqf> = Vec::new();
        proof {
            assert(scopes_view(vstack@) =~= Seq::<Map<Seq<char>, usize>>::empty());
            assert(tqfs_ok(tqfs@, psterms@));
        }
        let tid = plain_to_tqf(&pf, &mut psterms, &mut vstack, &mut smap, &mut fmap, &mut tqfs);
        let ghost p_tr = psterms@;
        proof {
            let f = pf_view(pf);
            assert(scopes_view(vstack@.subrange(0, 1)) =~= seq![var_map(f.vars, tqfs@.last().vars@)]);
            assert(translates(p_tr, tqfs@, f));
            assert forall|i: int, k: int| 0 <= i < tqfs@.len() && 0 <= k < tqfs@[i].next@.len() implies (
            #[trigger] tqfs@[i].next@[k]).0 < i by {
                assert(tqf_ok(tqfs@[i], i, psterms@));
            }
        }
        let car = psterms.len();
        let first_block = BranchBlock {
            aid: AnswerId(1000000000, 1000000000),
            atqf: tid,
            eindex: 0,
            context: Context::new_empty(),
            bid: BlockId(1),
            psterms_car: car,
            enabled: false,
        };
        let mut bstack: Vec<BranchBlock> = Vec::new();
        bstack.push(first_block);
        let mut solver = Solver {
            env: PEnv { psterms: psterms, base: Base::new(), attributes: Attributes::new(), bid: BlockId(0) },
            tqfs: tqfs,
            questions: Vec::new(),
            bstack: bstack,
            curr_bid: BlockId(1),
            curr_step: 0,
            strategy: strategy,
            depth: depth,
        };
        match solver.open_top() {
            Some((top, eid)) => {
                let conj = copy_tids(&solver.tqfs[eid.0].conj);
                let ghost t = solver.tqfs@;
                let r = solver.close_top(top, eid, &conj);
                proof {
                    if first_formula_opens(t) {
                        assert(eid == t.last().next@[0]);
                        assert(forall|k: int| 0 <= k < conj@.len() ==> (#[trigger] conj@[k]).0 != 0);
                        assert(r == EnableResult::Enabled);
                        assert(solver.bstack@[0] == top);
                        assert forall|j: int| 0 <= j < solver.questions@.len() implies {
                            let q = #[trigger] solver.questions@[j];
                            &&& q.aformula == first_formula(t).next@[j]
                            &&& q.qid == QuestionId(j as usize)
                            &&& q.bid == BlockId(1)
                            &&& q.fstack_i == 0
                            &&& q.answers@.len() == 0
                            &&& q.curr_answer_stack@.len() == 0
                        } by {
                            assert(solver.questions@[0 + j] == solver.questions@[j]);
                        }
                    }
                }
            },
            None => {},
        }
        proof {
            let f = pf_view(pf);
            let t = solver.tqfs@;
            assert(t.subrange(0, t.len() as int) =~= t);
            lemma_tqf_reads_as_extends(
                p_tr,
                solver.env.psterms@,
                t,
                t,
                t.len() - 1,
                f,
                seq![var_map(f.vars, t.last().vars@)],
            );
        }
        solver
    }

    /// The prover for the formula written in `s` (see the parser), its
    /// first block opened.
    pub fn parse_string(s: &str, strategy: Strategy) -> (r: Result<Solver, ParseError>)
        requires
            !(strategy is User),
        ensures
            r is Err <==> !text_accepted(s@),
            r matches Err(e) ==> e == text_error(s@),
            r matches Ok(sv) ==> sv.inv() && sv.stack_len() == 1 && sv.depth_of() == SOLVE_DEPTH,
            r matches Ok(sv) ==> g_text(s@) matches Ok(f) && translates(sv.tables(), sv.formulas(), f),
            r matches Ok(sv) ==> (first_formula_opens(sv.formulas()) ==> forall|k: int|
                0 <= k < first_formula(sv.formulas()).conj@.len() ==> live_in(
                    sv.base_entries(),
                    #[trigger] first_formula(sv.formulas()).conj@[k],
                )),
    {
        Self::parse_string_at(s, strategy, SOLVE_DEPTH)
    }

    fn parse_string_at(s: &str, strategy: Strategy, depth: usize) -> (r: Result<Solver, ParseError>)
        requires
            !(strategy is User),
        ensures
            r is Err <==> !text_accepted(s@),
            r matches Err(e) ==> e == text_error(s@),
            r matches Ok(sv) ==> sv.inv() && sv.stack_len() == 1 && sv.depth_of() == depth,
            r matches Ok(sv) ==> g_text(s@) matches Ok(f) && translates(sv.tables(), sv.formulas(), f),
            r matches Ok(sv) ==> (first_formula_opens(sv.formulas()) ==> forall|k: int|
                0 <= k < first_formula(sv.formulas()).conj@.len() ==> live_in(
                    sv.base_entries(),
                    #[trigger] first_formula(sv.formulas()).conj@[k],
                )),
    {
        let n = chars_of(s).len();
        if n as u64 > 0x0fff_ffff_ffff_ffff {
            return Err(ParseError::TooLong);
        }
        match parse_string(s) {
            Ok(pf) => {
                proof {
                    lemma_pf_view_next(pf);
                }
                if pf.next.len() == 0 {
                    Err(ParseError::NoFormula)
                } else {
                    Ok(Self::from_pf_at(pf, strategy, depth))
                }
            },
            Err(e) => Err(e),
        }
    }

    /// Takes the top block off the stack, opens it (fresh instances of the
    /// existential variables of the formula it adds are bound in its
    /// context) and gives it with that formula; `None` when the stack is
    /// empty or the block names no formula.
    fn open_top(&mut self) -> (r: Option<(BranchBlock, TqfId)>)
        requires
            old(self).inv(),
        ensures
            final(self).env.attributes@ == old(self).env.attributes@,
            final(self).curr_step == old(self).curr_step,
            final(self).inv(),
            final(self).curr_bid == old(self).curr_bid,
            final(self).depth == old(self).depth,
            final(self).tqfs@ == old(self).tqfs@,
            final(self).env.psterms@.extends(old(self).env.psterms@),
            final(self).env.base == old(self).env.base,
            final(self).questions@ == old(self).questions@,
            r is None ==> final(self).bstack@ == old(self).bstack@,
            r is None ==> final(self).env.psterms@ == old(self).env.psterms@,
            old(self).bstack@.len() > 0 && old(self).bstack@.last().atqf.0 < old(self).tqfs@.len()
                && old(self).bstack@.last().eindex < old(self).tqfs@[old(self).bstack@.last().atqf.0 as int].next@.len()
                && all_evars(
                old(self).env.psterms@,
                old(self).tqfs@[old(self).tqfs@[old(self).bstack@.last().atqf.0 as int].next@[old(
                    self,
                ).bstack@.last().eindex as int].0 as int].vars@,
            ) ==> r is Some,
            r matches Some(x) ==> {
                &&& old(self).bstack@.len() > 0
                &&& final(self).bstack@ == old(self).bstack@.drop_last()
                &&& x.0.atqf == old(self).bstack@.last().atqf
                &&& x.0.eindex == old(self).bstack@.last().eindex
                &&& x.0.bid == old(self).bstack@.last().bid
                &&& x.0.aid == old(self).bstack@.last().aid
                &&& x.0.atqf.0 < old(self).tqfs@.len()
                &&& x.0.eindex < old(self).tqfs@[x.0.atqf.0 as int].next@.len()
                &&& x.1 == old(self).tqfs@[x.0.atqf.0 as int].next@[x.0.eindex as int]
                &&& x.1.0 < old(self).tqfs@.len()
                &&& all_evars(old(self).env.psterms@, old(self).tqfs@[x.1.0 as int].vars@)
                &&& x.0.enabled
            },
    {
        proof {
            PSTerms::lemma_extends_refl(self.env.psterms@);
        }
        let mut top = match self.bstack.pop() {
            Some(t) => t,
            None => {
                return None;
            },
        };
        if top.atqf.0 >= self.tqfs.len() || top.eindex >= self.tqfs[top.atqf.0].next.len() {
            self.bstack.push(top);
            return None;
        }
        let eid = self.tqfs[top.atqf.0].next[top.eindex];
        if !evars_ok(&self.tqfs[eid.0].vars, &self.env.psterms) {
            self.bstack.push(top);
            return None;
        }
        top.enabled = true;
        top.psterms_car = self.env.psterms.len();
        top.context.push_evars(&self.tqfs[eid.0].vars, &mut self.env.psterms, top.bid);
        Some((top, eid))
    }

    /// Adds the atoms `new_conj` of the block `top`, which adds formula
    /// `eid`, to the base, asks the questions of that formula, and puts the
    /// block back on the stack; stops at an atom that is `false`.
    fn close_top(&mut self, top: BranchBlock, eid: TqfId, new_conj: &Vec<TermId>) -> (r: EnableResult)
        requires
            old(self).inv(),
            eid.0 < old(self).tqfs@.len(),
        ensures
            final(self).env.attributes@ == old(self).env.attributes@,
            final(self).curr_step == old(self).curr_step,
            final(self).inv(),
            final(self).curr_bid == old(self).curr_bid,
            final(self).depth == old(self).depth,
            final(self).tqfs@ == old(self).tqfs@,
            final(self).bstack@ == old(self).bstack@.push(top),
            final(self).env.psterms@ == old(self).env.psterms@,
            r != EnableResult::Failed,
            base_grew(old(self).env.base.entries(), final(self).env.base.entries()),
            forall|i: int|
                old(self).env.base.entries().len() <= i < final(self).env.base.entries().len() ==> (
                #[trigger] final(self).env.base.entries()[i]).bid == top.bid,
            (r == EnableResult::FalseFound) == exists|k: int| 0 <= k < new_conj@.len() && (#[trigger] new_conj@[k]).0 == 0,
            r == EnableResult::Enabled ==> forall|k: int|
                0 <= k < new_conj@.len() ==> live_in(final(self).env.base.entries(), #[trigger] new_conj@[k]),
            r == EnableResult::FalseFound ==> final(self).questions@ == old(self).questions@,
            r == EnableResult::Enabled ==> {
                &&& final(self).questions@.len() == old(self).questions@.len() + old(self).tqfs@[eid.0 as int].next@.len()
                &&& forall|j: int|
                    0 <= j < old(self).tqfs@[eid.0 as int].next@.len() ==> {
                        let q = #[trigger] final(self).questions@[old(self).questions@.len() + j];
                        &&& q.aformula == old(self).tqfs@[eid.0 as int].next@[j]
                        &&& q.bid == top.bid
                        &&& q.qid == QuestionId((old(self).questions@.len() + j) as usize)
                        &&& q.fstack_i == old(self).bstack@.len()
                        &&& q.curr_answer_stack@.len() == 0
                        &&& q.answers@.len() == 0
                    }
                &&& final(self).questions@.subrange(0, old(self).questions@.len() as int) == old(self).questions@
            },
    {
        let mut i: usize = 0;
        let ghost b0 = self.env.base.entries();
        proof {
            assert(b0.subrange(0, b0.len() as int) =~= b0);
        }
        while i < new_conj.len()
            invariant
                env_ok(&self.env),
                tqfs_linked(self.tqfs@),
                !(self.strategy is User),
                self.depth == old(self).depth,
                self.curr_step == old(self).curr_step,
                self.curr_bid == old(self).curr_bid,
                self.tqfs@ == old(self).tqfs@,
                self.bstack@ == old(self).bstack@,
                self.env.psterms@ == old(self).env.psterms@,
                self.env.attributes@ == old(self).env.attributes@,
                self.questions@ == old(self).questions@,
                eid.0 < self.tqfs@.len(),
                i <= new_conj@.len(),
                b0 == old(self).env.base.entries(),
                base_grew(b0, self.env.base.entries()),
                forall|x: int|
                    b0.len() <= x < self.env.base.entries().len() ==> (#[trigger] self.env.base.entries()[x]).bid
                        == top.bid,
                forall|k: int| 0 <= k < i ==> (#[trigger] new_conj@[k]).0 != 0,
                forall|k: int| 0 <= k < i ==> live_in(self.env.base.entries(), #[trigger] new_conj@[k]),
            decreases new_conj@.len() - i,
        {
            if new_conj[i].0 == 0 {
                self.bstack.push(top);
                return EnableResult::FalseFound;
            }
            let ghost eb = self.env.base.entries();
            let added = self.env.base.push_and_check(new_conj[i], top.bid);
            proof {
                let e = self.env.base.entries();
                assert(e.subrange(0, b0.len() as int) =~= eb.subrange(0, b0.len() as int));
                assert forall|x: int| b0.len() <= x < e.len() implies (#[trigger] e[x]).bid == top.bid by {
                    if x < eb.len() {
                        assert(e[x] == eb[x]);
                    }
                }
                assert forall|k: int| 0 <= k < i + 1 implies live_in(e, #[trigger] new_conj@[k]) by {
                    if k < i {
                        let x = choose|x: int| 0 <= x < eb.len() && #[trigger] eb[x].term == new_conj@[k] && !eb[x].deleted;
                        assert(e[x] == eb[x]);
                    } else {
                        let x = choose|x: int| 0 <= x < e.len() && #[trigger] e[x].term == new_conj@[k] && !e[x].deleted;
                        assert(e[x].term == new_conj@[k]);
                    }
                }
            }
            i = i + 1;
        }
        let ghost be = self.env.base.entries();
        let fstack_i = self.bstack.len();
        let mut j: usize = 0;
        let ghost qs0 = self.questions@;
        proof {
            assert(qs0.subrange(0, qs0.len() as int) =~= qs0);
        }
        let fstack_i = self.bstack.len();
        let mut j: usize = 0;
        while j < self.tqfs[eid.0].next.len()
            invariant
                env_ok(&self.env),
                tqfs_linked(self.tqfs@),
                !(self.strategy is User),
                self.depth == old(self).depth,
                self.curr_step == old(self).curr_step,
                self.curr_bid == old(self).curr_bid,
                self.tqfs@ == old(self).tqfs@,
                self.bstack@ == old(self).bstack@,
                self.env.psterms@ == old(self).env.psterms@,
                self.env.attributes@ == old(self).env.attributes@,
                self.env.base.entries() == be,
                base_grew(old(self).env.base.entries(), be),
                forall|x: int|
                    old(self).env.base.entries().len() <= x < be.len() ==> (#[trigger] be[x]).bid == top.bid,
                forall|k: int| 0 <= k < new_conj@.len() ==> (#[trigger] new_conj@[k]).0 != 0,
                forall|k: int| 0 <= k < new_conj@.len() ==> live_in(be, #[trigger] new_conj@[k]),
                eid.0 < self.tqfs@.len(),
                j <= self.tqfs@[eid.0 as int].next@.len(),
                qs0 == old(self).questions@,
                fstack_i == old(self).bstack@.len(),
                self.questions@.len() == qs0.len() + j,
                self.questions@.subrange(0, qs0.len() as int) == qs0,
                forall|j2: int|
                    0 <= j2 < j ==> {
                        let q = #[trigger] self.questions@[qs0.len() + j2];
                        &&& q.aformula == self.tqfs@[eid.0 as int].next@[j2]
                        &&& q.bid == top.bid
                        &&& q.qid == QuestionId((qs0.len() + j2) as usize)
                        &&& q.fstack_i == fstack_i
                        &&& q.curr_answer_stack@.len() == 0
                        &&& q.answers@.len() == 0
                    },
            decreases self.tqfs@[eid.0 as int].next@.len() - j,
        {
            let ghost qb = self.questions@;
            let q = Question {
                qid: QuestionId(self.questions.len()),
                bid: top.bid,
                aformula: self.tqfs[eid.0].next[j],
                fstack_i: fstack_i,
                curr_answer_stack: Vec::new(),
                answers: Vec::new(),
                used_answers: Vec::new(),
            };
            self.questions.push(q);
            proof {
                assert(self.questions@.subrange(0, qs0.len() as int) =~= qb.subrange(0, qs0.len() as int));
                assert forall|j2: int| 0 <= j2 < j + 1 implies {
                    let q = #[trigger] self.questions@[qs0.len() + j2];
                    &&& q.aformula == self.tqfs@[eid.0 as int].next@[j2]
                    &&& q.bid == top.bid
                    &&& q.qid == QuestionId((qs0.len() + j2) as usize)
                    &&& q.fstack_i == fstack_i
                    &&& q.curr_answer_stack@.len() == 0
                    &&& q.answers@.len() == 0
                } by {
                    if j2 < j {
                        assert(self.questions@[qs0.len() + j2] == qb[qs0.len() + j2]);
                    }
                }
            }
            j = j + 1;
        }
        self.bstack.push(top);
        EnableResult::Enabled
    }

    /// Opens the top block: binds its existential variables, adds its
    /// conjunct (rewritten under its context, beyond the first block) to
    /// the base, and asks its questions.
    fn enable_block<H: Host>(&mut self, host: &mut H) -> (r: EnableResult)
        requires
            old(self).inv(),
        ensures
            final(self).curr_step == old(self).curr_step,
            final(self).inv(),
            final(self).curr_bid == old(self).curr_bid,
            final(self).depth == old(self).depth,
            final(self).tqfs@ == old(self).tqfs@,
            final(self).bstack@.len() == old(self).bstack@.len(),
            final(self).top_rest() == old(self).top_rest(),
            r != EnableResult::Failed ==> old(self).bstack@.len() > 0,
            r != EnableResult::Failed ==> {
                &&& base_grew(old(self).env.base.entries(), final(self).env.base.entries())
                &&& forall|i: int|
                    old(self).env.base.entries().len() <= i < final(self).env.base.entries().len() ==> (
                    #[trigger] final(self).env.base.entries()[i]).bid == old(self).bstack@.last().bid
                &&& final(self).bstack@.drop_last() == old(self).bstack@.drop_last()
                &&& final(self).bstack@.last().aid == old(self).bstack@.last().aid
                &&& final(self).bstack@.last().atqf == old(self).bstack@.last().atqf
                &&& final(self).bstack@.last().eindex == old(self).bstack@.last().eindex
                &&& final(self).bstack@.last().bid == old(self).bstack@.last().bid
            },
            old(self).bstack@.len() > 0 && !old(self).opens() ==> r == EnableResult::Failed,
            old(self).opens() && old(self).bstack@.len() > 1 && !old(self).top_answer_exists() ==> r
                == EnableResult::Failed,
            old(self).opens() && old(self).bstack@.len() == 1 ==> r != EnableResult::Failed && (r
                == EnableResult::FalseFound <==> exists|k: int|
                0 <= k < old(self).tqfs@[old(self).top_formula().0 as int].conj@.len()
                    && (#[trigger] old(self).tqfs@[old(self).top_formula().0 as int].conj@[k]).0 == 0),
            r == EnableResult::Failed ==> old(self).bstack@.len() == 0 || final(self).top_fails(),
            r != EnableResult::Failed ==> final(self).bstack@.last().enabled,
            old(self).bstack@.len() > 1 && r == EnableResult::FalseFound ==> exists|k: int|
                0 <= k < old(self).tqfs@[old(self).top_formula().0 as int].conj@.len() && rewrites_to(
                    final(self).env.psterms@,
                    final(self).bstack@.last().context.map@,
                    None,
                    (#[trigger] old(self).tqfs@[old(self).top_formula().0 as int].conj@[k]).0 as int,
                    0,
                ),
            r != EnableResult::Enabled ==> final(self).questions@ == old(self).questions@,
            old(self).bstack@.len() > 1 && r == EnableResult::Enabled ==> forall|k: int|
                0 <= k < old(self).tqfs@[old(self).top_formula().0 as int].conj@.len() && !(final(self).env.psterms@.terms[(
                #[trigger] old(self).tqfs@[old(self).top_formula().0 as int].conj@[k]).0 as int] is IFunctor) ==> !rewrites_to(
                    final(self).env.psterms@,
                    final(self).bstack@.last().context.map@,
                    None,
                    old(self).tqfs@[old(self).top_formula().0 as int].conj@[k].0 as int,
                    0,
                ),
            r == EnableResult::Enabled ==> {
                let f = old(self).tqfs@[old(self).top_formula().0 as int];
                let n = old(self).questions@.len();
                &&& final(self).questions@.len() == n + f.next@.len()
                &&& final(self).questions@.subrange(0, n as int) == old(self).questions@
                &&& forall|j: int|
                    0 <= j < f.next@.len() ==> {
                        let q = #[trigger] final(self).questions@[n + j];
                        &&& q.aformula == f.next@[j]
                        &&& q.bid == old(self).bstack@.last().bid
                        &&& q.qid == QuestionId((n + j) as usize)
                        &&& q.fstack_i == old(self).bstack@.len() - 1
                        &&& q.curr_answer_stack@.len() == 0
                        &&& q.answers@.len() == 0
                    }
            },
            r == EnableResult::Enabled ==> {
                let top = final(self).bstack@.last();
                let f = old(self).tqfs@[top.atqf.0 as int].next@[top.eindex as int];
                &&& top.atqf == old(self).bstack@.last().atqf
                &&& top.eindex == old(self).bstack@.last().eindex
                &&& top.atqf.0 < old(self).tqfs@.len()
                &&& top.eindex < old(self).tqfs@[top.atqf.0 as int].next@.len()
                &&& f.0 < old(self).tqfs@.len()
                &&& atoms_added(
                    final(self).env.psterms@,
                    final(self).env.base.entries(),
                    old(self).tqfs@[f.0 as int].conj@,
                    top.context.map@,
                    old(self).bstack@.len() == 1,
                )
            },
        decreases old(self).depth, 6nat, 0nat, 0nat,
    {
        let (top, eid) = match self.open_top() {
            Some(x) => x,
            None => {
                return EnableResult::Failed;
            },
        };
        let new_conj = if self.bstack.len() > 0 {
            let qa = top.aid.0;
            let ai = top.aid.1;
            if qa >= self.questions.len() || ai >= self.questions[qa].answers.len() {
                self.bstack.push(top);
                return EnableResult::Failed;
            }
            self.env.bid = top.bid;
            let mut v: Vec<TermId> = Vec::new();
            let mut k: usize = 0;
            while k < self.tqfs[eid.0].conj.len()
                invariant
                    env_ok(&self.env),
                    tqfs_linked(self.tqfs@),
                    !(self.strategy is User),
                    self.depth == old(self).depth,
                    self.curr_step == old(self).curr_step,
                self.curr_bid == old(self).curr_bid,
                    self.curr_bid == old(self).curr_bid,
                    self.tqfs@ == old(self).tqfs@,
                    old(self).bstack@.len() > 0,
                    self.bstack@ == old(self).bstack@.drop_last(),
                    top.atqf == old(self).bstack@.last().atqf,
                    top.eindex == old(self).bstack@.last().eindex,
                    eid.0 < self.tqfs@.len(),
                    qa < self.questions@.len(),
                    ai < self.questions@[qa as int].answers@.len(),
                    k <= self.tqfs@[eid.0 as int].conj@.len(),
                    v@.len() == k,
                    self.env.base == old(self).env.base,
                    top.bid == old(self).bstack@.last().bid,
                    top.aid == old(self).bstack@.last().aid,
                    self.questions@ == old(self).questions@,
                    old(self).bstack@.len() > 1,
                    eid == old(self).tqfs@[top.atqf.0 as int].next@[top.eindex as int],
                    forall|j: int|
                        0 <= j < k ==> rewrites_to(
                            self.env.psterms@,
                            top.context.map@,
                            None,
                            self.tqfs@[eid.0 as int].conj@[j].0 as int,
                            (#[trigger] v@[j]).0 as int,
                        ),
                decreases self.tqfs@[eid.0 as int].conj@.len() - k,
            {
                let c = self.tqfs[eid.0].conj[k];
                let ghost pb = self.env.psterms@;
                let ghost vb = v@;
                let r = processing(
                    c,
                    &top.context,
                    None,
                    &mut self.env,
                    &self.questions[qa].answers[ai],
                    host,
                    self.depth,
                    PROCESSING_FUEL,
                );
                match r {
                    ProcessingResult::Error => {
                        self.bstack.push(top);
                        proof {
                            assert(self.bstack@.last() == top);
                            assert(self.top_formula() == eid);
                            assert(self.tqfs@[eid.0 as int].conj@[k as int] == c);
                        }
                        return EnableResult::Failed;
                    },
                    ProcessingResult::New(t) => v.push(t),
                    ProcessingResult::Existing(t) => v.push(t),
                }
                proof {
                    assert forall|j: int| 0 <= j < k + 1 implies rewrites_to(
                        self.env.psterms@,
                        top.context.map@,
                        None,
                        self.tqfs@[eid.0 as int].conj@[j].0 as int,
                        (#[trigger] v@[j]).0 as int,
                    ) by {
                        if j < k {
                            assert(v@[j] == vb[j]);
                            lemma_rewrites_to_grows(
                                pb,
                                self.env.psterms@,
                                top.context.map@,
                                None,
                                self.tqfs@[eid.0 as int].conj@[j].0 as int,
                                vb[j].0 as int,
                            );
                        }
                    }
                }
                k = k + 1;
            }
            v
        } else {
            copy_tids(&self.tqfs[eid.0].conj)
        };
        let ghost first = self.bstack@.len() == 0;
        let ghost pc = self.env.psterms@;
        let ghost conj = self.tqfs@[eid.0 as int].conj@;
        let ghost nc = new_conj@;
        let ghost ctx = top.context.map@;
        proof {
            assert(first == (old(self).bstack@.len() == 1));
            if first {
                assert(nc == conj);
            } else {
                assert(forall|j: int| 0 <= j < conj.len() ==> rewrites_to(pc, ctx, None, conj[j].0 as int, (#[trigger] nc[j]).0 as int));
            }
        }
        let r = self.close_top(top, eid, &new_conj);
        proof {
            if r == EnableResult::Enabled {
                assert forall|j: int| 0 <= j < conj.len() implies #[trigger] atom_added(
                    self.env.psterms@,
                    self.env.base.entries(),
                    conj[j],
                    ctx,
                    first,
                ) by {
                    assert(live_in(self.env.base.entries(), nc[j]));
                }
                if !first {
                    let pf = self.env.psterms@;
                    assert forall|j: int|
                        0 <= j < conj.len() && !(pf.terms[(#[trigger] conj[j]).0 as int] is IFunctor) implies !rewrites_to(
                        pf,
                        ctx,
                        None,
                        conj[j].0 as int,
                        0,
                    ) by {
                        assert(rewrites_to(pc, ctx, None, conj[j].0 as int, nc[j].0 as int));
                        assert(nc[j].0 != 0);
                        assert(pf == pc);
                    }
                }
            }
        }
        r
    }

    /// Closes the top block: takes back what it added (facts, questions,
    /// answers found in it, attributes, its existential instances, the
    /// terms made since it was opened).
    fn disable_block(&mut self) -> (r: bool)
        requires
            old(self).inv(),
        ensures
            final(self).curr_step == old(self).curr_step,
            final(self).inv(),
            final(self).depth == old(self).depth,
            final(self).tqfs@ == old(self).tqfs@,
            final(self).curr_bid == old(self).curr_bid,
            final(self).bstack@.len() == old(self).bstack@.len(),
            old(self).bstack@.len() > 0 ==> {
                &&& final(self).bstack@.last().atqf == old(self).bstack@.last().atqf
                &&& final(self).bstack@.last().eindex == old(self).bstack@.last().eindex
                &&& final(self).bstack@.last().bid == old(self).bstack@.last().bid
            },
            final(self).bstack@.drop_last() == old(self).bstack@.drop_last(),
            r == (old(self).bstack@.len() > 0 && old(self).bstack@.last().enabled),
            r ==> final(self).env.base.entries() == old(self).env.base.entries().take(
                trailing_start(old(self).env.base.entries(), old(self).bstack@.last().bid),
            ),
            !r ==> final(self).env.base == old(self).env.base,
            r ==> questions_closed(old(self).questions@, final(self).questions@, old(self).bstack@.last().bid),
            !r ==> final(self).questions@ == old(self).questions@,
    {
        let mut top = match self.bstack.pop() {
            Some(t) => t,
            None => {
                return false;
            },
        };
        if !top.enabled {
            self.bstack.push(top);
            return false;
        }
        let bid = top.bid;
        self.env.base.remove(bid);
        let ghost be = self.env.base.entries();
        let ghost oq = self.questions@;
        let mut kept: Vec<Question> = Vec::new();
        proof {
            assert(oq.skip(oq.len() as int) =~= Seq::<Question>::empty());
            assert(kept@.reverse() =~= Seq::<Question>::empty());
        }
        while self.questions.len() > 0
            invariant
                env_ok(&self.env),
                tqfs_linked(self.tqfs@),
                !(self.strategy is User),
                self.depth == old(self).depth,
                self.curr_step == old(self).curr_step,
                self.tqfs@ == old(self).tqfs@,
                self.curr_bid == old(self).curr_bid,
                self.bstack@ == old(self).bstack@.drop_last(),
                self.env.base.entries() == be,
                oq == old(self).questions@,
                bid == old(self).bstack@.last().bid,
                self.questions@.len() <= oq.len(),
                self.questions@ == oq.take(self.questions@.len() as int),
                questions_closed(oq.skip(self.questions@.len() as int), kept@.reverse(), bid),
            ensures
                self.questions@.len() == 0,
            decreases self.questions@.len(),
        {
            let ghost n = self.questions@.len() as int;
            let ghost k0 = kept@;
            let mut q = match self.questions.pop() {
                Some(q) => q,
                None => {
                    break;
                },
            };
            proof {
                assert(q == oq[n - 1]);
                assert(self.questions@ =~= oq.take(n - 1));
                assert(oq.skip(n - 1).skip(1) =~= oq.skip(n));
                assert(oq.skip(n - 1)[0] == oq[n - 1]);
            }
            if q.bid != bid {
                q.remove_answers(bid);
                kept.push(q);
                proof {
                    assert(kept@.reverse().skip(1) =~= k0.reverse());
                    assert(kept@.reverse()[0] == q);
                    assert(closed_in(oq[n - 1], q, bid));
                }
            }
        }
        let ghost kr = kept@.reverse();
        proof {
            assert(self.questions@ + kept@.reverse() =~= kr);
        }
        while kept.len() > 0
            invariant
                env_ok(&self.env),
                tqfs_linked(self.tqfs@),
                !(self.strategy is User),
                self.depth == old(self).depth,
                self.curr_step == old(self).curr_step,
                self.tqfs@ == old(self).tqfs@,
                self.curr_bid == old(self).curr_bid,
                self.bstack@ == old(self).bstack@.drop_last(),
                self.env.base.entries() == be,
                self.questions@ + kept@.reverse() == kr,
            ensures
                self.questions@ == kr,
            decreases kept@.len(),
        {
            let ghost qs0 = self.questions@;
            let ghost k0 = kept@;
            match kept.pop() {
                Some(q) => {
                    self.questions.push(q);
                    proof {
                        assert(k0.reverse() =~= seq![q] + kept@.reverse());
                        assert(self.questions@ + kept@.reverse() =~= qs0 + k0.reverse());
                    }
                },
                None => {
                    proof {
                        assert(kept@.reverse() =~= Seq::<Question>::empty());
                        assert(self.questions@ =~= self.questions@ + kept@.reverse());
                    }
                    break;
                },
            }
        }
        proof {
            assert(oq.skip(0) =~= oq);
        }
        self.env.attributes.remove_bid(bid);
        if top.atqf.0 < self.tqfs.len() && top.eindex < self.tqfs[top.atqf.0].next.len() {
            let eid = self.tqfs[top.atqf.0].next[top.eindex];
            top.context.pop_evars(&self.tqfs[eid.0].vars);
        }
        let car = top.psterms_car;
        if car >= 2 && self.env.psterms.no_bools_from(car) {
            let ghost p0 = self.env.psterms@;
            self.env.psterms.back_to(car);
            proof {
                let p = self.env.psterms@;
                assert(p.terms[0] == p0.terms[0] && p.terms[1] == p0.terms[1]);
                assert(p.indexed[0]) by {
                    assert forall|q: int| car <= q < p0.terms.len() implies #[trigger] p0.terms[q] != p0.terms[0] by {
                        assert(!(p0.terms[q] is Bool));
                    }
                }
                assert(p.indexed[1]) by {
                    assert forall|q: int| car <= q < p0.terms.len() implies #[trigger] p0.terms[q] != p0.terms[1] by {
                        assert(!(p0.terms[q] is Bool));
                    }
                }
            }
        }
        top.enabled = false;
        self.bstack.push(top);
        true
    }

    /// Moves the top block to the next formula that follows its answer's
    /// formula, under a new block identifier; false when it has tried them all.
    pub fn next_block(&mut self) -> (r: bool)
        requires
            old(self).inv(),
        ensures
            final(self).inv(),
            final(self).depth_of() == old(self).depth_of(),
            final(self).formulas() == old(self).formulas(),
            final(self).stack_len() == old(self).stack_len(),
            r ==> final(self).top_rest() < old(self).top_rest(),
            r == (old(self).blocks().len() > 0 && has_next_formula(
                old(self).formulas(),
                old(self).blocks().last(),
                old(self).block_counter(),
            )),
            r ==> final(self).blocks() == old(self).blocks().drop_last().push(
                moved_on(old(self).blocks().last(), old(self).block_counter()),
            ) && final(self).block_counter() == old(self).block_counter() + 1,
            !r ==> final(self).blocks() == old(self).blocks() && final(self).block_counter()
                == old(self).block_counter(),
            final(self).same_but_blocks(old(self)),
    {
        let mut top = match self.bstack.pop() {
            Some(t) => t,
            None => {
                return false;
            },
        };
        if top.atqf.0 >= self.tqfs.len() {
            self.bstack.push(top);
            return false;
        }
        let esize = self.tqfs[top.atqf.0].next.len();
        if esize > 0 && top.eindex < esize - 1 && self.curr_bid.0 < usize::MAX {
            top.eindex = top.eindex + 1;
            self.curr_bid = BlockId(self.curr_bid.0 + 1);
            top.bid = self.curr_bid;
            self.bstack.push(top);
            true
        } else {
            self.bstack.push(top);
            false
        }
    }

    /// Closes blocks from the top until one has a next formula to try
    /// (which it moves to) or the stack is empty.
    pub fn remove_branch(&mut self)
        requires
            old(self).inv(),
        ensures
            final(self).step() == old(self).step(),
            final(self).inv(),
            final(self).depth_of() == old(self).depth_of(),
            final(self).formulas() == old(self).formulas(),
            final(self).stack_len() <= old(self).stack_len(),
            final(self).stack_len() == old(self).stack_len() ==> old(self).stack_len() == 0
                || final(self).top_rest() < old(self).top_rest(),
            forall|i: int|
                final(self).stack_len() <= i < old(self).stack_len() ==> !has_next_formula(
                    old(self).formulas(),
                    #[trigger] old(self).blocks()[i],
                    old(self).block_counter(),
                ),
            final(self).stack_len() > 0 ==> {
                let n = final(self).stack_len() as int;
                let b = old(self).blocks()[n - 1];
                &&& has_next_formula(old(self).formulas(), b, old(self).block_counter())
                &&& final(self).blocks().drop_last() == old(self).blocks().take(n - 1)
                &&& final(self).blocks().last().atqf == b.atqf
                &&& final(self).blocks().last().eindex == b.eindex + 1
                &&& final(self).blocks().last().bid == BlockId((old(self).block_counter() + 1) as usize)
                &&& final(self).block_counter() == old(self).block_counter() + 1
            },
    {
        let ghost n0 = self.bstack@.len();
        let ghost r0 = self.top_rest();
        let ghost ob = self.bstack@;
        let ghost c0 = self.curr_bid.0;
        proof {
            assert(ob.take(n0 as int) =~= ob);
        }
        while self.bstack.len() > 0
            invariant_except_break
                self.bstack@.len() == n0 ==> self.top_rest() == r0,
                self.bstack@ == ob.take(self.bstack@.len() as int),
                self.curr_bid.0 == c0,
            invariant
                self.inv(),
                self.depth == old(self).depth,
                self.curr_step == old(self).curr_step,
                self.tqfs@ == old(self).tqfs@,
                self.bstack@.len() <= n0,
                n0 == old(self).bstack@.len(),
                r0 == old(self).top_rest(),
                ob == old(self).bstack@,
                c0 == old(self).curr_bid.0,
                forall|i: int|
                    self.bstack@.len() <= i < n0 ==> !has_next_formula(self.tqfs@, #[trigger] ob[i], c0),
            ensures
                self.inv(),
                self.depth == old(self).depth,
                self.curr_step == old(self).curr_step,
                self.tqfs@ == old(self).tqfs@,
                self.bstack@.len() <= n0,
                self.bstack@.len() == n0 ==> n0 == 0 || self.top_rest() < r0,
                forall|i: int|
                    self.bstack@.len() <= i < n0 ==> !has_next_formula(self.tqfs@, #[trigger] ob[i], c0),
                self.bstack@.len() > 0 ==> {
                    let n = self.bstack@.len() as int;
                    &&& has_next_formula(self.tqfs@, ob[n - 1], c0)
                    &&& self.bstack@.drop_last() == ob.take(n - 1)
                    &&& self.bstack@.last().atqf == ob[n - 1].atqf
                    &&& self.bstack@.last().eindex == ob[n - 1].eindex + 1
                    &&& self.bstack@.last().bid == BlockId((c0 + 1) as usize)
                    &&& self.curr_bid.0 == c0 + 1
                },
                self.bstack@.len() == 0 ==> self.curr_bid.0 == c0,
            decreases self.bstack@.len(),
        {
            let ghost before = self.top_rest();
            let ghost sb = self.bstack@;
            self.disable_block();
            proof {
                assert(self.top_rest() == before);
            }
            let ghost sd = self.bstack@;
            if !self.next_block() {
                self.bstack.pop();
                proof {
                    let n = sb.len() as int;
                    assert(sb[n - 1] == ob[n - 1]);
                    assert(self.bstack@ =~= sd.drop_last());
                    assert(self.bstack@ =~= ob.take(n - 1));
                }
            } else {
                proof {
                    let n = sb.len() as int;
                    assert(sb[n - 1] == ob[n - 1]);
                    assert(self.bstack@.drop_last() =~= sd.drop_last());
                    assert(sd.drop_last() == sb.drop_last());
                    assert(sb.drop_last() =~= ob.take(n - 1));
                }
                break;
            }
        }
        proof {
            if self.bstack@.len() == 0 {
                assert(self.curr_bid.0 == c0);
            }
        }
    }

    /// Opens the top block; while that meets `false`, removes the branch
    /// and opens the next one; false when an interpreted function fails.
    fn enable_block_loop<H: Host>(&mut self, host: &mut H) -> (r: bool)
        requires
            old(self).inv(),
        ensures
            final(self).curr_step == old(self).curr_step,
            final(self).inv(),
            final(self).depth == old(self).depth,
            final(self).tqfs@ == old(self).tqfs@,
            final(self).bstack@.len() <= old(self).bstack@.len(),
            old(self).bstack@.len() == 0 ==> r,
            r ==> final(self).bstack@.len() == 0 || final(self).bstack@.last().enabled,
            !r ==> final(self).top_fails(),
        decreases old(self).depth, 7nat, 0nat, 0nat,
    {
        while self.bstack.len() > 0
            invariant
                self.inv(),
                self.depth == old(self).depth,
                self.curr_step == old(self).curr_step,
                self.tqfs@ == old(self).tqfs@,
                self.bstack@.len() <= old(self).bstack@.len(),
            decreases self.bstack@.len(), self.top_rest(),
        {
            match self.enable_block(host) {
                EnableResult::Enabled => {
                    return true;
                },
                EnableResult::FalseFound => {
                    self.remove_branch();
                },
                EnableResult::Failed => {
                    return false;
                },
            }
        }
        true
    }

    /// The questions to try at this step, as the strategy orders them (the
    /// host lists them for the manual strategies); none when there are no
    /// questions.
    fn strategy<H: Host>(&self, host: &mut H) -> (r: Vec<StrategyItem>)
        requires
            self.inv(),
        ensures
            self.questions@.len() == 0 ==> r@.len() == 0,
            self.questions@.len() > 0 && self.strategy is PlainShift ==> r@ == plain_shift_items(
                self.questions@.len(),
                self.curr_step,
            ),
            self.questions@.len() > 0 && self.strategy is General ==> general_order(
                r@,
                self.questions@,
                self.tqfs@,
                if self.bstack@.len() > 0 {
                    (self.bstack@.len() - 1) as usize
                } else {
                    0usize
                },
            ),
            self.questions@.len() > 0 && self.strategy is ManualFirst ==> exists|l: Seq<usize>|
                r@ == #[trigger] manual_items(l, self.questions@.len(), SelectorStrategy::First(AnswerFilter::AskHost)),
            self.questions@.len() > 0 && self.strategy is ManualBest ==> exists|l: Seq<usize>|
                r@ == #[trigger] manual_items(l, self.questions@.len(), SelectorStrategy::Best),
    {
        if self.questions.len() == 0 {
            return Vec::new();
        }
        match self.strategy {
            Strategy::PlainShift => {
                let r = plain_shift_strategy(&self.questions, self.curr_step);
                proof {
                    assert(r@ =~= plain_shift_items(self.questions@.len(), self.curr_step));
                }
                r
            },
            Strategy::General => {
                let curr_level = if self.bstack.len() > 0 {
                    self.bstack.len() - 1
                } else {
                    0
                };
                general_strategy(&self.questions, &self.tqfs, curr_level)
            },
            Strategy::ManualFirst => {
                let list = host.questions(self.questions.len());
                let r = manual_strategy(&self.questions, SelectorStrategy::First(AnswerFilter::AskHost), &list);
                proof {
                    assert(r@ =~= manual_items(list@, self.questions@.len(), SelectorStrategy::First(AnswerFilter::AskHost)));
                }
                r
            },
            Strategy::ManualBest => {
                let list = host.questions(self.questions.len());
                let r = manual_strategy(&self.questions, SelectorStrategy::Best, &list);
                proof {
                    assert(r@ =~= manual_items(list@, self.questions@.len(), SelectorStrategy::Best));
                }
                r
            },
            Strategy::User => Vec::new(),
        }
    }

    /// Tries the questions in the order of the strategy and gives the first
    /// answer one of them takes.
    #[verifier::rlimit(100)]
    #[verifier::spinoff_prover]
    fn find_answer_global<H: Host>(&mut self, host: &mut H) -> (r: GlobalSearch)
        requires
            old(self).inv(),
        ensures
            final(self).inv(),
            final(self).depth == old(self).depth,
            final(self).tqfs@ == old(self).tqfs@,
            final(self).bstack@ == old(self).bstack@,
            final(self).curr_step == old(self).curr_step,
            final(self).questions@.len() == old(self).questions@.len(),
            old(self).bstack@.len() == 0 ==> r is Failed,
            r is NotFound ==> forall|j: int|
                0 <= j < final(self).questions@.len() ==> views((#[trigger] final(self).questions@[j]).used_answers@)
                    == views(old(self).questions@[j].used_answers@),
            r is NotFound && (old(self).strategy is PlainShift || old(self).strategy is General) ==> forall|j: int|
                0 <= j < final(self).questions@.len() ==> (#[trigger] final(self).questions@[j]).answers@.len()
                    == old(self).questions@[j].answers@.len(),
            old(self).bstack@.len() > 0 && old(self).questions@.len() == 0 ==> r is NotFound,
            old(self).bstack@.len() > 0 && old(self).strategy is PlainShift ==> global_outcome(
                global_run(
                    old(self).env.psterms@,
                    old(self).env.base.entries(),
                    old(self).env.attributes@,
                    old(self).tqfs@,
                    old(self).bstack@,
                    old(self).questions@,
                    qviews(old(self).questions@),
                    plain_shift_items(old(self).questions@.len(), old(self).curr_step),
                    0,
                ),
                r,
            ),
            old(self).bstack@.len() > 0 && old(self).strategy is General ==> exists|items: Seq<StrategyItem>|
                general_order(items, old(self).questions@, old(self).tqfs@, (old(self).bstack@.len() - 1) as usize)
                    && global_outcome(
                    #[trigger] global_run(
                        old(self).env.psterms@,
                        old(self).env.base.entries(),
                        old(self).env.attributes@,
                        old(self).tqfs@,
                        old(self).bstack@,
                        old(self).questions@,
                        qviews(old(self).questions@),
                        items,
                        0,
                    ),
                    r,
                ),
            old(self).bstack@.len() > 0 && old(self).env.base.entries().len() == 0 && (forall|j: int|
                0 <= j < old(self).questions@.len() ==> (#[trigger] old(self).questions@[j]).aformula.0 < old(
                    self,
                ).tqfs@.len()) ==> r is NotFound,
            r matches GlobalSearch::Found(aid) ==> {
                let q = final(self).questions@[aid.0 as int];
                &&& old(self).questions@[aid.0 as int].answers@.len() <= aid.1
                &&& answer_usable(final(self).questions@, final(self).bstack@, final(self).tqfs@, aid)
                &&& q.aformula == old(self).questions@[aid.0 as int].aformula
                &&& q.fstack_i == old(self).questions@[aid.0 as int].fstack_i
                &&& question_resumes(
                    old(self).questions@,
                    old(self).env.psterms@,
                    old(self).env.base.entries(),
                    old(self).tqfs@,
                    old(self).bstack@,
                    aid.0 as int,
                ) ==> answer_sound(
                    final(self).env.psterms@,
                    final(self).env.base.entries(),
                    final(self).tqfs@[q.aformula.0 as int].conj@,
                    final(self).bstack@[q.fstack_i as int].context.map@,
                    q.answers@[aid.1 as int]@,
                )
            },
        decreases old(self).depth, 8nat, 0nat, 0nat,
    {
        let n = self.bstack.len();
        if n == 0 {
            return GlobalSearch::Failed;
        }
        let bid = self.bstack[n - 1].bid;
        let strategy = self.strategy(host);
        let mut k: usize = 0;
        proof {
            lemma_grows_refl(self.env.psterms@);
            if self.strategy is PlainShift || self.strategy is General {
                assert forall|x: int| 0 <= x < strategy@.len() implies (#[trigger] strategy@[x]).selector
                    == SelectorStrategy::First(AnswerFilter::AcceptAll) by {
                    if self.strategy is PlainShift {
                        assert(strategy@[x] == plain_shift_items(self.questions@.len(), self.curr_step)[x]);
                    }
                }
            }
            if self.strategy is PlainShift {
                assert(strategy@ =~= plain_shift_items(self.questions@.len(), self.curr_step));
            }
        }
        let ghost auto = self.strategy is PlainShift || self.strategy is General;
        let ghost at0 = self.env.attributes@;
        let ghost g0 = global_run(
            old(self).env.psterms@,
            old(self).env.base.entries(),
            at0,
            old(self).tqfs@,
            old(self).bstack@,
            old(self).questions@,
            qviews(old(self).questions@),
            strategy@,
            0,
        );
        while k < strategy.len()
            invariant
                auto == (self.strategy is PlainShift || self.strategy is General),
                at0 == old(self).env.attributes@,
                g0 == global_run(
                    old(self).env.psterms@,
                    old(self).env.base.entries(),
                    at0,
                    old(self).tqfs@,
                    old(self).bstack@,
                    old(self).questions@,
                    qviews(old(self).questions@),
                    strategy@,
                    0,
                ),
                auto && !(g0 is Open) ==> self.env.psterms@ == old(self).env.psterms@ && self.env.attributes@ == at0
                    && global_run(
                    old(self).env.psterms@,
                    old(self).env.base.entries(),
                    at0,
                    old(self).tqfs@,
                    old(self).bstack@,
                    old(self).questions@,
                    qviews(self.questions@),
                    strategy@,
                    k as nat,
                ) == g0,
                forall|j: int| 0 <= j < self.questions@.len() ==> (#[trigger] self.questions@[j]).qid == old(self).questions@[j].qid,
                bid == old(self).bstack@.last().bid,
                self.strategy is PlainShift ==> strategy@ == plain_shift_items(old(self).questions@.len(), old(self).curr_step),
                self.strategy is General ==> general_order(
                    strategy@,
                    old(self).questions@,
                    old(self).tqfs@,
                    (old(self).bstack@.len() - 1) as usize,
                ),
                env_ok(&self.env),
                tqfs_linked(self.tqfs@),
                !(self.strategy is User),
                self.depth == old(self).depth,
                self.tqfs@ == old(self).tqfs@,
                self.bstack@ == old(self).bstack@,
                self.curr_step == old(self).curr_step,
                n == self.bstack@.len(),
                n > 0,
                k <= strategy@.len(),
                self.questions@.len() == old(self).questions@.len(),
                old(self).env.psterms@.wf(),
                grows(old(self).env.psterms@, self.env.psterms@),
                self.env.base == old(self).env.base,
                forall|j: int|
                    0 <= j < self.questions@.len() ==> {
                        &&& (#[trigger] self.questions@[j]).aformula == old(self).questions@[j].aformula
                        &&& self.questions@[j].fstack_i == old(self).questions@[j].fstack_i
                        &&& old(self).questions@[j].answers@.len() <= self.questions@[j].answers@.len()
                        &&& views(self.questions@[j].used_answers@) == views(old(self).questions@[j].used_answers@)
                        &&& (self.strategy is PlainShift || self.strategy is General) ==> self.questions@[j].answers@.len()
                            == old(self).questions@[j].answers@.len()
                    },
                self.strategy == old(self).strategy,
                (self.strategy is PlainShift || self.strategy is General) ==> forall|x: int|
                    0 <= x < strategy@.len() ==> (#[trigger] strategy@[x]).selector == SelectorStrategy::First(
                        AnswerFilter::AcceptAll,
                    ),
                forall|j: int|
                    question_resumes(
                        old(self).questions@,
                        old(self).env.psterms@,
                        old(self).env.base.entries(),
                        old(self).tqfs@,
                        old(self).bstack@,
                        j,
                    ) ==> #[trigger] question_resumes(
                        self.questions@,
                        self.env.psterms@,
                        self.env.base.entries(),
                        self.tqfs@,
                        self.bstack@,
                        j,
                    ),
            decreases strategy@.len() - k,
        {
            let si = strategy[k];
            let qi = si.qid.0;
            let ghost kk = k as nat;
            let ghost qv0 = qviews(self.questions@);
            let ghost gk = global_run(
                old(self).env.psterms@,
                old(self).env.base.entries(),
                at0,
                old(self).tqfs@,
                old(self).bstack@,
                old(self).questions@,
                qv0,
                strategy@,
                kk,
            );
            let ghost gnext = global_run(
                old(self).env.psterms@,
                old(self).env.base.entries(),
                at0,
                old(self).tqfs@,
                old(self).bstack@,
                old(self).questions@,
                qv0,
                strategy@,
                kk + 1,
            );
            proof {
                lemma_global_step(
                    old(self).env.psterms@,
                    old(self).env.base.entries(),
                    at0,
                    old(self).tqfs@,
                    old(self).bstack@,
                    old(self).questions@,
                    qv0,
                    strategy@,
                    kk,
                );
            }
            k = k + 1;
            if qi < self.questions.len() {
                let fstack_i = self.questions[qi].fstack_i;
                if fstack_i < n {
                    let ghost qs = self.questions@;
                    let ghost pb = self.env.psterms@;
                    let mut q = self.questions.remove(qi);
                    let r = q.find_answer_local(
                        &si,
                        bid,
                        &mut self.env,
                        &self.tqfs,
                        n - 1,
                        &self.bstack[fstack_i].context,
                        host,
                        self.depth,
                    );
                    self.questions.insert(qi, q);
                    proof {
                        assert(self.questions@ =~= qs.update(qi as int, q));
                        assert(qviews(self.questions@) =~= qviews(qs).update(
                            qi as int,
                            QView { stack: views(q.curr_answer_stack@), answers: views(q.answers@) },
                        ));
                        assert(qviews(qs)[qi as int] == QView { stack: views(qs[qi as int].curr_answer_stack@), answers: views(qs[qi as int].answers@) });
                        if auto && !(g0 is Open) {
                            let oq = old(self).questions@[qi as int];
                            assert(oq.aformula == qs[qi as int].aformula);
                            assert(oq.qid == qs[qi as int].qid);
                            assert(oq.fstack_i == fstack_i);
                            assert(old(self).bstack@.last().bid == bid);
                            assert(si.selector == SelectorStrategy::First(AnswerFilter::AcceptAll));
                        }
                        lemma_grows_trans(old(self).env.psterms@, pb, self.env.psterms@);
                        assert forall|j: int|
                            question_resumes(
                                old(self).questions@,
                                old(self).env.psterms@,
                                old(self).env.base.entries(),
                                old(self).tqfs@,
                                old(self).bstack@,
                                j,
                            ) && !(r is Failed) implies #[trigger] question_resumes(
                            self.questions@,
                            self.env.psterms@,
                            self.env.base.entries(),
                            self.tqfs@,
                            self.bstack@,
                            j,
                        ) by {
                            assert(question_resumes(qs, pb, self.env.base.entries(), self.tqfs@, self.bstack@, j));
                            if 0 <= j < qs.len() && j != qi && qs[j].fstack_i < n {
                                lemma_resumes_grows(
                                    qs[j],
                                    pb,
                                    self.env.psterms@,
                                    self.env.base.entries(),
                                    self.tqfs@,
                                    self.bstack@[qs[j].fstack_i as int].context.map@,
                                );
                            }
                        }
                    }
                    match r {
                        LocalSearch::Found(i) => {
                            proof {
                                let ctx = self.bstack@[fstack_i as int].context.map@;
                                if question_resumes(
                                    old(self).questions@,
                                    old(self).env.psterms@,
                                    old(self).env.base.entries(),
                                    old(self).tqfs@,
                                    old(self).bstack@,
                                    qi as int,
                                ) {
                                    assert(question_resumes(qs, pb, self.env.base.entries(), self.tqfs@, self.bstack@, qi as int));
                                    assert(resumes_soundly(qs[qi as int], pb, self.env.base.entries(), self.tqfs@, ctx));
                                    assert(self.questions@[qi as int] == q);
                                }
                            }
                            return GlobalSearch::Found(AnswerId(qi, i));
                        },
                        LocalSearch::Failed => {
                            return GlobalSearch::Failed;
                        },
                        LocalSearch::NotFound => {},
                    }
                }
            }
        }
        proof {
            lemma_global_end(
                old(self).env.psterms@,
                old(self).env.base.entries(),
                at0,
                old(self).tqfs@,
                old(self).bstack@,
                old(self).questions@,
                qviews(self.questions@),
                strategy@,
                k as nat,
            );
        }
        GlobalSearch::NotFound
    }

    /// Takes answer `aid`: runs the commands of its formula and opens a
    /// block for the first formula following it; a formula followed by
    /// nothing closes the branch instead.  False when an interpreted
    /// function fails.
    fn transform<H: Host>(&mut self, aid: AnswerId, host: &mut H) -> (r: bool)
        requires
            old(self).inv(),
        ensures
            final(self).curr_step == old(self).curr_step,
            final(self).inv(),
            final(self).depth == old(self).depth,
            final(self).tqfs@ == old(self).tqfs@,
            !answer_usable(old(self).questions@, old(self).bstack@, old(self).tqfs@, aid) ==> !r,
            answer_usable(old(self).questions@, old(self).bstack@, old(self).tqfs@, aid) && r && old(self).tqfs@[old(
                self,
            ).questions@[aid.0 as int].aformula.0 as int].next@.len() > 0 ==> {
                &&& final(self).bstack@.len() == old(self).bstack@.len() + 1
                &&& final(self).bstack@.drop_last() == old(self).bstack@
                &&& final(self).bstack@.last().aid == aid
                &&& final(self).bstack@.last().atqf == old(self).questions@[aid.0 as int].aformula
                &&& final(self).bstack@.last().eindex == 0
                &&& final(self).bstack@.last().bid == BlockId((old(self).curr_bid.0 + 1) as usize)
                &&& final(self).curr_bid == BlockId((old(self).curr_bid.0 + 1) as usize)
                &&& final(self).bstack@.last().enabled
            },
            answer_usable(old(self).questions@, old(self).bstack@, old(self).tqfs@, aid) && !r ==> {
                let q = old(self).questions@[aid.0 as int];
                let f = old(self).tqfs@[q.aformula.0 as int];
                ||| f.next@.len() == 0 && final(self).top_fails()
                ||| f.next@.len() > 0 && old(self).curr_bid.0 == usize::MAX
                ||| f.next@.len() > 0 && exists|k: int|
                    0 <= k < f.commands@.len() && may_fail(
                        final(self).env.psterms@,
                        old(self).bstack@[q.fstack_i as int].context.map@,
                        Some(q.answers@[aid.1 as int]@.amap),
                        (#[trigger] f.commands@[k]).0 as int,
                    )
                ||| f.next@.len() > 0 && final(self).top_fails()
            },
        decreases old(self).depth, 8nat, 0nat, 0nat,
    {
        let qa = aid.0;
        let ai = aid.1;
        if qa >= self.questions.len() || ai >= self.questions[qa].answers.len() {
            return false;
        }
        let fstack_i = self.questions[qa].fstack_i;
        let atqf = self.questions[qa].aformula;
        if fstack_i >= self.bstack.len() || atqf.0 >= self.tqfs.len() {
            return false;
        }
        if self.tqfs[atqf.0].next.len() == 0 {
            self.remove_branch();
            return self.enable_block_loop(host);
        }
        if self.curr_bid.0 == usize::MAX {
            return false;
        }
        self.curr_bid = BlockId(self.curr_bid.0 + 1);
        self.env.bid = self.curr_bid;
        let mut k: usize = 0;
        while k < self.tqfs[atqf.0].commands.len()
            invariant
                env_ok(&self.env),
                tqfs_linked(self.tqfs@),
                !(self.strategy is User),
                self.depth == old(self).depth,
                self.curr_step == old(self).curr_step,
                self.tqfs@ == old(self).tqfs@,
                atqf.0 < self.tqfs@.len(),
                qa < self.questions@.len(),
                ai < self.questions@[qa as int].answers@.len(),
                fstack_i < self.bstack@.len(),
                k <= self.tqfs@[atqf.0 as int].commands@.len(),
                self.bstack@ == old(self).bstack@,
                self.questions@ == old(self).questions@,
                self.curr_bid.0 == old(self).curr_bid.0 + 1,
                qa == aid.0,
                ai == aid.1,
                fstack_i == old(self).questions@[aid.0 as int].fstack_i,
                self.tqfs@[atqf.0 as int].next@.len() > 0,
                atqf == old(self).questions@[aid.0 as int].aformula,
            decreases self.tqfs@[atqf.0 as int].commands@.len() - k,
        {
            let c = self.tqfs[atqf.0].commands[k];
            let r = processing(
                c,
                &self.bstack[fstack_i].context,
                Some(&self.questions[qa].answers[ai]),
                &mut self.env,
                &self.questions[qa].answers[ai],
                host,
                self.depth,
                PROCESSING_FUEL,
            );
            if let ProcessingResult::Error = r {
                proof {
                    assert(self.tqfs@[atqf.0 as int].commands@[k as int] == c);
                    assert(may_fail(
                        self.env.psterms@,
                        old(self).bstack@[fstack_i as int].context.map@,
                        Some(old(self).questions@[qa as int].answers@[ai as int]@.amap),
                        c.0 as int,
                    ));
                }
                return false;
            }
            k = k + 1;
        }
        let context = Context::new(&self.bstack[fstack_i].context, &self.questions[qa].answers[ai]);
        let car = self.env.psterms.len();
        self.bstack.push(
            BranchBlock {
                aid: aid,
                atqf: atqf,
                eindex: 0,
                context: context,
                bid: self.curr_bid,
                psterms_car: car,
                enabled: false,
            },
        );
        match self.enable_block(host) {
            EnableResult::Failed => false,
            _ => true,
        }
    }

    /// Runs the prover for at most `limit` steps.  Each step first checks
    /// whether the branch stack is empty (the formula is refuted), then
    /// looks for an answer (none: the search is exhausted) and takes it.
    pub fn solver_loop<H: Host>(&mut self, limit: usize, host: &mut H) -> (r: SolverResult)
        requires
            old(self).inv(),
        ensures
            final(self).inv(),
            final(self).depth_of() == old(self).depth_of(),
            r.steps <= limit,
            r.t == SolverResultType::LimitReached ==> r.steps == limit,
            r.t == SolverResultType::Refuted ==> final(self).stack_len() == 0 && r.steps >= 1,
            r.t == SolverResultType::Exhausted ==> final(self).stack_len() > 0 && r.steps >= 1,
            r.t != SolverResultType::LimitReached ==> r.steps >= 1,
            limit == 0 ==> r == (SolverResult { t: SolverResultType::LimitReached, steps: 0 }),
            old(self).stack_len() == 0 && limit > 0 ==> r == (SolverResult {
                t: SolverResultType::Refuted,
                steps: 1,
            }),
            final(self).step() as int == saturated(
                old(self).step() + if r.t == SolverResultType::LimitReached {
                    r.steps as int
                } else {
                    r.steps - 1
                },
            ),
            old(self).stack_len() > 0 && limit > 0 && old(self).automatic() ==> exists|items: Seq<StrategyItem>|
                old(self).strategy_gives(items) && first_step_ok(#[trigger] old(self).search_with(items), r),
        decreases old(self).depth_of(), 9nat, 0nat, 0nat,
    {
        let mut i: usize = 0;
        let ghost mut w: Seq<StrategyItem> = Seq::empty();
        while i < limit
            invariant
                i == 0 ==> *self == *old(self),
                i >= 1 && old(self).stack_len() > 0 && old(self).automatic() ==> old(self).strategy_gives(w) && (old(
                    self,
                ).search_with(w) is Found || old(self).search_with(w) is Open),
                self.inv(),
                self.depth == old(self).depth,
                self.curr_step as int == saturated(old(self).curr_step + i),
                i <= limit,
                i == 0 ==> self.bstack@.len() == old(self).bstack@.len(),
                i > 0 ==> old(self).bstack@.len() > 0,
            decreases limit - i,
        {
            i = i + 1;
            if self.bstack.len() == 0 {
                return SolverResult { t: SolverResultType::Refuted, steps: i };
            }
            let ghost first = i == 1;
            let rg = self.find_answer_global(host);
            proof {
                if first && old(self).automatic() {
                    if old(self).strategy is PlainShift {
                        w = plain_shift_items(old(self).questions@.len(), old(self).curr_step);
                    } else {
                        w = choose|items: Seq<StrategyItem>|
                            general_order(items, old(self).questions@, old(self).tqfs@, (old(self).bstack@.len() - 1) as usize)
                                && global_outcome(
                                #[trigger] global_run(
                                    old(self).env.psterms@,
                                    old(self).env.base.entries(),
                                    old(self).env.attributes@,
                                    old(self).tqfs@,
                                    old(self).bstack@,
                                    old(self).questions@,
                                    qviews(old(self).questions@),
                                    items,
                                    0,
                                ),
                                rg,
                            );
                    }
                    assert(old(self).strategy_gives(w));
                    assert(global_outcome(old(self).search_with(w), rg));
                }
            }
            match rg {
                GlobalSearch::Found(aid) => {
                    if !self.transform(aid, host) {
                        return SolverResult { t: SolverResultType::Error, steps: i };
                    }
                    if self.curr_step < usize::MAX {
                        self.curr_step = self.curr_step + 1;
                    }
                },
                GlobalSearch::NotFound => {
                    return SolverResult { t: SolverResultType::Exhausted, steps: i };
                },
                GlobalSearch::Failed => {
                    return SolverResult { t: SolverResultType::Error, steps: i };
                },
            }
        }
        SolverResult { t: SolverResultType::LimitReached, steps: i }
    }
}

/// A run whose first step's search among all questions ends as `g`: none
/// found is an exhausted search after one step; a failure is an error
/// after one step; an answer found is taken (the run goes on, or ends by
/// its limit or an error in that step).
pub open spec fn first_step_ok(g: GlobalEnd, r: SolverResult) -> bool {
    match g {
        GlobalEnd::NotFound => r == (SolverResult { t: SolverResultType::Exhausted, steps: 1 }),
        GlobalEnd::Failed => r == (SolverResult { t: SolverResultType::Error, steps: 1 }),
        GlobalEnd::Found(_) => r.steps >= 2 || (r.steps == 1 && (r.t == SolverResultType::LimitReached || r.t
            == SolverResultType::Error)),
        GlobalEnd::Open => true,
    }
}

/// `x`, or the largest `usize` when `x` is larger.
pub open spec fn saturated(x: int) -> int {
    if x <= usize::MAX {
        x
    } else {
        usize::MAX as int
    }
}

/// The sign of a quantifier.
pub open spec fn quant_chars(q: Quantifier) -> Seq<char> {
    match q {
        Quantifier::Forall => seq!['!'],
        Quantifier::Exists => seq!['?'],
    }
}

/// One line of the formula tree: the indentation `tab`, the quantifier,
/// the variables, the conjunct, and the commands after `$` when there are
/// any, each term shown under `ctx`.
pub open spec fn tqf_line_chars(p: PSTermsV, t: Tqf, tab: Seq<char>, ctx: Option<Map<usize, usize>>) -> Seq<char> {
    tab + quant_chars(t.quantifier) + tids_chars(p, t.vars@, ctx, DisplayMode::Plain, seq![','], RENDER_DEPTH as nat)
        + seq![' '] + tids_chars(p, t.conj@, ctx, DisplayMode::Plain, seq![',', ' '], RENDER_DEPTH as nat) + seq![' ']
        + (if t.commands@.len() > 0 {
        seq!['$', ' '] + tids_chars(p, t.commands@, ctx, DisplayMode::Plain, seq![',', ' '], RENDER_DEPTH as nat)
    } else {
        Seq::empty()
    }) + seq!['\n']
}

/// The formula `tid` and, indented four more spaces each, the formulas
/// following it.
pub open spec fn tqf_chars(p: PSTermsV, tqfs: Seq<Tqf>, tid: TqfId, tab: Seq<char>, ctx: Option<Map<usize, usize>>) -> Seq<
    char,
>
    decreases tid.0, 1nat, 0nat,
{
    if tid.0 >= tqfs.len() {
        Seq::empty()
    } else {
        tqf_line_chars(p, tqfs[tid.0 as int], tab, ctx) + nexts_chars(
            p,
            tqfs,
            tqfs[tid.0 as int].next@,
            tab + seq![' ', ' ', ' ', ' '],
            ctx,
            tid.0 as nat,
        )
    }
}

/// The formulas of `list` one after the other (those stored before `bound`).
pub open spec fn nexts_chars(
    p: PSTermsV,
    tqfs: Seq<Tqf>,
    list: Seq<TqfId>,
    tab: Seq<char>,
    ctx: Option<Map<usize, usize>>,
    bound: nat,
) -> Seq<char>
    decreases bound, 0nat, list.len(),
{
    if list.len() == 0 {
        Seq::empty()
    } else {
        nexts_chars(p, tqfs, list.drop_last(), tab, ctx, bound) + if list.last().0 < bound {
            tqf_chars(p, tqfs, list.last(), tab, ctx)
        } else {
            Seq::empty()
        }
    }
}

/// The base as the state shows it: each fact shown plainly, a removed one
/// in brackets, separated by commas.
pub open spec fn base_state_chars(p: PSTermsV, entries: Seq<BTerm>, attrs: Seq<Setting>, n: int) -> Seq<char>
    decreases n,
{
    if n <= 0 {
        Seq::empty()
    } else {
        let fact = tid_chars(p, entries[n - 1].term, None, DisplayMode::Plain, RENDER_DEPTH as nat);
        base_state_chars(p, entries, attrs, n - 1) + (if n >= 2 {
            seq![',']
        } else {
            Seq::empty()
        }) + if is_deleted(attrs, n - 1) {
            seq!['['] + fact + seq![']']
        } else {
            fact
        }
    }
}

/// The context a question is asked under: that of the block at its stack
/// place, when there is one.
pub open spec fn question_ctx(bstack: Seq<BranchBlock>, q: Question) -> Option<Map<usize, usize>> {
    if q.fstack_i < bstack.len() {
        Some(bstack[q.fstack_i as int].context.map@)
    } else {
        None
    }
}

/// The questions as the state shows them: `(i) ` and the formula tree of
/// each question under its context.
pub open spec fn questions_chars(p: PSTermsV, tqfs: Seq<Tqf>, bstack: Seq<BranchBlock>, qs: Seq<Question>, n: int) -> Seq<
    char,
>
    decreases n,
{
    if n <= 0 {
        Seq::empty()
    } else {
        questions_chars(p, tqfs, bstack, qs, n - 1) + seq!['('] + nat_chars((n - 1) as nat) + seq![')', ' ']
            + tqf_chars(p, tqfs, qs[n - 1].aformula, Seq::empty(), question_ctx(bstack, qs[n - 1]))
    }
}

pub open spec fn current_formula_chars() -> Seq<char> {
    seq!['\n', 'C', 'u', 'r', 'r', 'e', 'n', 't', ' ', 'f', 'o', 'r', 'm', 'u', 'l', 'a', ':', '\n', 'B', 'a', 's', 'e', ':', ' ']
}

pub open spec fn questions_header_chars() -> Seq<char> {
    seq!['\n', '\n', 'Q', 'u', 'e', 's', 't', 'i', 'o', 'n', 's', ':', '\n']
}

impl Solver {
    fn push_tqf_line(&self, out: &mut Vec<char>, t: &Tqf, tab: &Vec<char>, ctx: Option<&Context>)
        requires
            self.inv(),
        ensures
            final(out)@ == old(out)@ + tqf_line_chars(self.env.psterms@, *t, tab@, ctx_view(ctx)),
    {
        push_all(out, tab);
        match t.quantifier {
            Quantifier::Forall => out.push('!'),
            Quantifier::Exists => out.push('?'),
        }
        let d1 = vec![','];
        let d2 = vec![',', ' '];
        push_tids(out, &self.env.psterms, &t.vars, ctx, DisplayMode::Plain, &d1, RENDER_DEPTH);
        out.push(' ');
        push_tids(out, &self.env.psterms, &t.conj, ctx, DisplayMode::Plain, &d2, RENDER_DEPTH);
        out.push(' ');
        if t.commands.len() > 0 {
            out.push('$');
            out.push(' ');
            push_tids(out, &self.env.psterms, &t.commands, ctx, DisplayMode::Plain, &d2, RENDER_DEPTH);
        }
        out.push('\n');
        proof {
            assert(d1@ =~= seq![',']);
            assert(d2@ =~= seq![',', ' ']);
            assert(final(out)@ =~= old(out)@ + tqf_line_chars(self.env.psterms@, *t, tab@, ctx_view(ctx)));
        }
    }

    #[verifier::rlimit(40)]
    fn push_tqf(&self, out: &mut Vec<char>, tid: TqfId, tab: &Vec<char>, ctx: Option<&Context>)
        requires
            self.inv(),
        ensures
            final(out)@ == old(out)@ + tqf_chars(self.env.psterms@, self.tqfs@, tid, tab@, ctx_view(ctx)),
        decreases tid.0,
    {
        let ghost P = self.env.psterms@;
        let ghost T = self.tqfs@;
        let ghost C = ctx_view(ctx);
        if tid.0 >= self.tqfs.len() {
            proof {
                assert(final(out)@ =~= old(out)@ + tqf_chars(P, T, tid, tab@, C));
            }
            return;
        }
        let t = &self.tqfs[tid.0];
        self.push_tqf_line(out, t, tab, ctx);
        let ghost line_end = out@;
        let mut tab2: Vec<char> = Vec::new();
        push_all(&mut tab2, tab);
        tab2.push(' ');
        tab2.push(' ');
        tab2.push(' ');
        tab2.push(' ');
        proof {
            assert(tab2@ =~= tab@ + seq![' ', ' ', ' ', ' ']);
            assert(t.next@.take(0) =~= Seq::<TqfId>::empty());
            assert(nexts_chars(P, T, Seq::<TqfId>::empty(), tab2@, C, tid.0 as nat) == Seq::<char>::empty());
            assert(out@ =~= line_end + nexts_chars(P, T, t.next@.take(0), tab2@, C, tid.0 as nat));
        }
        let mut k: usize = 0;
        while k < t.next.len()
            invariant
                self.inv(),
                P == self.env.psterms@,
                T == self.tqfs@,
                C == ctx_view(ctx),
                t == &T[tid.0 as int],
                tid.0 < T.len(),
                k <= t.next@.len(),
                out@ == line_end + nexts_chars(P, T, t.next@.take(k as int), tab2@, C, tid.0 as nat),
            decreases t.next@.len() - k,
        {
            let n = t.next[k];
            let ghost before = out@;
            let ghost l1 = t.next@.take(k + 1);
            proof {
                assert(n.0 < tid.0);
                assert(l1.drop_last() =~= t.next@.take(k as int));
                assert(l1.last() == n);
                assert(nexts_chars(P, T, l1, tab2@, C, tid.0 as nat) == nexts_chars(P, T, t.next@.take(k as int), tab2@, C, tid.0 as nat)
                    + tqf_chars(P, T, n, tab2@, C));
            }
            self.push_tqf(out, n, &tab2, ctx);
            proof {
                assert(out@ =~= line_end + nexts_chars(P, T, l1, tab2@, C, tid.0 as nat));
            }
            k = k + 1;
        }
        proof {
            assert(t.next@.take(k as int) =~= t.next@);
            assert(out@ =~= old(out)@ + tqf_chars(P, T, tid, tab@, C));
        }
    }

    /// The text of the formula `tid` and the formulas following it, each
    /// line indented by `tab` and four more spaces per level, terms shown
    /// under `context`.
    pub fn tqf_text(&self, tid: TqfId, tab: &String, context: &Context) -> (s: String)
        requires
            self.inv(),
        ensures
            s@ == tqf_chars(self.tables(), self.formulas(), tid, tab@, Some(context.map@)),
    {
        let mut out: Vec<char> = Vec::new();
        let t = crate::text::chars_of_string(tab);
        self.push_tqf(&mut out, tid, &t, Some(context));
        proof {
            assert(out@ =~= tqf_chars(self.env.psterms@, self.tqfs@, tid, tab@, Some(context.map@)));
        }
        string_of(&out)
    }

    /// The text of the current state: the base, a removed fact in brackets,
    /// and each question with its formula tree.
    #[verifier::rlimit(30)]
    pub fn state_text(&self) -> (s: String)
        requires
            self.inv(),
        ensures
            s@ == current_formula_chars() + base_state_chars(
                self.tables(),
                self.base_entries(),
                self.settings(),
                self.base_entries().len() as int,
            ) + questions_header_chars() + questions_chars(
                self.tables(),
                self.formulas(),
                self.blocks(),
                self.question_list(),
                self.question_list().len() as int,
            ),
    {
        let p = &self.env.psterms;
        let mut out: Vec<char> = vec!['\n', 'C', 'u', 'r', 'r', 'e', 'n', 't', ' ', 'f', 'o', 'r', 'm', 'u', 'l', 'a', ':', '\n', 'B', 'a', 's', 'e', ':', ' '];
        proof {
            assert(out@ =~= current_formula_chars());
        }
        let ghost head = out@;
        let mut i: usize = 0;
        while i < self.env.base.len()
            invariant
                self.inv(),
                i <= self.env.base.entries().len(),
                out@ == head + base_state_chars(self.env.psterms@, self.env.base.entries(), self.env.attributes@, i as int),
            decreases self.env.base.entries().len() - i,
        {
            let ghost fact = tid_chars(self.env.psterms@, self.env.base.entries()[i as int].term, None, DisplayMode::Plain, RENDER_DEPTH as nat);
            if i > 0 {
                out.push(',');
            }
            let gone = self.env.attributes.check(KeyObject::BaseIndex(i), deleted_name(), true_value());
            if gone {
                out.push('[');
            }
            push_tid(&mut out, &self.env.psterms, self.env.base.get(i).term, None, DisplayMode::Plain, RENDER_DEPTH);
            if gone {
                out.push(']');
            }
            i = i + 1;
            proof {
                assert(gone == is_deleted(self.env.attributes@, i - 1));
                assert(base_state_chars(self.env.psterms@, self.env.base.entries(), self.env.attributes@, i as int)
                    == base_state_chars(self.env.psterms@, self.env.base.entries(), self.env.attributes@, i - 1) + (if i >= 2 {
                    seq![',']
                } else {
                    Seq::<char>::empty()
                }) + if gone {
                    seq!['['] + fact + seq![']']
                } else {
                    fact
                });
                assert(out@ =~= head + base_state_chars(self.env.psterms@, self.env.base.entries(), self.env.attributes@, i as int));
            }
        }
        out.push('\n');
        out.push('\n');
        out.push('Q');
        out.push('u');
        out.push('e');
        out.push('s');
        out.push('t');
        out.push('i');
        out.push('o');
        out.push('n');
        out.push('s');
        out.push(':');
        out.push('\n');
        let ghost mid = out@;
        proof {
            assert(mid =~= head + base_state_chars(self.env.psterms@, self.env.base.entries(), self.env.attributes@, self.env.base.entries().len() as int) + questions_header_chars());
        }
        let mut j: usize = 0;
        while j < self.questions.len()
            invariant
                self.inv(),
                j <= self.questions@.len(),
                out@ == mid + questions_chars(self.env.psterms@, self.tqfs@, self.bstack@, self.questions@, j as int),
            decreases self.questions@.len() - j,
        {
            let ghost before = out@;
            out.push('(');
            push_nat_chars(&mut out, j);
            out.push(')');
            out.push(' ');
            let ghost after_num = out@;
            let q = &self.questions[j];
            let ctx = if q.fstack_i < self.bstack.len() {
                Some(&self.bstack[q.fstack_i].context)
            } else {
                None
            };
            let empty: Vec<char> = Vec::new();
            self.push_tqf(&mut out, q.aformula, &empty, ctx);
            j = j + 1;
            proof {
                assert(empty@ =~= Seq::<char>::empty());
                assert(ctx_view(ctx) == question_ctx(self.bstack@, self.questions@[j - 1]));
                assert(after_num =~= before + seq!['('] + nat_chars((j - 1) as nat) + seq![')', ' ']);
                assert(out@ == after_num + tqf_chars(self.env.psterms@, self.tqfs@, self.questions@[j - 1].aformula, Seq::empty(), question_ctx(self.bstack@, self.questions@[j - 1])));
                assert(questions_chars(self.env.psterms@, self.tqfs@, self.bstack@, self.questions@, j as int) == questions_chars(self.env.psterms@, self.tqfs@, self.bstack@, self.questions@, j - 1) + seq!['('] + nat_chars((j - 1) as nat) + seq![')', ' '] + tqf_chars(self.env.psterms@, self.tqfs@, self.questions@[j - 1].aformula, Seq::empty(), question_ctx(self.bstack@, self.questions@[j - 1])));
                assert(out@ =~= mid + questions_chars(self.env.psterms@, self.tqfs@, self.bstack@, self.questions@, j as int));
            }
        }
        string_of(&out)
    }
}

/// `solve(text, limit)`: runs a prover on the formula written in `text`
/// for at most `limit` steps, and gives whether it refuted it.  Nothing
/// when the text is not a formula, the limit is negative, the nesting of
/// provers is too deep, or the inner prover fails.
pub fn solve<H: Host>(args: &Vec<TermId>, psterms: &mut PSTerms, host: &mut H, depth: usize) -> (r:
    ProcessingResult)
    requires
        old(psterms)@.wf(),
        old(psterms)@.has_booleans(),
        args_valid(old(psterms)@, args@),
    ensures
        final(psterms)@.wf(),
        final(psterms)@.has_booleans(),
        final(psterms)@ == old(psterms)@,
        !(depth > 0 && args@.len() == 2 && str_of(old(psterms)@, args@[0]) is Some && int_of(old(psterms)@, args@[1]) is Some
            && int_of(old(psterms)@, args@[1]).unwrap() >= 0) ==> r is Error,
        !(r is Error) ==> r == ProcessingResult::Existing(TermId(0)) || r == ProcessingResult::Existing(TermId(1)),
        depth > 0 && args@.len() == 2 && str_of(old(psterms)@, args@[0]) is Some && int_of(old(psterms)@, args@[1])
            is Some && 0 <= int_of(old(psterms)@, args@[1]).unwrap() <= usize::MAX ==> {
            let text = str_of(old(psterms)@, args@[0]).unwrap();
            let limit = int_of(old(psterms)@, args@[1]).unwrap();
            &&& !text_accepted(text) ==> r is Error
            &&& text_accepted(text) && limit == 0 ==> r == ProcessingResult::Existing(TermId(0))
            &&& r == ProcessingResult::Existing(TermId(1)) ==> text_accepted(text) && limit >= 1
        },
    decreases depth, 0nat, 0nat, 0nat,
{
    if depth == 0 || args.len() != 2 {
        return ProcessingResult::Error;
    }
    let src = match psterms.term_ref(&args[0]) {
        Term::String(s) => s.clone(),
        _ => {
            return ProcessingResult::Error;
        },
    };
    let d = match psterms.term_ref(&args[1]) {
        Term::Integer(d) => *d,
        _ => {
            return ProcessingResult::Error;
        },
    };
    if d < 0 || d as u64 > usize::MAX as u64 {
        return ProcessingResult::Error;
    }
    let mut inner = match Solver::parse_string_at(src.as_str(), Strategy::General, depth - 1) {
        Ok(sv) => sv,
        Err(_) => {
            return ProcessingResult::Error;
        },
    };
    let res = inner.solver_loop(d as usize, host);
    solve_answer(res.t)
}

/// What `solve` answers for an inner run that ended with `t`: true (term
/// 1) exactly when the run refuted its formula, false (term 0) when it
/// reached its step limit or found no answer, nothing when an interpreted
/// function failed.
pub fn solve_answer(t: SolverResultType) -> (r: ProcessingResult)
    ensures
        r == ProcessingResult::Existing(TermId(1)) <==> t == SolverResultType::Refuted,
        r == ProcessingResult::Existing(TermId(0)) <==> (t == SolverResultType::LimitReached || t
            == SolverResultType::Exhausted),
        r is Error <==> t == SolverResultType::Error,
{
    match t {
        SolverResultType::Error => ProcessingResult::Error,
        SolverResultType::Refuted => {
            ProcessingResult::Existing(TermId(1))
        },
        _ => ProcessingResult::Existing(TermId(0)),
    }
}

} // verus!
