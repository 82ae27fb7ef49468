use vstd::prelude::*;
use crate::misc::{Quantifier, TermId, TqfId, QuestionId, BlockId, DisplayMode, ProcessingResult};
use crate::answer::{
    Answer, AnswerV, LogItem, LogItemV, MatchingState, answer_shape, remove_keys, lemma_remove_keys, next_a_v, next_b_v,
    next_k_v,
};
use crate::term::{PSTerms, PSTermsV, Term, TermV, BTerm};
use crate::context::Context;
use crate::environment::{PEnv, Host, env_ok};
use crate::ifunctions::{grows, lemma_grows_refl, lemma_grows_trans, deleted_name, true_value, deleted_chars, true_word};
use crate::attributes::{KeyObject, Setting, holds};
use crate::strategies::{StrategyItem, SelectorStrategy, AnswerFilter};
use crate::solver::{
    matching, processing, matching_step, same_search, PROCESSING_FUEL, matches_under, step_avars, matching_extends,
    lemma_matches_under_grows, lemma_matches_under_mono, keeps, match_run,
};
use crate::render::{tid_chars, push_tid, ctx_view, RENDER_DEPTH};
use crate::text::string_of;

verus! {

/// A typed quantifier formula: a quantifier over `vars` guarding a conjunct,
/// with commands to run and the formulas that follow it.
pub struct Tqf {
    pub quantifier: Quantifier,
    pub vars: Vec<TermId>,
    pub conj: Vec<TermId>,
    pub commands: Vec<TermId>,
    pub next: Vec<TqfId>,
}

impl Tqf {
    pub fn conj_len(&self) -> (n: usize)
        ensures
            n == self.conj@.len(),
    {
        self.conj.len()
    }
}

/// A universal formula asked against the base of a branch: its answers
/// under construction, found, and used.
pub struct Question {
    pub qid: QuestionId,
    pub bid: BlockId,
    pub aformula: TqfId,
    /// The place in the branch stack of the block whose context the
    /// question is asked in.
    pub fstack_i: usize,
    pub curr_answer_stack: Vec<Answer>,
    pub answers: Vec<Answer>,
    pub used_answers: Vec<Answer>,
}

/// The answers as values.
pub open spec fn views(s: Seq<Answer>) -> Seq<AnswerV> {
    s.map_values(|a: Answer| a@)
}

/// The answers of `s` not found in block `bid`, in order.
pub open spec fn not_of_block(s: Seq<AnswerV>, bid: BlockId) -> Seq<AnswerV> {
    s.filter(|a: AnswerV| a.bid != bid)
}

/// The answers of `v` not found in block `bid`, in order.
fn retain_not_of_block(v: &Vec<Answer>, bid: BlockId) -> (r: Vec<Answer>)
    ensures
        views(r@) == not_of_block(views(v@), bid),
{
    let ghost pred = |a: AnswerV| a.bid != bid;
    let mut r: Vec<Answer> = Vec::new();
    let mut i: usize = 0;
    while i < v.len()
        invariant
            i <= v@.len(),
            pred == (|a: AnswerV| a.bid != bid),
            views(r@) == views(v@).take(i as int).filter(pred),
        decreases v@.len() - i,
    {
        let ghost r0 = r@;
        proof {
            assert(views(v@).take(i + 1) =~= views(v@).take(i as int).push(v@[i as int]@));
            views(v@).take(i as int).lemma_filter_push(v@[i as int]@, pred);
        }
        if v[i].bid != bid {
            let a = v[i].copy();
            r.push(a);
            proof {
                assert(views(r@) =~= views(r0).push(v@[i as int]@));
            }
        }
        i = i + 1;
    }
    proof {
        assert(views(v@).take(i as int) =~= views(v@));
    }
    r
}

/// `bn * (2k + 1) * (2m, or 1 when no answer was used)`: how eagerly a
/// question with `bn` branches, whose last used answer was taken `m`
/// levels up, and which gave `k` answers so far, is tried; the lower, the
/// sooner.
pub open spec fn rate(bn: nat, last: Option<usize>, k: nat) -> nat {
    bn * (2 * k + 1) * (match last {
        Some(m) => 2 * m,
        None => 1,
    }) as nat
}

/// `v`, or `u128::MAX` when it does not fit.
pub open spec fn capped(v: nat) -> u128 {
    if v <= u128::MAX {
        v as u128
    } else {
        u128::MAX
    }
}

fn sat_mul(a: u128, b: u128) -> (r: u128)
    ensures
        r == capped((a * b) as nat),
{
    if a != 0 && b > u128::MAX / a {
        proof {
            assert(a * b > u128::MAX) by (nonlinear_arith)
                requires
                    a != 0,
                    b > u128::MAX / a,
            ;
        }
        u128::MAX
    } else {
        proof {
            if a != 0 {
                assert(a * b <= u128::MAX) by (nonlinear_arith)
                    requires
                        a != 0,
                        b <= u128::MAX / a,
                ;
            }
        }
        a * b
    }
}

proof fn lemma_capped_mul(x: nat, z: nat)
    ensures
        capped((capped(x) * z) as nat) == capped(x * z),
{
    if x > u128::MAX {
        if z > 0 {
            assert(capped(x) * z >= u128::MAX) by (nonlinear_arith)
                requires
                    capped(x) == u128::MAX,
                    z >= 1,
            ;
            assert(x * z > u128::MAX) by (nonlinear_arith)
                requires
                    x > u128::MAX,
                    z >= 1,
            ;
        }
    }
}

impl Question {
    /// Forgets the answers found in block `bid`.
    pub fn remove_answers(&mut self, bid: BlockId)
        ensures
            views(final(self).answers@) == not_of_block(views(old(self).answers@), bid),
            views(final(self).curr_answer_stack@) == not_of_block(views(old(self).curr_answer_stack@), bid),
            views(final(self).used_answers@) == not_of_block(views(old(self).used_answers@), bid),
            final(self).qid == old(self).qid,
            final(self).bid == old(self).bid,
            final(self).aformula == old(self).aformula,
            final(self).fstack_i == old(self).fstack_i,
    {
        self.answers = retain_not_of_block(&self.answers, bid);
        self.curr_answer_stack = retain_not_of_block(&self.curr_answer_stack, bid);
        self.used_answers = retain_not_of_block(&self.used_answers, bid);
    }
}

/// Question `n` is question `o` once block `bid` has closed: the same
/// question, without the answers found in that block.
pub open spec fn closed_in(o: Question, n: Question, bid: BlockId) -> bool {
    &&& n.qid == o.qid
    &&& n.bid == o.bid
    &&& n.aformula == o.aformula
    &&& n.fstack_i == o.fstack_i
    &&& views(n.answers@) == not_of_block(views(o.answers@), bid)
    &&& views(n.curr_answer_stack@) == not_of_block(views(o.curr_answer_stack@), bid)
    &&& views(n.used_answers@) == not_of_block(views(o.used_answers@), bid)
}

/// `new` is what block `bid` leaves of the questions `old` when it closes,
/// taken from the front: a question asked in that block goes, any other
/// stays in its place without that block's answers.
pub open spec fn questions_closed(old: Seq<Question>, new: Seq<Question>, bid: BlockId) -> bool
    decreases old.len(),
{
    if old.len() == 0 {
        new.len() == 0
    } else if old[0].bid == bid {
        questions_closed(old.skip(1), new, bid)
    } else {
        &&& new.len() > 0
        &&& closed_in(old[0], new[0], bid)
        &&& questions_closed(old.skip(1), new.skip(1), bid)
    }
}

/// The questions not asked in block `bid`, in order.
pub open spec fn asked_elsewhere(qs: Seq<Question>, bid: BlockId) -> Seq<Question> {
    qs.filter(|q: Question| q.bid != bid)
}

/// When block `bid` closes, no question asked in it is left, and the
/// questions left are exactly those asked in other blocks, in their order,
/// each without the answers found in block `bid`.
pub proof fn lemma_closing_drops_block_questions(old: Seq<Question>, new: Seq<Question>, bid: BlockId)
    requires
        questions_closed(old, new, bid),
    ensures
        forall|j: int| 0 <= j < new.len() ==> (#[trigger] new[j]).bid != bid,
        new.len() == asked_elsewhere(old, bid).len(),
        forall|j: int| 0 <= j < new.len() ==> closed_in(asked_elsewhere(old, bid)[j], #[trigger] new[j], bid),
    decreases old.len(),
{
    let pred = |q: Question| q.bid != bid;
    if old.len() > 0 {
        let rest = old.skip(1);
        assert(old =~= seq![old[0]] + rest);
        rest.lemma_filter_prepend(old[0], pred);
        if old[0].bid == bid {
            lemma_closing_drops_block_questions(rest, new, bid);
            assert(asked_elsewhere(old, bid) =~= asked_elsewhere(rest, bid));
        } else {
            lemma_closing_drops_block_questions(rest, new.skip(1), bid);
            let f = asked_elsewhere(old, bid);
            assert(f =~= seq![old[0]] + asked_elsewhere(rest, bid));
            assert forall|j: int| 0 <= j < new.len() implies (#[trigger] new[j]).bid != bid && closed_in(f[j], new[j], bid) by {
                if j > 0 {
                    assert(new.skip(1)[j - 1] == new[j]);
                }
            }
        }
    } else {
        assert(asked_elsewhere(old, bid) =~= Seq::<Question>::empty());
    }
}

impl Question {

    /// The number of formulas following the question's formula (0 for a
    /// formula that `tqfs` does not hold).
    pub open spec fn branches_of(&self, tqfs: Seq<Tqf>) -> nat {
        if self.aformula.0 < tqfs.len() {
            tqfs[self.aformula.0 as int].next@.len()
        } else {
            0
        }
    }

    pub fn branches(&self, tqfs: &Vec<Tqf>) -> (n: usize)
        ensures
            n == self.branches_of(tqfs@),
    {
        if self.aformula.0 < tqfs.len() {
            tqfs[self.aformula.0].next.len()
        } else {
            0
        }
    }

    /// How many levels above `curr_level` the last used answer was taken
    /// (0 when it was taken at or below it); `None` when no answer was used.
    pub open spec fn last_level_of(&self, curr_level: usize) -> Option<usize> {
        if self.used_answers@.len() == 0 {
            None
        } else {
            let l = match self.used_answers@.last().level {
                Some(l) => l,
                None => 0,
            };
            Some(if curr_level >= l { (curr_level - l) as usize } else { 0 })
        }
    }

    pub fn last_level(&self, curr_level: usize) -> (r: Option<usize>)
        ensures
            r == self.last_level_of(curr_level),
    {
        let n = self.used_answers.len();
        if n == 0 {
            None
        } else {
            let l = match self.used_answers[n - 1].level {
                Some(l) => l,
                None => 0,
            };
            Some(if curr_level >= l { curr_level - l } else { 0 })
        }
    }

    pub fn used_count(&self) -> (n: usize)
        ensures
            n == self.used_answers@.len(),
    {
        self.used_answers.len()
    }

    pub fn gs_state(&self, tqfs: &Vec<Tqf>, curr_level: usize) -> (r: (usize, Option<usize>, usize))
        ensures
            r == (self.branches_of(tqfs@) as usize, self.last_level_of(curr_level), self.used_answers@.len() as usize),
    {
        (self.branches(tqfs), self.last_level(curr_level), self.used_count())
    }

    /// The rate of the question: see [`rate`].
    pub open spec fn rate_of(&self, tqfs: Seq<Tqf>, curr_level: usize) -> u128 {
        capped(rate(self.branches_of(tqfs), self.last_level_of(curr_level), self.used_answers@.len()))
    }

    pub fn gs_rate(&self, tqfs: &Vec<Tqf>, curr_level: usize) -> (r: u128)
        ensures
            r == self.rate_of(tqfs@, curr_level),
    {
        let bn = self.branches(tqfs);
        let last = self.last_level(curr_level);
        let k = self.used_count();
        let f = match last {
            Some(m) => 2 * (m as u128),
            None => 1,
        };
        let k2 = 2 * (k as u128) + 1;
        let x = sat_mul(bn as u128, k2);
        let r = sat_mul(x, f);
        proof {
            let bk: nat = (bn * k2) as nat;
            let ff: nat = (match last {
                Some(m) => 2 * m,
                None => 1,
            }) as nat;
            assert(f as nat == ff);
            lemma_capped_mul(bk, ff);
            assert(rate(self.branches_of(tqfs@), last, k as nat) == bk * ff);
        }
        r
    }
}

/// Where a run of the search of a question, step by step, stands.
pub enum SearchEnd {
    /// It goes on from this answer under construction and these answers.
    Go(AnswerV, Seq<AnswerV>),
    /// It stopped (its steps ran out, or nothing is left to try).
    Stop(AnswerV, Seq<AnswerV>),
    /// It found a new complete answer, the last of the answers.
    Found(AnswerV, Seq<AnswerV>),
    /// Matching a fact could not be decided.
    Fail(AnswerV),
    /// It met an interpreted atom, which this description leaves to the
    /// interpreted functions.
    Open,
}

/// The fact at place `bi` of `bs` is deleted, or marked so by an attribute.
pub open spec fn fact_gone(bs: Seq<BTerm>, attrs: Seq<Setting>, bi: usize) -> bool {
    bs[bi as int].deleted || holds(attrs, KeyObject::BaseIndex(bi), deleted_chars(), true_word())
}

/// One step of the search of a question with conjunct `conj` over the base
/// `bs`, from the answer `a` under construction and the answers `ans` found,
/// when each new answer is taken as found.
pub open spec fn search_step(
    p: PSTermsV,
    bs: Seq<BTerm>,
    attrs: Seq<Setting>,
    conj: Seq<TermId>,
    ctx: Map<usize, usize>,
    a: AnswerV,
    ans: Seq<AnswerV>,
) -> SearchEnd {
    match a.state {
        MatchingState::Success | MatchingState::NextA | MatchingState::Zero => SearchEnd::Go(next_a_v(a, p, conj), ans),
        MatchingState::NextB | MatchingState::Fail => if a.log.len() > 0 {
            SearchEnd::Go(next_b_v(a), ans)
        } else {
            SearchEnd::Go(AnswerV { state: MatchingState::NextK, ..a }, ans)
        },
        MatchingState::Ready => if a.log.len() == 0 {
            SearchEnd::Go(AnswerV { state: MatchingState::Rollback, ..a }, ans)
        } else {
            match a.log.last() {
                LogItemV::Matching { qatom_i, batom_i, .. } => if batom_i >= bs.len() || qatom_i >= conj.len()
                    || fact_gone(bs, attrs, batom_i) {
                    SearchEnd::Go(AnswerV { state: MatchingState::Fail, ..a }, ans)
                } else {
                    let m = match_run(p, ctx, a, bs[batom_i as int].term, conj[qatom_i as int], PROCESSING_FUEL as nat);
                    if !m.2 {
                        SearchEnd::Open
                    } else {
                        match m.0 {
                            Some(true) => SearchEnd::Go(AnswerV { state: MatchingState::Success, ..m.1 }, ans),
                            Some(false) => SearchEnd::Go(AnswerV { state: MatchingState::Fail, ..m.1 }, ans),
                            None => SearchEnd::Fail(m.1),
                        }
                    }
                },
                LogItemV::Interpretation { .. } => SearchEnd::Open,
            }
        },
        MatchingState::Rollback => if a.log.len() > 0 {
            SearchEnd::Go(AnswerV { state: MatchingState::NextB, ..a }, ans)
        } else {
            SearchEnd::Go(AnswerV { state: MatchingState::NextK, ..a }, ans)
        },
        MatchingState::NextK => if a.conj_len == 0 {
            SearchEnd::Go(AnswerV { state: MatchingState::Exhausted, ..a }, ans)
        } else {
            SearchEnd::Go(next_k_v(a), ans)
        },
        MatchingState::Exhausted => if a.upper < bs.len() - 1 {
            SearchEnd::Go(
                AnswerV { middle: a.upper, upper: (bs.len() - 1) as usize, state: MatchingState::Zero, ..a },
                ans,
            )
        } else {
            SearchEnd::Stop(a, ans)
        },
        MatchingState::Answer => {
            let a1 = AnswerV {
                state: if a.conj_len == 0 {
                    MatchingState::Empty
                } else {
                    MatchingState::NextB
                },
                ..a
            };
            if exists|j: int| 0 <= j < ans.len() && (#[trigger] ans[j]).amap == a1.amap {
                SearchEnd::Go(a1, ans)
            } else {
                SearchEnd::Found(a1, ans.push(a1))
            }
        },
        MatchingState::Empty => SearchEnd::Stop(a, ans),
    }
}

/// The search run for at most `steps` steps (see [`search_step`]).
pub open spec fn search_run(
    p: PSTermsV,
    bs: Seq<BTerm>,
    attrs: Seq<Setting>,
    conj: Seq<TermId>,
    ctx: Map<usize, usize>,
    a: AnswerV,
    ans: Seq<AnswerV>,
    steps: nat,
) -> SearchEnd
    decreases steps,
{
    if steps == 0 {
        SearchEnd::Stop(a, ans)
    } else {
        match search_step(p, bs, attrs, conj, ctx, a, ans) {
            SearchEnd::Go(a2, ans2) => search_run(p, bs, attrs, conj, ctx, a2, ans2, (steps - 1) as nat),
            e => e,
        }
    }
}

/// What a search keeps of a question: its stack of current answers and the
/// answers it found.
pub struct QView {
    pub stack: Seq<AnswerV>,
    pub answers: Seq<AnswerV>,
}

/// How a search of a question ends: an answer found (its place) or none,
/// with what the question keeps afterwards; a failure; or a run that met an
/// interpreted atom.
pub enum LocalEnd {
    Found(usize, QView),
    NotFound(QView),
    Failed,
    Open,
}

/// The stack of current answers without the one for block `bid` on top.
pub open spec fn stack_below(stack: Seq<AnswerV>, bid: BlockId) -> Seq<AnswerV> {
    if stack.len() > 0 && stack.last().bid == bid {
        stack.drop_last()
    } else {
        stack
    }
}

/// How the search of the question with formula `aformula`, identifier
/// `qid`, stack `stack` and answers `answers` ends when run for block `bid`
/// for `limit` steps under the context `ctx`, each new answer taken as
/// found.
#[verifier::opaque]
pub open spec fn local_end(
    p: PSTermsV,
    bs: Seq<BTerm>,
    attrs: Seq<Setting>,
    tqfs: Seq<Tqf>,
    ctx: Map<usize, usize>,
    aformula: TqfId,
    qid: QuestionId,
    stack: Seq<AnswerV>,
    answers: Seq<AnswerV>,
    bid: BlockId,
    limit: usize,
) -> LocalEnd {
    let blen = bs.len();
    if stack.len() == 0 && aformula.0 >= tqfs.len() {
        LocalEnd::Failed
    } else if stack.len() == 0 && blen == 0 {
        LocalEnd::NotFound(QView { stack: stack, answers: answers })
    } else {
        let n: nat = if aformula.0 < tqfs.len() {
            tqfs[aformula.0 as int].conj@.len()
        } else {
            0
        };
        let a0 = start_answer(stack, bid, qid, blen, n);
        let below = stack_below(stack, bid);
        if blen == 0 || limit == 0 {
            LocalEnd::NotFound(QView { stack: below.push(a0), answers: answers })
        } else if aformula.0 >= tqfs.len() {
            LocalEnd::Failed
        } else if stack.len() > 0 && !(stack.last().conj_len == n && answer_shape(stack.last(), n)) {
            LocalEnd::Failed
        } else {
            match search_run(p, bs, attrs, tqfs[aformula.0 as int].conj@, ctx, a0, answers, limit as nat) {
                SearchEnd::Found(a, s) => LocalEnd::Found((s.len() - 1) as usize, QView { stack: below.push(a), answers: s }),
                SearchEnd::Stop(a, s) => LocalEnd::NotFound(QView { stack: below.push(a), answers: s }),
                SearchEnd::Fail(_) => LocalEnd::Failed,
                _ => LocalEnd::Open,
            }
        }
    }
}

/// The search's result `r`, stack `stack` and answers `answers` are how
/// `e` says it ends (an open end fixes nothing).
pub open spec fn local_outcome(e: LocalEnd, r: LocalSearch, stack: Seq<AnswerV>, answers: Seq<AnswerV>) -> bool {
    match e {
        LocalEnd::Found(i, v) => r == LocalSearch::Found(i) && stack == v.stack && answers == v.answers,
        LocalEnd::NotFound(v) => r == LocalSearch::NotFound && stack == v.stack && answers == v.answers,
        LocalEnd::Failed => r == LocalSearch::Failed,
        LocalEnd::Open => true,
    }
}

/// The answer a search for block `bid` starts from: the current answer on
/// top of `stack`, now in block `bid`, or a fresh one over a base of `blen`
/// facts and a conjunct of `n` atoms.
pub open spec fn start_answer(stack: Seq<AnswerV>, bid: BlockId, qid: QuestionId, blen: nat, n: nat) -> AnswerV {
    if stack.len() > 0 {
        AnswerV { bid: bid, ..stack.last() }
    } else {
        AnswerV {
            amap: Map::empty(),
            log: Seq::empty(),
            bid: bid,
            qid: qid,
            lower: 0,
            middle: 0,
            upper: (blen - 1) as usize,
            k: 0,
            conj_len: n as usize,
            state: MatchingState::Zero,
            level: None,
        }
    }
}

/// What a search for an answer ended with: the place of the answer taken
/// among the question's answers, no answer, or a failure to evaluate an
/// interpreted function.
#[derive(Copy, Clone, PartialEq, Eq, Structural, Debug)]
pub enum LocalSearch {
    Found(usize),
    NotFound,
    Failed,
}

/// A complete answer: one step for each atom of a conjunct of `n` atoms, in order.
pub open spec fn complete(a: AnswerV, n: nat) -> bool {
    answer_shape(a, n) && a.log.len() == n
}

/// The variables bound by the steps of `log` after step `j`.
pub open spec fn keys_after(log: Seq<LogItemV>, j: int) -> Set<usize> {
    Set::new(|k: usize| exists|i: int| j < i < log.len() && #[trigger] step_avars(log[i]).contains(TermId(k)))
}

/// A step holds under the substitution `m`: the fact of a matching step is
/// in the base and is an instance of the step's atom of the conjunct (an
/// interpreted step stands as its evaluation gave it).
pub open spec fn step_holds(
    p: PSTermsV,
    base: Seq<BTerm>,
    conj: Seq<TermId>,
    ctx: Map<usize, usize>,
    m: Map<usize, usize>,
    item: LogItemV,
) -> bool {
    match item {
        LogItemV::Matching { qatom_i, batom_i, .. } => {
            &&& batom_i < base.len()
            &&& qatom_i < conj.len()
            &&& matches_under(
                p,
                ctx,
                m,
                base[batom_i as int].term,
                conj[qatom_i as int],
                PROCESSING_FUEL as nat,
            )
        },
        LogItemV::Interpretation { .. } => true,
    }
}

/// How many steps of the search are settled: all of them, but the last one
/// while it is being tried or has just failed.
pub open spec fn settled_len(a: AnswerV) -> int {
    if a.state is Ready || a.state is Fail {
        a.log.len() - 1
    } else {
        a.log.len() as int
    }
}

/// Every settled step of the search holds under the bindings made up to it.
pub open spec fn search_sound(
    p: PSTermsV,
    base: Seq<BTerm>,
    conj: Seq<TermId>,
    ctx: Map<usize, usize>,
    a: AnswerV,
) -> bool {
    forall|j: int|
        0 <= j < settled_len(a) ==> step_holds(p, base, conj, ctx, a.amap.remove_keys(keys_after(a.log, j)), #[trigger] a.log[j])
}

/// Every step of an answer holds under its substitution.
pub open spec fn answer_sound(
    p: PSTermsV,
    base: Seq<BTerm>,
    conj: Seq<TermId>,
    ctx: Map<usize, usize>,
    a: AnswerV,
) -> bool {
    forall|j: int| 0 <= j < a.log.len() ==> step_holds(p, base, conj, ctx, a.amap, #[trigger] a.log[j])
}

proof fn lemma_step_holds_grows(
    p: PSTermsV,
    q: PSTermsV,
    base: Seq<BTerm>,
    conj: Seq<TermId>,
    ctx: Map<usize, usize>,
    m: Map<usize, usize>,
    item: LogItemV,
)
    requires
        p.terms.len() <= q.terms.len(),
        q.terms.subrange(0, p.terms.len() as int) == p.terms,
        step_holds(p, base, conj, ctx, m, item),
    ensures
        step_holds(q, base, conj, ctx, m, item),
{
    if let LogItemV::Matching { qatom_i, batom_i, .. } = item {
        lemma_matches_under_grows(p, q, ctx, m, base[batom_i as int].term, conj[qatom_i as int], PROCESSING_FUEL as nat);
    }
}

pub proof fn lemma_search_sound_grows(
    p: PSTermsV,
    q: PSTermsV,
    base: Seq<BTerm>,
    conj: Seq<TermId>,
    ctx: Map<usize, usize>,
    a: AnswerV,
)
    requires
        p.terms.len() <= q.terms.len(),
        q.terms.subrange(0, p.terms.len() as int) == p.terms,
        search_sound(p, base, conj, ctx, a),
    ensures
        search_sound(q, base, conj, ctx, a),
{
    assert forall|j: int| 0 <= j < settled_len(a) implies step_holds(
        q,
        base,
        conj,
        ctx,
        a.amap.remove_keys(keys_after(a.log, j)),
        #[trigger] a.log[j],
    ) by {
        lemma_step_holds_grows(p, q, base, conj, ctx, a.amap.remove_keys(keys_after(a.log, j)), a.log[j]);
    }
}

proof fn lemma_answer_sound_grows(
    p: PSTermsV,
    q: PSTermsV,
    base: Seq<BTerm>,
    conj: Seq<TermId>,
    ctx: Map<usize, usize>,
    a: AnswerV,
)
    requires
        p.terms.len() <= q.terms.len(),
        q.terms.subrange(0, p.terms.len() as int) == p.terms,
        answer_sound(p, base, conj, ctx, a),
    ensures
        answer_sound(q, base, conj, ctx, a),
{
    assert forall|j: int| 0 <= j < a.log.len() implies step_holds(q, base, conj, ctx, a.amap, #[trigger] a.log[j]) by {
        lemma_step_holds_grows(p, q, base, conj, ctx, a.amap, a.log[j]);
    }
}

/// A search whose steps are all settled gives a sound answer.
proof fn lemma_answer_of_search(
    p: PSTermsV,
    base: Seq<BTerm>,
    conj: Seq<TermId>,
    ctx: Map<usize, usize>,
    a: AnswerV,
)
    requires
        search_sound(p, base, conj, ctx, a),
        settled_len(a) == a.log.len(),
    ensures
        answer_sound(p, base, conj, ctx, a),
{
    assert forall|j: int| 0 <= j < a.log.len() implies step_holds(p, base, conj, ctx, a.amap, #[trigger] a.log[j]) by {
        let m1 = a.amap.remove_keys(keys_after(a.log, j));
        assert(step_holds(p, base, conj, ctx, m1, a.log[j]));
        if let LogItemV::Matching { qatom_i, batom_i, .. } = a.log[j] {
            lemma_matches_under_mono(p, ctx, m1, a.amap, base[batom_i as int].term, conj[qatom_i as int], PROCESSING_FUEL as nat);
        }
    }
}

/// A search stays sound when neither its steps nor its bindings change and
/// no more of its steps are taken as settled.
proof fn lemma_sound_same(
    p: PSTermsV,
    base: Seq<BTerm>,
    conj: Seq<TermId>,
    ctx: Map<usize, usize>,
    a: AnswerV,
    b: AnswerV,
)
    requires
        search_sound(p, base, conj, ctx, a),
        b.log == a.log,
        b.amap == a.amap,
        settled_len(b) <= settled_len(a),
    ensures
        search_sound(p, base, conj, ctx, b),
{
    assert forall|j: int| 0 <= j < settled_len(b) implies step_holds(
        p,
        base,
        conj,
        ctx,
        b.amap.remove_keys(keys_after(b.log, j)),
        #[trigger] b.log[j],
    ) by {
        assert(a.log[j] == b.log[j]);
    }
}

/// Settling the last step keeps a search sound when that step holds.
proof fn lemma_sound_settle_last(
    p: PSTermsV,
    base: Seq<BTerm>,
    conj: Seq<TermId>,
    ctx: Map<usize, usize>,
    a: AnswerV,
    b: AnswerV,
)
    requires
        search_sound(p, base, conj, ctx, a),
        a.log.len() > 0,
        settled_len(a) == a.log.len() - 1,
        b.log == a.log,
        b.amap == a.amap,
        settled_len(b) == b.log.len(),
        step_holds(p, base, conj, ctx, b.amap, b.log.last()),
    ensures
        search_sound(p, base, conj, ctx, b),
{
    let l = b.log.len() - 1;
    assert(keys_after(b.log, l) =~= Set::<usize>::empty());
    assert(b.amap.remove_keys(keys_after(b.log, l)) =~= b.amap);
    assert forall|j: int| 0 <= j < settled_len(b) implies step_holds(
        p,
        base,
        conj,
        ctx,
        b.amap.remove_keys(keys_after(b.log, j)),
        #[trigger] b.log[j],
    ) by {
        if j < l {
            assert(a.log[j] == b.log[j]);
        }
    }
}

/// A new step without bindings keeps a settled search sound.
proof fn lemma_sound_push_step(
    p: PSTermsV,
    base: Seq<BTerm>,
    conj: Seq<TermId>,
    ctx: Map<usize, usize>,
    a: AnswerV,
    b: AnswerV,
    item: LogItemV,
)
    requires
        search_sound(p, base, conj, ctx, a),
        settled_len(a) == a.log.len(),
        step_avars(item).len() == 0,
        b.log == a.log.push(item),
        b.amap == a.amap,
        settled_len(b) == a.log.len(),
    ensures
        search_sound(p, base, conj, ctx, b),
{
    assert forall|j: int| 0 <= j < settled_len(b) implies step_holds(
        p,
        base,
        conj,
        ctx,
        b.amap.remove_keys(keys_after(b.log, j)),
        #[trigger] b.log[j],
    ) by {
        assert(b.log[j] == a.log[j]);
        assert forall|k: usize| keys_after(b.log, j).contains(k) == keys_after(a.log, j).contains(k) by {
            if keys_after(b.log, j).contains(k) {
                let i = choose|i: int| j < i < b.log.len() && #[trigger] step_avars(b.log[i]).contains(TermId(k));
                assert(i < a.log.len());
                assert(b.log[i] == a.log[i]);
            }
            if keys_after(a.log, j).contains(k) {
                let i = choose|i: int| j < i < a.log.len() && #[trigger] step_avars(a.log[i]).contains(TermId(k));
                assert(b.log[i] == a.log[i]);
            }
        }
        assert(keys_after(b.log, j) =~= keys_after(a.log, j));
    }
}

/// Moving the last step on, or taking it back, keeps a search sound.
proof fn lemma_sound_next_b(
    p: PSTermsV,
    base: Seq<BTerm>,
    conj: Seq<TermId>,
    ctx: Map<usize, usize>,
    a: AnswerV,
    b: AnswerV,
)
    requires
        search_sound(p, base, conj, ctx, a),
        a.log.len() > 0,
        settled_len(a) >= a.log.len() - 1,
        b.log.len() >= a.log.len() - 1,
        b.log.subrange(0, a.log.len() - 1) == a.log.drop_last(),
        b.log.len() == a.log.len() ==> step_avars(b.log.last()) == step_avars(a.log.last()),
        b.log.len() <= a.log.len(),
        b.amap == remove_keys(a.amap, step_avars(a.log.last())),
        settled_len(b) == a.log.len() - 1,
    ensures
        search_sound(p, base, conj, ctx, b),
{
    let l = a.log.len() - 1;
    let av = step_avars(a.log.last());
    assert forall|j: int| 0 <= j < settled_len(b) implies step_holds(
        p,
        base,
        conj,
        ctx,
        b.amap.remove_keys(keys_after(b.log, j)),
        #[trigger] b.log[j],
    ) by {
        assert(b.log.subrange(0, l)[j] == b.log[j]);
        assert(a.log.drop_last()[j] == a.log[j]);
        let ka = keys_after(a.log, j);
        let kb = keys_after(b.log, j);
        assert forall|k: usize| #[trigger] ka.contains(k) == (kb.contains(k) || av.contains(TermId(k))) by {
            if ka.contains(k) {
                let i = choose|i: int| j < i < a.log.len() && #[trigger] step_avars(a.log[i]).contains(TermId(k));
                if i < l {
                    assert(b.log.subrange(0, l)[i] == b.log[i]);
                    assert(a.log.drop_last()[i] == a.log[i]);
                    assert(step_avars(b.log[i]).contains(TermId(k)));
                }
            }
            if kb.contains(k) {
                let i = choose|i: int| j < i < b.log.len() && #[trigger] step_avars(b.log[i]).contains(TermId(k));
                if i < l {
                    assert(b.log.subrange(0, l)[i] == b.log[i]);
                    assert(a.log.drop_last()[i] == a.log[i]);
                } else {
                    assert(i == l);
                    assert(step_avars(a.log[l]).contains(TermId(k)));
                }
            }
            if av.contains(TermId(k)) {
                assert(step_avars(a.log[l]).contains(TermId(k)));
            }
        }
        assert forall|k: usize| #[trigger] b.amap.remove_keys(kb).contains_key(k) == a.amap.remove_keys(ka).contains_key(k) by {
            lemma_remove_keys(a.amap, av, k);
        }
        assert forall|k: usize| #[trigger] b.amap.remove_keys(kb).contains_key(k) implies b.amap.remove_keys(kb)[k]
            == a.amap.remove_keys(ka)[k] by {
            lemma_remove_keys(a.amap, av, k);
        }
        assert(b.amap.remove_keys(kb) =~= a.amap.remove_keys(ka));
    }
}

/// Matching in the last step keeps the settled steps of a search sound; if
/// it succeeded, the last step holds too.
proof fn lemma_sound_matched(
    p: PSTermsV,
    base: Seq<BTerm>,
    conj: Seq<TermId>,
    ctx: Map<usize, usize>,
    a: AnswerV,
    b: AnswerV,
)
    requires
        search_sound(p, base, conj, ctx, a),
        matching_step(a),
        settled_len(a) == a.log.len() - 1,
        matching_extends(a, b),
        settled_len(b) == b.log.len() - 1 || step_holds(p, base, conj, ctx, b.amap, b.log.last()),
        settled_len(b) == b.log.len() - 1 || settled_len(b) == b.log.len(),
    ensures
        search_sound(p, base, conj, ctx, b),
{
    let l = a.log.len() - 1;
    let aa = step_avars(a.log.last());
    let ba = step_avars(b.log.last());
    assert forall|j: int| 0 <= j < settled_len(b) implies step_holds(
        p,
        base,
        conj,
        ctx,
        b.amap.remove_keys(keys_after(b.log, j)),
        #[trigger] b.log[j],
    ) by {
        if j == l {
            assert(keys_after(b.log, l) =~= Set::<usize>::empty());
            assert(b.amap.remove_keys(keys_after(b.log, l)) =~= b.amap);
        } else {
            assert(b.log.drop_last()[j] == b.log[j]);
            assert(a.log.drop_last()[j] == a.log[j]);
            let ka = keys_after(a.log, j);
            let kb = keys_after(b.log, j);
            assert forall|k: usize| #[trigger] kb.contains(k) == (ka.contains(k) || ba.contains(TermId(k))) by {
                if kb.contains(k) {
                    let i = choose|i: int| j < i < b.log.len() && #[trigger] step_avars(b.log[i]).contains(TermId(k));
                    if i < l {
                        assert(b.log.drop_last()[i] == b.log[i]);
                        assert(a.log.drop_last()[i] == a.log[i]);
                        assert(step_avars(a.log[i]).contains(TermId(k)));
                    }
                }
                if ka.contains(k) {
                    let i = choose|i: int| j < i < a.log.len() && #[trigger] step_avars(a.log[i]).contains(TermId(k));
                    if i < l {
                        assert(b.log.drop_last()[i] == b.log[i]);
                        assert(a.log.drop_last()[i] == a.log[i]);
                        assert(step_avars(b.log[i]).contains(TermId(k)));
                    } else {
                        let x = choose|x: int| 0 <= x < aa.len() && aa[x] == TermId(k);
                        assert(ba.take(aa.len() as int)[x] == ba[x]);
                        assert(ba[x] == TermId(k));
                    }
                }
                if ba.contains(TermId(k)) {
                    assert(step_avars(b.log[l]).contains(TermId(k)));
                }
            }
            assert forall|k: usize| #[trigger] b.amap.remove_keys(kb).contains_key(k) == a.amap.remove_keys(
                ka,
            ).contains_key(k) by {
                if b.amap.contains_key(k) && !kb.contains(k) && !a.amap.contains_key(k) {
                    assert(ba.contains(TermId(k)));
                }
                if a.amap.contains_key(k) && !ka.contains(k) && ba.contains(TermId(k)) {
                    let x = choose|x: int| 0 <= x < ba.len() && ba[x] == TermId(k);
                    if x < aa.len() {
                        assert(ba.take(aa.len() as int)[x] == aa[x]);
                        assert(aa.contains(TermId(k)));
                        assert(step_avars(a.log[l]).contains(TermId(k)));
                    }
                }
            }
            assert(b.amap.remove_keys(kb) =~= a.amap.remove_keys(ka));
        }
    }
}

/// The search the question resumes from holds under the tables, the base
/// and the context (a question with no search under way starts afresh).
pub open spec fn resumes_soundly(
    q: Question,
    p: PSTermsV,
    base: Seq<BTerm>,
    tqfs: Seq<Tqf>,
    ctx: Map<usize, usize>,
) -> bool {
    q.curr_answer_stack@.len() > 0 && q.aformula.0 < tqfs.len() ==> search_sound(
        p,
        base,
        tqfs[q.aformula.0 as int].conj@,
        ctx,
        q.curr_answer_stack@.last()@,
    )
}

/// No two answers give the same substitution.
pub open spec fn distinct_amaps(s: Seq<AnswerV>) -> bool {
    forall|i: int, j: int| 0 <= i < j < s.len() ==> #[trigger] s[i].amap != #[trigger] s[j].amap
}

/// The variables bound at the steps of `log`, in the order they were bound.
pub open spec fn bound_vars(log: Seq<LogItemV>) -> Seq<TermId>
    decreases log.len(),
{
    if log.len() == 0 {
        Seq::empty()
    } else {
        bound_vars(log.drop_last()) + match log.last() {
            LogItemV::Matching { avars, .. } => avars,
            LogItemV::Interpretation { .. } => Seq::empty(),
        }
    }
}

/// How a binding is shown: `variable = value`.
pub open spec fn binding_chars(p: PSTermsV, v: TermId, m: Map<usize, usize>) -> Seq<char> {
    tid_chars(p, v, None, DisplayMode::Plain, RENDER_DEPTH as nat) + seq![' ', '=', ' '] + tid_chars(
        p,
        v,
        Some(m),
        DisplayMode::Plain,
        RENDER_DEPTH as nat,
    )
}

/// How the bindings of `vars` in `m` are shown, separated by `, `.
pub open spec fn bindings_chars(p: PSTermsV, vars: Seq<TermId>, m: Map<usize, usize>) -> Seq<char>
    decreases vars.len(),
{
    if vars.len() == 0 {
        Seq::empty()
    } else if vars.len() == 1 {
        binding_chars(p, vars[0], m)
    } else {
        bindings_chars(p, vars.drop_last(), m) + seq![',', ' '] + binding_chars(p, vars.last(), m)
    }
}

/// How an answer is shown to the user: its bindings in the order they were made.
pub open spec fn answer_chars(p: PSTermsV, a: AnswerV) -> Seq<char> {
    bindings_chars(p, bound_vars(a.log), a.amap)
}

/// The text of an answer (see [`answer_chars`]).
pub fn answer_text(answer: &Answer, psterms: &PSTerms) -> (s: String)
    requires
        psterms@.wf(),
    ensures
        s@ == answer_chars(psterms@, answer@),
{
    let ctx = Context { map: answer.amap.copy() };
    let mut vars: Vec<TermId> = Vec::new();
    let mut i: usize = 0;
    while i < answer.log.len()
        invariant
            i <= answer@.log.len(),
            answer@.log == crate::answer::logv(answer.log@),
            vars@ == bound_vars(answer@.log.take(i as int)),
        decreases answer@.log.len() - i,
    {
        let ghost v0 = vars@;
        proof {
            assert(answer@.log.take(i + 1).drop_last() =~= answer@.log.take(i as int));
            assert(answer@.log.take(i + 1).last() == answer.log@[i as int]@);
        }
        match &answer.log[i] {
            LogItem::Matching { avars, .. } => {
                let mut j: usize = 0;
                while j < avars.len()
                    invariant
                        j <= avars@.len(),
                        vars@ == v0 + avars@.take(j as int),
                    decreases avars@.len() - j,
                {
                    vars.push(avars[j]);
                    j = j + 1;
                    proof {
                        assert(vars@ =~= v0 + avars@.take(j as int));
                    }
                }
                proof {
                    assert(avars@.take(j as int) =~= avars@);
                }
            },
            LogItem::Interpretation { .. } => {
                proof {
                    assert(vars@ =~= v0 + Seq::<TermId>::empty());
                }
            },
        }
        i = i + 1;
    }
    proof {
        assert(answer@.log.take(i as int) =~= answer@.log);
    }
    let mut out: Vec<char> = Vec::new();
    let mut k: usize = 0;
    while k < vars.len()
        invariant
            psterms@.wf(),
            ctx.map@ == answer@.amap,
            k <= vars@.len(),
            out@ == bindings_chars(psterms@, vars@.take(k as int), answer@.amap),
        decreases vars@.len() - k,
    {
        if k > 0 {
            out.push(',');
            out.push(' ');
        }
        push_tid(&mut out, psterms, vars[k], None, DisplayMode::Plain, RENDER_DEPTH);
        out.push(' ');
        out.push('=');
        out.push(' ');
        push_tid(&mut out, psterms, vars[k], Some(&ctx), DisplayMode::Plain, RENDER_DEPTH);
        proof {
            let t = vars@.take(k + 1);
            assert(t.drop_last() =~= vars@.take(k as int));
            assert(t.last() == vars@[k as int]);
            if k == 0 {
                assert(out@ =~= bindings_chars(psterms@, t, answer@.amap));
            } else {
                assert(out@ =~= bindings_chars(psterms@, t, answer@.amap));
            }
        }
        k = k + 1;
    }
    proof {
        assert(vars@.take(k as int) =~= vars@);
    }
    string_of(&out)
}

impl Question {
    /// Whether an answer with the substitution of `a` was found already.
    pub fn has_answer(&self, a: &Answer) -> (r: bool)
        ensures
            r == exists|j: int| 0 <= j < self.answers@.len() && #[trigger] self.answers@[j]@.amap == a@.amap,
    {
        let mut j: usize = 0;
        while j < self.answers.len()
            invariant
                j <= self.answers@.len(),
                forall|k: int| 0 <= k < j ==> #[trigger] self.answers@[k]@.amap != a@.amap,
            decreases self.answers@.len() - j,
        {
            if self.answers[j].same_substitution(a) {
                return true;
            }
            j = j + 1;
        }
        false
    }

    /// Takes answer `i` as used at level `level`.
    fn use_answer(&mut self, i: usize, level: usize)
        requires
            i < old(self).answers@.len(),
        ensures
            final(self).answers == old(self).answers,
            final(self).curr_answer_stack == old(self).curr_answer_stack,
            final(self).qid == old(self).qid,
            final(self).bid == old(self).bid,
            final(self).aformula == old(self).aformula,
            final(self).fstack_i == old(self).fstack_i,
            views(final(self).used_answers@) == views(old(self).used_answers@).push(
                AnswerV { level: Some(level), ..old(self).answers@[i as int]@ },
            ),
    {
        let mut a = self.answers[i].copy();
        a.level = Some(level);
        let ghost u0 = self.used_answers@;
        self.used_answers.push(a);
        proof {
            assert(views(self.used_answers@) =~= views(u0).push(
                AnswerV { level: Some(level), ..old(self).answers@[i as int]@ },
            ));
        }
    }

    /// Takes the answer the host picked among those from `start` on (`pick`
    /// counts from `start`) as used at level `level`, and gives its place;
    /// nothing is taken when the host picked none, or a place past the last
    /// answer.
    pub fn take_pick(&mut self, start: usize, pick: Option<usize>, level: usize) -> (r: Option<usize>)
        requires
            start <= old(self).answers@.len(),
        ensures
            r == (match pick {
                Some(c) => if c < old(self).answers@.len() - start {
                    Some((start + c) as usize)
                } else {
                    None::<usize>
                },
                None => None::<usize>,
            }),
            final(self).answers == old(self).answers,
            final(self).curr_answer_stack == old(self).curr_answer_stack,
            final(self).qid == old(self).qid,
            final(self).bid == old(self).bid,
            final(self).aformula == old(self).aformula,
            final(self).fstack_i == old(self).fstack_i,
            r matches Some(i) ==> views(final(self).used_answers@) == views(old(self).used_answers@).push(
                AnswerV { level: Some(level), ..old(self).answers@[i as int]@ },
            ),
            r is None ==> final(self).used_answers == old(self).used_answers,
    {
        match pick {
            Some(c) => {
                if c < self.answers.len() - start {
                    let idx = start + c;
                    self.use_answer(idx, level);
                    return Some(idx);
                }
                None
            },
            None => None,
        }
    }

    /// Searches, for at most `si.limit` steps, for a new answer of the
    /// question against the base, in block `bid` at level `level`, under
    /// `context`; resumes where the last search stopped.  An answer found
    /// whose substitution was found before is passed over; one that the
    /// selector takes is recorded as used.
    #[verifier::rlimit(60)]
    #[verifier::spinoff_prover]
    pub fn find_answer_local<H: Host>(
        &mut self,
        si: &StrategyItem,
        bid: BlockId,
        env: &mut PEnv,
        tqfs: &Vec<Tqf>,
        level: usize,
        context: &Context,
        host: &mut H,
        depth: usize,
    ) -> (r: LocalSearch)
        requires
            env_ok(old(env)),
        ensures
            env_ok(final(env)),
            grows(old(env).psterms@, final(env).psterms@),
            final(env).base == old(env).base,
            final(env).bid == bid,
            final(self).qid == old(self).qid,
            final(self).bid == old(self).bid,
            final(self).aformula == old(self).aformula,
            final(self).fstack_i == old(self).fstack_i,
            old(self).answers@.len() <= final(self).answers@.len(),
            views(final(self).answers@).take(old(self).answers@.len() as int) == views(old(self).answers@),
            distinct_amaps(views(old(self).answers@)) ==> distinct_amaps(views(final(self).answers@)),
            forall|i: int, j: int|
                0 <= i < j < final(self).answers@.len() && old(self).answers@.len() <= j ==> (
                #[trigger] final(self).answers@[i])@.amap != (#[trigger] final(self).answers@[j])@.amap,
            forall|i: int|
                old(self).answers@.len() <= i < final(self).answers@.len() ==> complete(
                    #[trigger] final(self).answers@[i]@,
                    tqfs@[old(self).aformula.0 as int].conj@.len(),
                ),
            r matches LocalSearch::Found(i) ==> {
                &&& old(self).answers@.len() <= i < final(self).answers@.len()
                &&& old(self).aformula.0 < tqfs@.len()
                &&& views(final(self).used_answers@) == views(old(self).used_answers@).push(
                    AnswerV { level: Some(level), ..final(self).answers@[i as int]@ },
                )
            },
            !(r is Found) ==> views(final(self).used_answers@) == views(old(self).used_answers@),
            (old(env).base.entries().len() == 0 || si.limit == 0) && (old(self).curr_answer_stack@.len() > 0
                || old(self).aformula.0 < tqfs@.len()) ==> r is NotFound,
            old(self).curr_answer_stack@.len() > 0 || (old(self).aformula.0 < tqfs@.len() && old(
                env,
            ).base.entries().len() > 0) ==> {
                let o = old(self).curr_answer_stack@;
                let n = if o.len() > 0 && o.last().bid == bid {
                    o.len()
                } else {
                    o.len() + 1
                };
                &&& final(self).curr_answer_stack@.len() == n
                &&& views(final(self).curr_answer_stack@).take(n - 1) == views(o).take(n - 1)
                &&& final(self).curr_answer_stack@.last()@.bid == bid
            },
            old(self).aformula.0 >= tqfs@.len() && old(self).curr_answer_stack@.len() == 0 ==> r is Failed
                && final(self).curr_answer_stack@ == old(self).curr_answer_stack@,
            old(self).aformula.0 >= tqfs@.len() && old(self).curr_answer_stack@.len() > 0 && old(
                env,
            ).base.entries().len() > 0 && si.limit > 0 ==> r is Failed,
            old(self).aformula.0 < tqfs@.len() && old(self).curr_answer_stack@.len() > 0 && old(
                env,
            ).base.entries().len() > 0 && si.limit > 0 && !(old(self).curr_answer_stack@.last()@.conj_len
                == tqfs@[old(self).aformula.0 as int].conj@.len() && answer_shape(
                old(self).curr_answer_stack@.last()@,
                tqfs@[old(self).aformula.0 as int].conj@.len(),
            )) ==> r is Failed,
            si.selector is First ==> (r matches LocalSearch::Found(i) ==> i == final(self).answers@.len() - 1),
            si.selector == SelectorStrategy::First(AnswerFilter::AcceptAll) ==> local_outcome(
                local_end(
                    old(env).psterms@,
                    old(env).base.entries(),
                    old(env).attributes@,
                    tqfs@,
                    context.map@,
                    old(self).aformula,
                    old(self).qid,
                    views(old(self).curr_answer_stack@),
                    views(old(self).answers@),
                    bid,
                    si.limit,
                ),
                r,
                views(final(self).curr_answer_stack@),
                views(final(self).answers@),
            ),
            si.selector == SelectorStrategy::First(AnswerFilter::AcceptAll) && !(local_end(
                old(env).psterms@,
                old(env).base.entries(),
                old(env).attributes@,
                tqfs@,
                context.map@,
                old(self).aformula,
                old(self).qid,
                views(old(self).curr_answer_stack@),
                views(old(self).answers@),
                bid,
                si.limit,
            ) is Open) ==> final(env).psterms@ == old(env).psterms@ && final(env).attributes@ == old(env).attributes@,
            si.selector == SelectorStrategy::First(AnswerFilter::AcceptAll) && !(r is Found)
                ==> final(self).answers@.len() == old(self).answers@.len(),
            resumes_soundly(*old(self), old(env).psterms@, old(env).base.entries(), tqfs@, context.map@) ==> forall|i: int|
                old(self).answers@.len() <= i < final(self).answers@.len() ==> answer_sound(
                    final(env).psterms@,
                    final(env).base.entries(),
                    tqfs@[old(self).aformula.0 as int].conj@,
                    context.map@,
                    #[trigger] final(self).answers@[i]@,
                ),
            resumes_soundly(*old(self), old(env).psterms@, old(env).base.entries(), tqfs@, context.map@) && !(r is Failed)
                ==> resumes_soundly(*final(self), final(env).psterms@, final(env).base.entries(), tqfs@, context.map@),
        decreases depth, 5nat, 0nat, 0nat,
    {
        reveal(local_end);
        let ghost p0 = env.psterms@;
        let ghost a0 = views(self.answers@);
        let ghost sound0 = resumes_soundly(*self, env.psterms@, env.base.entries(), tqfs@, context.map@);
        proof {
            lemma_grows_refl(p0);
        }
        env.bid = bid;
        let blen = env.base.len();
        let start = self.answers.len();
        let n = self.curr_answer_stack.len();
        if n > 0 {
            if self.curr_answer_stack[n - 1].bid != bid {
                let mut t = self.curr_answer_stack[n - 1].copy();
                t.bid = bid;
                self.curr_answer_stack.push(t);
            }
        } else {
            if self.aformula.0 >= tqfs.len() {
                return LocalSearch::Failed;
            }
            if blen == 0 {
                return LocalSearch::NotFound;
            }
            self.curr_answer_stack.push(Answer::new(bid, self.qid, blen, tqfs[self.aformula.0].conj.len()));
        }
        let mut curr_answer = match self.curr_answer_stack.pop() {
            Some(a) => a,
            None => {
                return LocalSearch::Failed;
            },
        };
        let ghost below = self.curr_answer_stack@;
        proof {
            let o = old(self).curr_answer_stack@;
            if n > 0 && o.last().bid == bid {
                assert(below =~= o.drop_last());
                assert(views(below) =~= views(o).drop_last());
            } else {
                assert(below =~= o);
            }
            assert(views(below) == stack_below(views(o), bid));
        }
        if blen == 0 || si.limit == 0 {
            self.curr_answer_stack.push(curr_answer);
            proof {
                assert(views(self.curr_answer_stack@) =~= views(below).push(curr_answer@));
            }
            return LocalSearch::NotFound;
        }
        if self.aformula.0 >= tqfs.len() {
            self.curr_answer_stack.push(curr_answer);
            return LocalSearch::Failed;
        }
        let tqf = &tqfs[self.aformula.0];
        let conj_len = tqf.conj.len();
        proof {
            if sound0 {
                let top = old(self).curr_answer_stack@;
                if n > 0 {
                    assert(top.last()@.log == curr_answer@.log);
                    assert(top.last()@.amap == curr_answer@.amap);
                    assert(top.last()@.state == curr_answer@.state);
                    lemma_sound_same(p0, env.base.entries(), tqf.conj@, context.map@, top.last()@, curr_answer@);
                }
            }
        }
        if curr_answer.conj_len != conj_len || !curr_answer.shape_ok(conj_len) {
            self.curr_answer_stack.push(curr_answer);
            return LocalSearch::Failed;
        }
        proof {
            if n > 0 {
                let top = old(self).curr_answer_stack@.last();
                assert(top@.log == curr_answer@.log);
                assert(top@.conj_len == curr_answer@.conj_len);
                assert(top@.state == curr_answer@.state);
            }
        }
        proof {
            let sa = start_answer(views(old(self).curr_answer_stack@), bid, old(self).qid, blen as nat, conj_len as nat);
            if n > 0 {
                let top = old(self).curr_answer_stack@.last();
                assert(curr_answer@ =~= sa);
            } else {
                assert(curr_answer@ =~= sa);
            }
        }
        let ghost acc = si.selector == SelectorStrategy::First(AnswerFilter::AcceptAll);
        let ghost at0 = env.attributes@;
        let ghost run0 = search_run(p0, env.base.entries(), at0, tqf.conj@, context.map@, curr_answer@, a0, si.limit as nat);
        let mut i: usize = 0;
        while i < si.limit
            invariant
                env_ok(env),
                p0.wf(),
                grows(p0, env.psterms@),
                env.base == old(env).base,
                env.bid == bid,
                blen == env.base.entries().len(),
                blen >= 1,
                p0 == old(env).psterms@,
                a0 == views(old(self).answers@),
                self.aformula.0 < tqfs@.len(),
                tqf == &tqfs@[self.aformula.0 as int],
                conj_len == tqf.conj@.len(),
                curr_answer@.conj_len == conj_len,
                answer_shape(curr_answer@, conj_len as nat),
                forall|k: int| start <= k < self.answers@.len() ==> complete(#[trigger] self.answers@[k]@, conj_len as nat),
                self.qid == old(self).qid,
                self.bid == old(self).bid,
                self.aformula == old(self).aformula,
                self.fstack_i == old(self).fstack_i,
                self.curr_answer_stack@ == below,
                views(below) == stack_below(views(old(self).curr_answer_stack@), bid),
                curr_answer@.bid == bid,
                old(self).curr_answer_stack@.len() > 0 ==> old(self).curr_answer_stack@.last()@.conj_len == conj_len
                    && answer_shape(old(self).curr_answer_stack@.last()@, conj_len as nat),
                ({
                    let o = old(self).curr_answer_stack@;
                    let n = if o.len() > 0 && o.last().bid == bid {
                        o.len()
                    } else {
                        o.len() + 1
                    };
                    below.len() == n - 1 && views(below).take(n - 1) == views(o).take(n - 1)
                }),
                si.selector == SelectorStrategy::First(AnswerFilter::AcceptAll) ==> self.answers@.len() == start,
                start == a0.len(),
                start <= self.answers@.len(),
                views(self.answers@).take(start as int) == a0,
                distinct_amaps(a0) ==> distinct_amaps(views(self.answers@)),
                forall|x: int, y: int|
                    0 <= x < y < self.answers@.len() && start <= y ==> (#[trigger] self.answers@[x])@.amap != (
                    #[trigger] self.answers@[y])@.amap,
                views(self.used_answers@) == views(old(self).used_answers@),
                i <= si.limit,
                sound0 == resumes_soundly(*old(self), p0, old(env).base.entries(), tqfs@, context.map@),
                sound0 ==> search_sound(env.psterms@, env.base.entries(), tqf.conj@, context.map@, curr_answer@),
                sound0 ==> forall|k: int|
                    start <= k < self.answers@.len() ==> answer_sound(
                        env.psterms@,
                        env.base.entries(),
                        tqf.conj@,
                        context.map@,
                        #[trigger] self.answers@[k]@,
                    ),
                acc == (si.selector == SelectorStrategy::First(AnswerFilter::AcceptAll)),
                at0 == old(env).attributes@,
                run0 == search_run(
                    old(env).psterms@,
                    old(env).base.entries(),
                    old(env).attributes@,
                    tqfs@[old(self).aformula.0 as int].conj@,
                    context.map@,
                    start_answer(
                        views(old(self).curr_answer_stack@),
                        bid,
                        old(self).qid,
                        old(env).base.entries().len(),
                        tqfs@[old(self).aformula.0 as int].conj@.len(),
                    ),
                    views(old(self).answers@),
                    si.limit as nat,
                ),
                acc && !(run0 is Open) ==> env.psterms@ == p0 && env.attributes@ == at0 && search_run(
                    p0,
                    env.base.entries(),
                    at0,
                    tqf.conj@,
                    context.map@,
                    curr_answer@,
                    views(self.answers@),
                    (si.limit - i) as nat,
                ) == run0,
            ensures
                acc && !(run0 is Open) ==> run0 == SearchEnd::Stop(curr_answer@, views(self.answers@)) && env.attributes@
                    == at0,
            decreases si.limit - i,
        {
            i = i + 1;
            let ghost ca = curr_answer@;
            let ghost bs = env.base.entries();
            let ghost ans0 = views(self.answers@);
            let ghost st = search_step(p0, bs, at0, tqf.conj@, context.map@, ca, ans0);
            proof {
                reveal(local_end);
                if acc && !(run0 is Open) {
                    let k = (si.limit - (i - 1)) as nat;
                    assert(search_run(p0, bs, at0, tqf.conj@, context.map@, ca, ans0, k) == run0);
                    assert(search_run(p0, bs, at0, tqf.conj@, context.map@, ca, ans0, k) == match st {
                        SearchEnd::Go(a2, s2) => search_run(p0, bs, at0, tqf.conj@, context.map@, a2, s2, (k - 1) as nat),
                        e => e,
                    });
                }
            }
            match curr_answer.state {
                MatchingState::Success | MatchingState::NextA | MatchingState::Zero => {
                    curr_answer.next_a(&env.psterms, tqf);
                    proof {
                        if sound0 {
                            if ca.log.len() >= ca.conj_len {
                                lemma_sound_same(env.psterms@, bs, tqf.conj@, context.map@, ca, curr_answer@);
                            } else {
                                lemma_sound_push_step(
                                    env.psterms@,
                                    bs,
                                    tqf.conj@,
                                    context.map@,
                                    ca,
                                    curr_answer@,
                                    curr_answer@.log.last(),
                                );
                            }
                        }
                    }
                },
                MatchingState::NextB | MatchingState::Fail => {
                    if curr_answer.len() > 0 {
                        curr_answer.next_b();
                        proof {
                            if sound0 {
                                assert(curr_answer@.log.subrange(0, ca.log.len() - 1) =~= ca.log.drop_last());
                                lemma_sound_next_b(env.psterms@, bs, tqf.conj@, context.map@, ca, curr_answer@);
                            }
                        }
                    } else {
                        curr_answer.state = MatchingState::NextK;
                    }
                },
                MatchingState::Ready => {
                    let step = match curr_answer.last() {
                        Some(LogItem::Matching { batom_i, qatom_i, .. }) => Some((true, *batom_i, *qatom_i)),
                        Some(LogItem::Interpretation { qatom_i }) => Some((false, 0, *qatom_i)),
                        None => None,
                    };
                    match step {
                        None => {
                            curr_answer.state = MatchingState::Rollback;
                        },
                        Some((true, bi, qi)) => {
                            if bi >= blen || qi >= conj_len {
                                curr_answer.state = MatchingState::Fail;
                                proof {
                                    if sound0 {
                                        lemma_sound_same(env.psterms@, bs, tqf.conj@, context.map@, ca, curr_answer@);
                                    }
                                }
                            } else {
                                let bterm = env.base.get(bi);
                                let gone = bterm.deleted || env.attributes.check(
                                    KeyObject::BaseIndex(bi),
                                    deleted_name(),
                                    true_value(),
                                );
                                if gone {
                                    curr_answer.state = MatchingState::Fail;
                                    proof {
                                        if sound0 {
                                            lemma_sound_same(env.psterms@, bs, tqf.conj@, context.map@, ca, curr_answer@);
                                        }
                                    }
                                } else {
                                    let btid = bterm.term;
                                    let qtid = tqf.conj[qi];
                                    match matching(btid, qtid, context, &mut curr_answer, env, host, depth, PROCESSING_FUEL) {
                                        Some(true) => {
                                            curr_answer.state = MatchingState::Success;
                                            proof {
                                                if sound0 {
                                                    assert(step_holds(
                                                        env.psterms@,
                                                        bs,
                                                        tqf.conj@,
                                                        context.map@,
                                                        curr_answer@.amap,
                                                        curr_answer@.log.last(),
                                                    ));
                                                    lemma_sound_matched(env.psterms@, bs, tqf.conj@, context.map@, ca, curr_answer@);
                                                }
                                            }
                                        },
                                        Some(false) => {
                                            curr_answer.state = MatchingState::Fail;
                                            proof {
                                                if sound0 {
                                                    lemma_sound_matched(env.psterms@, bs, tqf.conj@, context.map@, ca, curr_answer@);
                                                }
                                            }
                                        },
                                        None => {
                                            proof {
                                                if acc && !(run0 is Open) {
                                                    assert(st == SearchEnd::Fail(curr_answer@));
                                                }
                                            }
                                            self.curr_answer_stack.push(curr_answer);
                                            return LocalSearch::Failed;
                                        },
                                    }
                                }
                            }
                        },
                        Some((false, _, qi)) => {
                            if qi >= conj_len {
                                curr_answer.state = MatchingState::Fail;
                                proof {
                                    if sound0 {
                                        lemma_sound_same(env.psterms@, bs, tqf.conj@, context.map@, ca, curr_answer@);
                                    }
                                }
                            } else {
                                let qtid = tqf.conj[qi];
                                let ghost pb = env.psterms@;
                                let b = processing(qtid, context, Some(&curr_answer), env, &curr_answer, host, depth, PROCESSING_FUEL);
                                proof {
                                    lemma_grows_trans(p0, pb, env.psterms@);
                                    if sound0 {
                                        lemma_search_sound_grows(pb, env.psterms@, bs, tqf.conj@, context.map@, ca);
                                        assert forall|k: int| start <= k < self.answers@.len() implies answer_sound(
                                            env.psterms@,
                                            bs,
                                            tqf.conj@,
                                            context.map@,
                                            #[trigger] self.answers@[k]@,
                                        ) by {
                                            lemma_answer_sound_grows(pb, env.psterms@, bs, tqf.conj@, context.map@, self.answers@[k]@);
                                        }
                                    }
                                }
                                let t = match b {
                                    ProcessingResult::Error => {
                                        proof {
                                            if acc && !(run0 is Open) {
                                                assert(st is Open);
                                            }
                                        }
                                        self.curr_answer_stack.push(curr_answer);
                                        return LocalSearch::Failed;
                                    },
                                    ProcessingResult::New(t) => t,
                                    ProcessingResult::Existing(t) => t,
                                };
                                match env.psterms.term_ref(&t) {
                                    Term::Bool(true) => {
                                        curr_answer.state = MatchingState::Success;
                                        proof {
                                            if sound0 {
                                                lemma_sound_settle_last(env.psterms@, bs, tqf.conj@, context.map@, ca, curr_answer@);
                                            }
                                        }
                                    },
                                    Term::Bool(false) => {
                                        curr_answer.state = MatchingState::Fail;
                                        proof {
                                            if sound0 {
                                                lemma_sound_same(env.psterms@, bs, tqf.conj@, context.map@, ca, curr_answer@);
                                            }
                                        }
                                    },
                                    _ => {
                                        self.curr_answer_stack.push(curr_answer);
                                        return LocalSearch::Failed;
                                    },
                                }
                            }
                        },
                    }
                },
                MatchingState::Rollback => {
                    if curr_answer.len() > 0 {
                        curr_answer.state = MatchingState::NextB;
                    } else {
                        curr_answer.state = MatchingState::NextK;
                    }
                    proof {
                        if sound0 {
                            lemma_sound_same(env.psterms@, bs, tqf.conj@, context.map@, ca, curr_answer@);
                        }
                    }
                },
                MatchingState::NextK => {
                    if curr_answer.conj_len == 0 {
                        curr_answer.state = MatchingState::Exhausted;
                    } else {
                        curr_answer.next_k();
                    }
                    proof {
                        if sound0 {
                            lemma_sound_same(env.psterms@, bs, tqf.conj@, context.map@, ca, curr_answer@);
                        }
                    }
                },
                MatchingState::Exhausted => {
                    if curr_answer.shift_bounds(blen) {
                        curr_answer.state = MatchingState::Zero;
                    } else {
                        break;
                    }
                    proof {
                        if sound0 {
                            lemma_sound_same(env.psterms@, bs, tqf.conj@, context.map@, ca, curr_answer@);
                        }
                    }
                },
                MatchingState::Answer => {
                    if curr_answer.conj_len == 0 {
                        curr_answer.state = MatchingState::Empty;
                    } else {
                        curr_answer.state = MatchingState::NextB;
                    }
                    proof {
                        if sound0 {
                            lemma_sound_same(env.psterms@, bs, tqf.conj@, context.map@, ca, curr_answer@);
                            lemma_answer_of_search(env.psterms@, bs, tqf.conj@, context.map@, curr_answer@);
                        }
                    }
                    let na = curr_answer.copy();
                    if !self.has_answer(&na) {
                        let ghost s0 = views(self.answers@);
                        let ghost a_prev = self.answers@;
                        self.answers.push(na);
                        proof {
                            if sound0 {
                                assert forall|k: int| start <= k < self.answers@.len() implies answer_sound(
                                    env.psterms@,
                                    bs,
                                    tqf.conj@,
                                    context.map@,
                                    #[trigger] self.answers@[k]@,
                                ) by {
                                    if k < a_prev.len() {
                                        assert(self.answers@[k] == a_prev[k]);
                                    }
                                }
                            }
                            assert forall|k: int| start <= k < self.answers@.len() implies complete(#[trigger] self.answers@[k]@, conj_len as nat) by {
                                if k < a_prev.len() {
                                    assert(self.answers@[k] == a_prev[k]);
                                }
                            }
                            assert forall|x: int, y: int|
                                0 <= x < y < self.answers@.len() && start <= y implies (#[trigger] self.answers@[x])@.amap != (
                                #[trigger] self.answers@[y])@.amap by {
                                if y < a_prev.len() {
                                    assert(self.answers@[x] == a_prev[x]);
                                    assert(self.answers@[y] == a_prev[y]);
                                } else {
                                    assert(self.answers@[x] == a_prev[x]);
                                    assert(a_prev[x]@.amap != na@.amap);
                                }
                            }
                            assert(views(self.answers@) =~= s0.push(na@));
                            assert(views(self.answers@).take(start as int) =~= s0.take(start as int));
                            if distinct_amaps(a0) {
                                assert forall|x: int, y: int| 0 <= x < y < views(self.answers@).len() implies #[trigger] views(
                                    self.answers@,
                                )[x].amap != #[trigger] views(self.answers@)[y].amap by {
                                    if y == s0.len() {
                                        assert(self.answers@[x]@.amap == views(self.answers@)[x].amap);
                                    } else {
                                        assert(s0[x] == views(self.answers@)[x]);
                                    }
                                }
                            }
                        }
                        let last = self.answers.len() - 1;
                        match si.selector {
                            SelectorStrategy::First(filter) => {
                                let ok = match filter {
                                    AnswerFilter::AcceptAll => true,
                                    AnswerFilter::AskHost => {
                                        let text = answer_text(&self.answers[last], &env.psterms);
                                        host.accept(&text)
                                    },
                                };
                                if ok {
                                    self.use_answer(last, level);
                                    self.curr_answer_stack.push(curr_answer);
                                    proof {
                                        assert(views(self.curr_answer_stack@) =~= views(below).push(curr_answer@));
                                    }
                                    return LocalSearch::Found(last);
                                }
                            },
                            SelectorStrategy::Best => {},
                        }
                    } else {
                        proof {
                            let j = choose|j: int| 0 <= j < self.answers@.len() && #[trigger] self.answers@[j]@.amap == na@.amap;
                            assert(views(self.answers@)[j] == self.answers@[j]@);
                        }
                    }
                },
                MatchingState::Empty => {
                    break;
                },
            }
        }
        match si.selector {
            SelectorStrategy::Best => {
                let count = self.answers.len() - start;
                if count > 0 {
                    let mut texts: Vec<String> = Vec::new();
                    let mut k: usize = start;
                    while k < self.answers.len()
                        invariant
                            env.psterms@.wf(),
                            start <= k <= self.answers@.len(),
                        decreases self.answers@.len() - k,
                    {
                        texts.push(answer_text(&self.answers[k], &env.psterms));
                        k = k + 1;
                    }
                    let pick = host.pick(&texts);
                    match self.take_pick(start, pick, level) {
                        Some(idx) => {
                            self.curr_answer_stack.push(curr_answer);
                            return LocalSearch::Found(idx);
                        },
                        None => {},
                    }
                }
            },
            _ => {},
        }
        self.curr_answer_stack.push(curr_answer);
        proof {
            assert(views(self.curr_answer_stack@) =~= views(below).push(curr_answer@));
        }
        LocalSearch::NotFound
    }
}

} // verus!
