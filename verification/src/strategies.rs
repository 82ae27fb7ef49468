use vstd::prelude::*;
use crate::misc::QuestionId;
use crate::question::{Question, Tqf};

verus! {

/// How a found answer is judged before it is taken.
#[derive(Copy, Clone, PartialEq, Eq, Structural, Debug)]
pub enum AnswerFilter {
    /// Every answer is taken.
    AcceptAll,
    /// The host is asked about each answer.
    AskHost,
}

/// How a question picks the answer it gives.
#[derive(Copy, Clone, PartialEq, Eq, Structural, Debug)]
pub enum SelectorStrategy {
    /// The first answer that passes the filter.
    First(AnswerFilter),
    /// The one the host picks among the answers found in one search.
    Best,
}

/// Where the search of a question resumes.
#[derive(Copy, Clone, PartialEq, Eq, Structural, Debug)]
pub enum StartFrom {
    Last,
    Scratch,
}

/// How the questions to try are chosen at each step.
#[derive(Copy, Clone, PartialEq, Eq, Structural, Debug)]
pub enum Strategy {
    /// The questions in turn, starting one further at each step.
    PlainShift,
    /// The questions by rising rate (see [`crate::question::rate`]).
    General,
    /// The questions the host lists, the first accepted answer taken.
    ManualFirst,
    /// The questions the host lists, the answer the host picks taken.
    ManualBest,
    /// A strategy of the user's own, which the prover cannot run.
    User,
}

/// One question to try, with how to pick its answer and how long to search.
#[derive(Copy, Clone, PartialEq, Eq, Structural, Debug)]
pub struct StrategyItem {
    pub qid: QuestionId,
    pub selector: SelectorStrategy,
    pub sf: StartFrom,
    pub limit: usize,
}

/// The number of search steps a question gets at each try.
pub const STEP_LIMIT: usize = 1000;

/// The item trying question `i` automatically.
pub open spec fn auto_item(i: nat) -> StrategyItem {
    StrategyItem {
        qid: QuestionId(i as usize),
        selector: SelectorStrategy::First(AnswerFilter::AcceptAll),
        sf: StartFrom::Last,
        limit: STEP_LIMIT,
    }
}

/// All questions in order, the list turned left by `step` places (modulo
/// the number of questions): at step `s` the question `s mod n` comes first.
pub fn plain_shift_strategy(questions: &Vec<Question>, step: usize) -> (r: Vec<StrategyItem>)
    requires
        questions@.len() > 0,
    ensures
        r@.len() == questions@.len(),
        forall|i: int|
            0 <= i < r@.len() ==> #[trigger] r@[i] == auto_item(
                ((i + (step as int) % (questions@.len() as int)) % (questions@.len() as int)) as nat,
            ),
{
    let n = questions.len();
    let shift = step % n;
    let mut r: Vec<StrategyItem> = Vec::new();
    let mut i: usize = 0;
    while i < n
        invariant
            n == questions@.len(),
            n > 0,
            shift == step % n,
            i <= n,
            r@.len() == i,
            forall|j: int| 0 <= j < i ==> #[trigger] r@[j] == auto_item(((j + shift) % n as int) as nat),
        decreases n - i,
    {
        let q = if i < n - shift {
            i + shift
        } else {
            i - (n - shift)
        };
        proof {
            if i < n - shift {
                assert((i + shift) % (n as int) == i + shift) by (nonlinear_arith)
                    requires
                        0 <= i + shift < n,
                ;
            } else {
                assert((i + shift) % (n as int) == i + shift - n) by (nonlinear_arith)
                    requires
                        n <= i + shift < 2 * n,
                ;
            }
        }
        r.push(
            StrategyItem {
                qid: QuestionId(q),
                selector: SelectorStrategy::First(AnswerFilter::AcceptAll),
                sf: StartFrom::Last,
                limit: STEP_LIMIT,
            },
        );
        i = i + 1;
    }
    r
}

/// The `n` questions in order, turned left by `step` places: the list
/// that [`plain_shift_strategy`] gives.
pub open spec fn plain_shift_items(n: nat, step: usize) -> Seq<StrategyItem> {
    Seq::new(n, |i: int| auto_item(((i + (step as int) % (n as int)) % (n as int)) as nat))
}

/// The items trying the questions of `q_list` that name one of `n`
/// questions, in order, each with `selector`: the list that
/// [`manual_strategy`] gives.
pub open spec fn manual_items(q_list: Seq<usize>, n: nat, selector: SelectorStrategy) -> Seq<StrategyItem> {
    Seq::new(
        known_questions(q_list, n).len(),
        |i: int|
            StrategyItem {
                qid: QuestionId(known_questions(q_list, n)[i]),
                selector: selector,
                sf: StartFrom::Last,
                limit: STEP_LIMIT,
            },
    )
}

/// `r` tries each of the questions once, automatically, by rising rate at
/// `curr_level` and, at equal rates, in their order: what
/// [`general_strategy`] gives.
pub open spec fn general_order(r: Seq<StrategyItem>, questions: Seq<Question>, tqfs: Seq<Tqf>, curr_level: usize) -> bool {
    &&& r.len() == questions.len()
    &&& forall|i: int| 0 <= i < r.len() ==> (#[trigger] r[i]).qid.0 < questions.len() && r[i] == auto_item(r[i].qid.0 as nat)
    &&& forall|i: int, j: int|
        0 <= i < j < r.len() ==> before(
            rate_at(questions, tqfs, curr_level, (#[trigger] r[i]).qid.0),
            r[i].qid.0,
            rate_at(questions, tqfs, curr_level, (#[trigger] r[j]).qid.0),
            r[j].qid.0,
        )
    &&& forall|q: int| 0 <= q < questions.len() ==> #[trigger] lists(r, q)
}

/// The items of `q_list` that name one of `n` questions, in order.
pub open spec fn known_questions(q_list: Seq<usize>, n: nat) -> Seq<usize> {
    q_list.filter(|q: usize| q < n)
}

/// The questions of `q_list`, as the host listed them, each with `selector`;
/// an entry naming no question is passed over.
pub fn manual_strategy(questions: &Vec<Question>, selector: SelectorStrategy, q_list: &Vec<usize>) -> (r: Vec<
    StrategyItem,
>)
    ensures
        r@.len() == known_questions(q_list@, questions@.len()).len(),
        forall|i: int|
            0 <= i < r@.len() ==> #[trigger] r@[i] == (StrategyItem {
                qid: QuestionId(known_questions(q_list@, questions@.len())[i]),
                selector: selector,
                sf: StartFrom::Last,
                limit: STEP_LIMIT,
            }),
{
    let n = questions.len();
    let ghost pred = |q: usize| q < n;
    let mut r: Vec<StrategyItem> = Vec::new();
    let mut i: usize = 0;
    while i < q_list.len()
        invariant
            n == questions@.len(),
            pred == (|q: usize| q < n),
            i <= q_list@.len(),
            r@.len() == q_list@.take(i as int).filter(pred).len(),
            forall|j: int|
                0 <= j < r@.len() ==> #[trigger] r@[j] == (StrategyItem {
                    qid: QuestionId(q_list@.take(i as int).filter(pred)[j]),
                    selector: selector,
                    sf: StartFrom::Last,
                    limit: STEP_LIMIT,
                }),
        decreases q_list@.len() - i,
    {
        let q = q_list[i];
        proof {
            assert(q_list@.take(i + 1) =~= q_list@.take(i as int).push(q));
            q_list@.take(i as int).lemma_filter_push(q, pred);
        }
        if q < n {
            r.push(StrategyItem { qid: QuestionId(q), selector: selector, sf: StartFrom::Last, limit: STEP_LIMIT });
        }
        i = i + 1;
    }
    proof {
        assert(q_list@.take(i as int) =~= q_list@);
    }
    r
}

/// Whether some item of `r` tries question `q`.
pub open spec fn lists(r: Seq<StrategyItem>, q: int) -> bool {
    exists|i: int| 0 <= i < r.len() && #[trigger] r[i].qid.0 == q
}

/// Whether `q` is one of `s`.
pub open spec fn has_q(s: Seq<usize>, q: int) -> bool {
    exists|a: int| 0 <= a < s.len() && #[trigger] s[a] == q
}

/// Whether question `a` with rate `ra` is tried before question `b` with
/// rate `rb`: by lower rate, then by lower number.
pub open spec fn before(ra: u128, a: usize, rb: u128, b: usize) -> bool {
    ra < rb || (ra == rb && a < b)
}

/// The rate of question `q`.
pub open spec fn rate_at(questions: Seq<Question>, tqfs: Seq<Tqf>, curr_level: usize, q: usize) -> u128 {
    questions[q as int].rate_of(tqfs, curr_level)
}

/// All questions, by rising rate and, at equal rates, in their order.
pub fn general_strategy(questions: &Vec<Question>, tqfs: &Vec<Tqf>, curr_level: usize) -> (r: Vec<
    StrategyItem,
>)
    ensures
        r@.len() == questions@.len(),
        forall|i: int|
            0 <= i < r@.len() ==> (#[trigger] r@[i]).qid.0 < questions@.len() && r@[i] == auto_item(
                r@[i].qid.0 as nat,
            ),
        forall|i: int, j: int|
            0 <= i < j < r@.len() ==> before(
                rate_at(questions@, tqfs@, curr_level, (#[trigger] r@[i]).qid.0),
                r@[i].qid.0,
                rate_at(questions@, tqfs@, curr_level, (#[trigger] r@[j]).qid.0),
                r@[j].qid.0,
            ),
        forall|q: int| 0 <= q < questions@.len() ==> #[trigger] lists(r@, q),
{
    let n = questions.len();
    let mut scores: Vec<u128> = Vec::new();
    let mut i: usize = 0;
    while i < n
        invariant
            n == questions@.len(),
            i <= n,
            scores@.len() == i,
            forall|k: int| 0 <= k < i ==> #[trigger] scores@[k] == rate_at(questions@, tqfs@, curr_level, k as usize),
        decreases n - i,
    {
        scores.push(questions[i].gs_rate(tqfs, curr_level));
        i = i + 1;
    }
    let mut qs: Vec<usize> = Vec::new();
    let mut i: usize = 0;
    while i < n
        invariant
            n == questions@.len(),
            scores@.len() == n,
            forall|k: int| 0 <= k < n ==> #[trigger] scores@[k] == rate_at(questions@, tqfs@, curr_level, k as usize),
            i <= n,
            qs@.len() == i,
            forall|a: int| 0 <= a < qs@.len() ==> #[trigger] qs@[a] < i,
            forall|a: int, b: int|
                0 <= a < b < qs@.len() ==> before(
                    scores@[(#[trigger] qs@[a]) as int],
                    qs@[a],
                    scores@[(#[trigger] qs@[b]) as int],
                    qs@[b],
                ),
            forall|q: int| 0 <= q < i ==> #[trigger] has_q(qs@, q),
        decreases n - i,
    {
        let si = scores[i];
        let mut p: usize = 0;
        while p < qs.len() && scores[qs[p]] <= si
            invariant
                scores@.len() == n,
                forall|a: int| 0 <= a < qs@.len() ==> #[trigger] qs@[a] < i,
                i < n,
                si == scores@[i as int],
                p <= qs@.len(),
                forall|a: int| 0 <= a < p ==> scores@[(#[trigger] qs@[a]) as int] <= si,
            decreases qs@.len() - p,
        {
            p = p + 1;
        }
        let ghost before_qs = qs@;
        qs.insert(p, i);
        proof {
            assert(qs@ == before_qs.insert(p as int, i));
            assert forall|a: int, b: int| 0 <= a < b < qs@.len() implies before(
                scores@[(#[trigger] qs@[a]) as int],
                qs@[a],
                scores@[(#[trigger] qs@[b]) as int],
                qs@[b],
            ) by {
                if b < p {
                    assert(qs@[a] == before_qs[a] && qs@[b] == before_qs[b]);
                } else if b == p {
                    assert(qs@[a] == before_qs[a]);
                    assert(scores@[before_qs[a] as int] <= si);
                    assert(before_qs[a] < i);
                } else if a < p {
                    assert(qs@[a] == before_qs[a] && qs@[b] == before_qs[b - 1]);
                    if a < b - 1 {
                        assert(before(scores@[before_qs[a] as int], before_qs[a], scores@[before_qs[b - 1] as int], before_qs[b - 1]));
                    }
                } else if a == p {
                    assert(qs@[b] == before_qs[b - 1]);
                    assert(!(scores@[before_qs[p as int] as int] <= si));
                    if b - 1 > p {
                        assert(before(scores@[before_qs[p as int] as int], before_qs[p as int], scores@[before_qs[b - 1] as int], before_qs[b - 1]));
                    }
                } else {
                    assert(qs@[a] == before_qs[a - 1] && qs@[b] == before_qs[b - 1]);
                    assert(before(scores@[before_qs[a - 1] as int], before_qs[a - 1], scores@[before_qs[b - 1] as int], before_qs[b - 1]));
                }
            }
            assert forall|q: int| 0 <= q < i + 1 implies #[trigger] has_q(qs@, q) by {
                if q == i {
                    assert(qs@[p as int] == q);
                } else {
                    assert(has_q(before_qs, q));
                    let a0 = choose|a: int| 0 <= a < before_qs.len() && #[trigger] before_qs[a] == q;
                    if a0 < p {
                        assert(qs@[a0] == q);
                    } else {
                        assert(qs@[a0 + 1] == q);
                    }
                }
            }
        }
        i = i + 1;
    }
    let mut r: Vec<StrategyItem> = Vec::new();
    let mut j: usize = 0;
    while j < qs.len()
        invariant
            n == questions@.len(),
            qs@.len() == n,
            j <= n,
            r@.len() == j,
            forall|a: int| 0 <= a < j ==> #[trigger] r@[a] == auto_item(qs@[a] as nat),
            forall|a: int| 0 <= a < qs@.len() ==> #[trigger] qs@[a] < n,
        decreases n - j,
    {
        r.push(
            StrategyItem {
                qid: QuestionId(qs[j]),
                selector: SelectorStrategy::First(AnswerFilter::AcceptAll),
                sf: StartFrom::Last,
                limit: STEP_LIMIT,
            },
        );
        j = j + 1;
    }
    proof {
        assert forall|q: int| 0 <= q < questions@.len() implies #[trigger] lists(r@, q) by {
            assert(has_q(qs@, q));
            let a0 = choose|a: int| 0 <= a < qs@.len() && #[trigger] qs@[a] == q;
            assert(r@[a0].qid.0 == q);
        }
        assert forall|a: int, b: int| 0 <= a < b < r@.len() implies before(
            rate_at(questions@, tqfs@, curr_level, (#[trigger] r@[a]).qid.0),
            r@[a].qid.0,
            rate_at(questions@, tqfs@, curr_level, (#[trigger] r@[b]).qid.0),
            r@[b].qid.0,
        ) by {
            assert(before(scores@[qs@[a] as int], qs@[a], scores@[qs@[b] as int], qs@[b]));
        }
    }
    r
}

} // verus!
