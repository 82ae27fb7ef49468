use vstd::prelude::*;
use crate::misc::{TermId, BlockId, QuestionId};
use crate::idmap::IdMap;
use crate::term::{copy_tids, PSTerms, PSTermsV, Term, TermV};
use crate::question::Tqf;

verus! {

/// The state of the search for an answer.
#[derive(Copy, Clone, PartialEq, Eq, Structural, Debug)]
pub enum MatchingState {
    Ready,
    Fail,
    Success,
    Rollback,
    Zero,
    NextA,
    NextB,
    NextK,
    Exhausted,
    Answer,
    Empty,
}

/// One step of an answer: an atom of the question matched against a fact
/// of the base (with the variables it bound), or an interpreted atom.
#[derive(Clone, Debug)]
pub enum LogItem {
    Matching { qatom_i: usize, batom_i: usize, avars: Vec<TermId> },
    Interpretation { qatom_i: usize },
}

pub enum LogItemV {
    Matching { qatom_i: usize, batom_i: usize, avars: Seq<TermId> },
    Interpretation { qatom_i: usize },
}

impl View for LogItem {
    type V = LogItemV;

    open spec fn view(&self) -> LogItemV {
        match self {
            LogItem::Matching { qatom_i, batom_i, avars } => LogItemV::Matching {
                qatom_i: *qatom_i,
                batom_i: *batom_i,
                avars: avars@,
            },
            LogItem::Interpretation { qatom_i } => LogItemV::Interpretation { qatom_i: *qatom_i },
        }
    }
}

impl LogItem {
    pub fn copy(&self) -> (r: LogItem)
        ensures
            r@ == self@,
    {
        match self {
            LogItem::Matching { qatom_i, batom_i, avars } => LogItem::Matching {
                qatom_i: *qatom_i,
                batom_i: *batom_i,
                avars: copy_tids(avars),
            },
            LogItem::Interpretation { qatom_i } => LogItem::Interpretation { qatom_i: *qatom_i },
        }
    }
}

/// An answer under construction (or found): the substitution of the
/// question's variables, the steps taken, and the search bounds.
pub struct Answer {
    pub amap: IdMap,
    pub log: Vec<LogItem>,
    pub bid: BlockId,
    pub qid: QuestionId,
    pub lower: usize,
    pub middle: usize,
    pub upper: usize,
    pub k: usize,
    pub conj_len: usize,
    pub state: MatchingState,
    pub level: Option<usize>,
}

pub struct AnswerV {
    pub amap: Map<usize, usize>,
    pub log: Seq<LogItemV>,
    pub bid: BlockId,
    pub qid: QuestionId,
    pub lower: usize,
    pub middle: usize,
    pub upper: usize,
    pub k: usize,
    pub conj_len: usize,
    pub state: MatchingState,
    pub level: Option<usize>,
}

impl View for Answer {
    type V = AnswerV;

    open spec fn view(&self) -> AnswerV {
        AnswerV {
            amap: self.amap@,
            log: logv(self.log@),
            bid: self.bid,
            qid: self.qid,
            lower: self.lower,
            middle: self.middle,
            upper: self.upper,
            k: self.k,
            conj_len: self.conj_len,
            state: self.state,
            level: self.level,
        }
    }
}

/// The steps as values.
pub open spec fn logv(s: Seq<LogItem>) -> Seq<LogItemV> {
    s.map_values(|l: LogItem| l@)
}

/// `m` without the keys `keys`.
pub open spec fn remove_keys(m: Map<usize, usize>, keys: Seq<TermId>) -> Map<usize, usize>
    decreases keys.len(),
{
    if keys.len() == 0 {
        m
    } else {
        remove_keys(m, keys.drop_last()).remove(keys.last().0)
    }
}

/// The bindings a step made, removed from the substitution.
pub open spec fn unbind(m: Map<usize, usize>, item: LogItemV) -> Map<usize, usize> {
    match item {
        LogItemV::Matching { avars, .. } => remove_keys(m, avars),
        LogItemV::Interpretation { .. } => m,
    }
}

/// The atom a step is about.
pub open spec fn qatom_of(item: LogItemV) -> usize {
    match item {
        LogItemV::Matching { qatom_i, .. } => qatom_i,
        LogItemV::Interpretation { qatom_i } => qatom_i,
    }
}

/// The steps of `a` are about atoms `0, 1, ...` in order, at most
/// `conj_len` of them, and all of them once the answer is complete.
pub open spec fn answer_shape(a: AnswerV, conj_len: nat) -> bool {
    &&& a.log.len() <= conj_len
    &&& forall|j: int| 0 <= j < a.log.len() ==> qatom_of(#[trigger] a.log[j]) == j
    &&& a.state is Answer ==> a.log.len() == conj_len
}

/// The answer after taking the next atom of the conjunct `conj`: complete
/// when every atom has a step, else with a step for the next atom (an
/// interpreted one to evaluate, any other to match from its first fact).
pub open spec fn next_a_v(a: AnswerV, p: PSTermsV, conj: Seq<TermId>) -> AnswerV {
    if a.log.len() >= a.conj_len {
        AnswerV { state: MatchingState::Answer, ..a }
    } else {
        let q = a.log.len() as usize;
        let qtid = conj[q as int];
        let interpreted = qtid.0 < p.terms.len() && p.terms[qtid.0 as int] is IFunctor;
        AnswerV {
            log: a.log.push(
                if interpreted {
                    LogItemV::Interpretation { qatom_i: q }
                } else {
                    LogItemV::Matching { qatom_i: q, batom_i: first_b(a, q), avars: Seq::empty() }
                },
            ),
            state: MatchingState::Ready,
            ..a
        }
    }
}

/// The answer after moving its last step to the next fact, or dropping it.
pub open spec fn next_b_v(a: AnswerV) -> AnswerV {
    match a.log.last() {
        LogItemV::Matching { qatom_i, batom_i, avars } => if batom_i < last_b(a, qatom_i) {
            AnswerV {
                amap: remove_keys(a.amap, avars),
                log: a.log.update(a.log.len() - 1, LogItemV::Matching { qatom_i, batom_i: (batom_i + 1) as usize, avars }),
                state: MatchingState::Ready,
                ..a
            }
        } else {
            AnswerV { amap: remove_keys(a.amap, avars), log: a.log.drop_last(), state: MatchingState::Rollback, ..a }
        },
        LogItemV::Interpretation { .. } => AnswerV { log: a.log.drop_last(), state: MatchingState::Rollback, ..a },
    }
}

/// The answer after moving to the next atom that must take a new fact.
pub open spec fn next_k_v(a: AnswerV) -> AnswerV {
    if a.k < a.conj_len - 1 {
        AnswerV { k: (a.k + 1) as usize, state: MatchingState::Zero, ..a }
    } else {
        AnswerV { state: MatchingState::Exhausted, ..a }
    }
}

/// `a` with `qtid` bound to `btid`, the binding recorded with the last
/// (matching) step.
pub open spec fn pushed(a: AnswerV, qtid: TermId, btid: TermId) -> AnswerV {
    AnswerV {
        amap: a.amap.insert(qtid.0, btid.0),
        log: a.log.update(
            a.log.len() - 1,
            match a.log.last() {
                LogItemV::Matching { qatom_i, batom_i, avars } => LogItemV::Matching {
                    qatom_i,
                    batom_i,
                    avars: avars.push(qtid),
                },
                LogItemV::Interpretation { qatom_i } => LogItemV::Interpretation { qatom_i },
            },
        ),
        ..a
    }
}

/// The first fact place tried for atom `qatom_i`.
pub open spec fn first_b(a: AnswerV, qatom_i: usize) -> usize {
    if qatom_i < a.k {
        a.lower
    } else if qatom_i == a.k {
        a.middle
    } else {
        a.lower
    }
}

/// The last fact place tried for atom `qatom_i`.
pub open spec fn last_b(a: AnswerV, qatom_i: usize) -> usize {
    if qatom_i < a.k {
        a.middle
    } else {
        a.upper
    }
}

pub fn remove_all_keys(m: &mut IdMap, keys: &Vec<TermId>)
    ensures
        final(m)@ == remove_keys(old(m)@, keys@),
{
    let mut i: usize = 0;
    while i < keys.len()
        invariant
            i <= keys@.len(),
            m@ == remove_keys(old(m)@, keys@.take(i as int)),
        decreases keys@.len() - i,
    {
        m.remove(keys[i].0);
        proof {
            assert(keys@.take(i + 1).drop_last() =~= keys@.take(i as int));
        }
        i = i + 1;
    }
    proof {
        assert(keys@.take(i as int) =~= keys@);
    }
}

impl Answer {
    /// A fresh answer for question `qid` in block `bid`, over a base of
    /// `b_len` facts and a conjunct of `q_len` atoms.
    pub fn new(bid: BlockId, qid: QuestionId, b_len: usize, q_len: usize) -> (a: Self)
        requires
            b_len >= 1,
        ensures
            a@ == (AnswerV {
                amap: Map::empty(),
                log: Seq::empty(),
                bid: bid,
                qid: qid,
                lower: 0,
                middle: 0,
                upper: (b_len - 1) as usize,
                k: 0,
                conj_len: q_len,
                state: MatchingState::Zero,
                level: None,
            }),
    {
        let a = Self {
            amap: IdMap::new(),
            log: Vec::new(),
            bid: bid,
            qid: qid,
            lower: 0,
            middle: 0,
            upper: b_len - 1,
            k: 0,
            conj_len: q_len,
            state: MatchingState::Zero,
            level: None,
        };
        proof {
            assert(a@.log =~= Seq::<LogItemV>::empty());
        }
        a
    }

    /// A copy of the answer.
    pub fn copy(&self) -> (r: Self)
        ensures
            r@ == self@,
    {
        let mut log: Vec<LogItem> = Vec::new();
        let mut i: usize = 0;
        while i < self.log.len()
            invariant
                i <= self.log@.len(),
                logv(log@) == logv(self.log@).take(i as int),
                log@.len() == i,
            decreases self.log@.len() - i,
        {
            let ghost l0 = log@;
            let c = self.log[i].copy();
            log.push(c);
            proof {
                assert forall|j: int| 0 <= j < i + 1 implies #[trigger] logv(log@)[j] == logv(self.log@)[j] by {
                    if j < i {
                        assert(log@[j] == l0[j]);
                        assert(logv(l0)[j] == logv(self.log@).take(i as int)[j]);
                    }
                }
            }
            i = i + 1;
            proof {
                assert(logv(log@) =~= logv(self.log@).take(i as int));
            }
        }
        proof {
            assert(logv(self.log@).take(i as int) =~= logv(self.log@));
        }
        Self {
            amap: self.amap.copy(),
            log: log,
            bid: self.bid,
            qid: self.qid,
            lower: self.lower,
            middle: self.middle,
            upper: self.upper,
            k: self.k,
            conj_len: self.conj_len,
            state: self.state,
            level: self.level,
        }
    }

    /// Number of steps taken.
    pub fn len(&self) -> (n: usize)
        ensures
            n == self@.log.len(),
    {
        self.log.len()
    }

    /// The last step, if any.
    pub fn last(&self) -> (r: Option<&LogItem>)
        ensures
            r matches Some(l) ==> self@.log.len() > 0 && l@ == self@.log.last(),
            r is None ==> self@.log.len() == 0,
    {
        if self.log.len() == 0 {
            None
        } else {
            Some(&self.log[self.log.len() - 1])
        }
    }

    /// The last step, to change in place, if any.
    pub fn last_mut(&mut self) -> (r: Option<&mut LogItem>)
        ensures
            old(self).log@.len() == 0 ==> r is None && final(self).log@ == old(self).log@,
            old(self).log@.len() > 0 ==> (r matches Some(x) && *x == old(self).log@.last()
                && final(self).log@ == old(self).log@.update(old(self).log@.len() - 1, *final(x))),
            final(self).amap == old(self).amap,
            final(self).state == old(self).state,
    {
        let n = self.log.len();
        if n == 0 {
            None
        } else {
            Some(&mut self.log[n - 1])
        }
    }

    /// The value the substitution gives `tid`, if any.
    pub fn get(&self, tid: &TermId) -> (r: Option<TermId>)
        ensures
            r == (if self@.amap.contains_key(tid.0) {
                Some(TermId(self@.amap[tid.0]))
            } else {
                None::<TermId>
            }),
    {
        match self.amap.get(tid.0) {
            Some(v) => Some(TermId(v)),
            None => None,
        }
    }

    /// Starts matching atom `qatom_i` against fact `b`.
    pub fn push_satom(&mut self, qatom_i: usize, b: usize)
        ensures
            final(self)@ == (AnswerV {
                log: old(self)@.log.push(
                    LogItemV::Matching { qatom_i: qatom_i, batom_i: b, avars: Seq::empty() },
                ),
                ..old(self)@
            }),
    {
        self.log.push(LogItem::Matching { qatom_i: qatom_i, batom_i: b, avars: Vec::new() });
        proof {
            assert(self@.log =~= old(self)@.log.push(
                LogItemV::Matching { qatom_i: qatom_i, batom_i: b, avars: Seq::empty() },
            ));
        }
    }

    /// Starts evaluating the interpreted atom `qatom_i`.
    pub fn push_iatom(&mut self, qatom_i: usize)
        ensures
            final(self)@ == (AnswerV {
                log: old(self)@.log.push(LogItemV::Interpretation { qatom_i: qatom_i }),
                ..old(self)@
            }),
    {
        self.log.push(LogItem::Interpretation { qatom_i: qatom_i });
        proof {
            assert(self@.log =~= old(self)@.log.push(LogItemV::Interpretation { qatom_i: qatom_i }));
        }
    }

    /// Binds `qtid` to `btid`, recorded with the current matching step.
    pub fn push(&mut self, qtid: TermId, btid: TermId)
        requires
            old(self)@.log.len() > 0,
            old(self)@.log.last() is Matching,
        ensures
            final(self)@ == pushed(old(self)@, qtid, btid),
    {
        self.amap.insert(qtid.0, btid.0);
        let n = self.log.len();
        let item = match &self.log[n - 1] {
            LogItem::Matching { qatom_i, batom_i, avars } => {
                let mut v = copy_tids(avars);
                v.push(qtid);
                LogItem::Matching { qatom_i: *qatom_i, batom_i: *batom_i, avars: v }
            },
            LogItem::Interpretation { qatom_i } => LogItem::Interpretation { qatom_i: *qatom_i },
        };
        self.log.set(n - 1, item);
        proof {
            assert(self@.log =~= old(self)@.log.update(
                old(self)@.log.len() - 1,
                match old(self)@.log.last() {
                    LogItemV::Matching { qatom_i, batom_i, avars } => LogItemV::Matching {
                        qatom_i,
                        batom_i,
                        avars: avars.push(qtid),
                    },
                    LogItemV::Interpretation { qatom_i } => LogItemV::Interpretation { qatom_i },
                },
            ));
        }
    }

    /// Undoes the bindings of the last step (which stays); false if there is none.
    pub fn back_top(&mut self) -> (r: bool)
        ensures
            r == (old(self)@.log.len() > 0),
            final(self)@ == (AnswerV {
                amap: if r {
                    unbind(old(self)@.amap, old(self)@.log.last())
                } else {
                    old(self)@.amap
                },
                ..old(self)@
            }),
    {
        let n = self.log.len();
        if n == 0 {
            return false;
        }
        match &self.log[n - 1] {
            LogItem::Matching { avars, .. } => {
                remove_all_keys(&mut self.amap, avars);
            },
            LogItem::Interpretation { .. } => {},
        }
        true
    }

    /// Removes the last step and undoes its bindings; false if there is none.
    pub fn pop(&mut self) -> (r: bool)
        ensures
            r == (old(self)@.log.len() > 0),
            final(self)@ == (AnswerV {
                amap: if r {
                    unbind(old(self)@.amap, old(self)@.log.last())
                } else {
                    old(self)@.amap
                },
                log: if r {
                    old(self)@.log.drop_last()
                } else {
                    old(self)@.log
                },
                ..old(self)@
            }),
    {
        match self.log.pop() {
            Some(item) => {
                match &item {
                    LogItem::Matching { avars, .. } => {
                        remove_all_keys(&mut self.amap, avars);
                    },
                    LogItem::Interpretation { .. } => {},
                }
                proof {
                    assert(self@.log =~= old(self)@.log.drop_last());
                }
                true
            },
            None => false,
        }
    }

    /// The first fact place tried for atom `qatom_i`.
    pub fn get_b(&self, qatom_i: usize) -> (b: usize)
        ensures
            b == first_b(self@, qatom_i),
    {
        if qatom_i < self.k {
            self.lower
        } else if qatom_i == self.k {
            self.middle
        } else {
            self.lower
        }
    }

    /// When the base has grown past the upper bound, makes the new facts
    /// the range to search; tells whether it did.
    pub fn shift_bounds(&mut self, blen: usize) -> (r: bool)
        requires
            blen >= 1,
        ensures
            r == (old(self)@.upper < blen - 1),
            final(self)@ == (if r {
                AnswerV { middle: old(self)@.upper, upper: (blen - 1) as usize, ..old(self)@ }
            } else {
                old(self)@
            }),
    {
        if self.upper < blen - 1 {
            self.middle = self.upper;
            self.upper = blen - 1;
            true
        } else {
            false
        }
    }

    /// Moves to the next atom that must take a new fact, or exhausts.
    pub fn next_k(&mut self)
        requires
            old(self)@.conj_len >= 1,
        ensures
            final(self)@ == next_k_v(old(self)@),
            old(self)@.k < old(self)@.conj_len - 1 ==> final(self)@ == (AnswerV {
                k: (old(self)@.k + 1) as usize,
                state: MatchingState::Zero,
                ..old(self)@
            }),
            old(self)@.k >= old(self)@.conj_len - 1 ==> final(self)@ == (AnswerV {
                state: MatchingState::Exhausted,
                ..old(self)@
            }),
    {
        if self.k < self.conj_len - 1 {
            self.k = self.k + 1;
            self.state = MatchingState::Zero;
        } else {
            self.state = MatchingState::Exhausted;
        }
    }

    /// Moves the last matching step to the next fact (undoing its bindings),
    /// or, past the last fact of its range, removes it and rolls back.
    pub fn next_b(&mut self)
        requires
            old(self)@.log.len() > 0,
        ensures
            final(self)@ == next_b_v(old(self)@),
            match old(self)@.log.last() {
                LogItemV::Matching { qatom_i, batom_i, avars } => if batom_i < last_b(
                    old(self)@,
                    qatom_i,
                ) {
                    final(self)@ == (AnswerV {
                        amap: remove_keys(old(self)@.amap, avars),
                        log: old(self)@.log.update(
                            old(self)@.log.len() - 1,
                            LogItemV::Matching { qatom_i, batom_i: (batom_i + 1) as usize, avars },
                        ),
                        state: MatchingState::Ready,
                        ..old(self)@
                    })
                } else {
                    final(self)@ == (AnswerV {
                        amap: remove_keys(old(self)@.amap, avars),
                        log: old(self)@.log.drop_last(),
                        state: MatchingState::Rollback,
                        ..old(self)@
                    })
                },
                LogItemV::Interpretation { .. } => final(self)@ == (AnswerV {
                    log: old(self)@.log.drop_last(),
                    state: MatchingState::Rollback,
                    ..old(self)@
                }),
            },
    {
        let n = self.log.len();
        let (is_m, qatom_i, batom_i) = match &self.log[n - 1] {
            LogItem::Matching { qatom_i, batom_i, .. } => (true, *qatom_i, *batom_i),
            LogItem::Interpretation { qatom_i } => (false, *qatom_i, 0),
        };
        if is_m {
            let bound = if qatom_i < self.k {
                self.middle
            } else {
                self.upper
            };
            if batom_i < bound {
                let avars = match &self.log[n - 1] {
                    LogItem::Matching { avars, .. } => copy_tids(avars),
                    LogItem::Interpretation { .. } => Vec::new(),
                };
                let ghost av = avars@;
                self.log.set(
                    n - 1,
                    LogItem::Matching { qatom_i: qatom_i, batom_i: batom_i + 1, avars: avars },
                );
                proof {
                    assert(self@.log =~= old(self)@.log.update(
                        old(self)@.log.len() - 1,
                        LogItemV::Matching { qatom_i, batom_i: (batom_i + 1) as usize, avars: av },
                    ));
                    assert(self@.log.last() == LogItemV::Matching {
                        qatom_i,
                        batom_i: (batom_i + 1) as usize,
                        avars: av,
                    });
                }
                self.back_top();
                self.state = MatchingState::Ready;
            } else {
                self.pop();
                self.state = MatchingState::Rollback;
            }
        } else {
            self.pop();
            self.state = MatchingState::Rollback;
        }
    }

    /// Takes the next atom of the conjunct: when every atom has a step, the
    /// answer is complete; otherwise an interpreted atom is to be evaluated
    /// and any other atom is to be matched from its first fact place.
    pub fn next_a(&mut self, psterms: &PSTerms, tqf: &Tqf)
        requires
            old(self)@.conj_len == tqf.conj@.len(),
        ensures
            final(self)@ == next_a_v(old(self)@, psterms@, tqf.conj@),
            old(self)@.log.len() >= old(self)@.conj_len ==> final(self)@ == (AnswerV {
                state: MatchingState::Answer,
                ..old(self)@
            }),
            old(self)@.log.len() < old(self)@.conj_len ==> {
                let q = old(self)@.log.len() as usize;
                let qtid = tqf.conj@[q as int];
                let interpreted = qtid.0 < psterms@.terms.len() && psterms@.terms[qtid.0 as int] is IFunctor;
                final(self)@ == (AnswerV {
                    log: old(self)@.log.push(
                        if interpreted {
                            LogItemV::Interpretation { qatom_i: q }
                        } else {
                            LogItemV::Matching { qatom_i: q, batom_i: first_b(old(self)@, q), avars: Seq::empty() }
                        },
                    ),
                    state: MatchingState::Ready,
                    ..old(self)@
                })
            },
    {
        let n = self.log.len();
        if n >= self.conj_len {
            self.state = MatchingState::Answer;
            return;
        }
        let qtid = tqf.conj[n];
        let interpreted = qtid.0 < psterms.len() && match psterms.term_ref(&qtid) {
            Term::IFunctor(..) => true,
            _ => false,
        };
        if interpreted {
            self.push_iatom(n);
        } else {
            let b = self.get_b(n);
            self.push_satom(n, b);
        }
        self.state = MatchingState::Ready;
    }

    /// Whether the steps of the answer are in the shape [`answer_shape`] says.
    pub fn shape_ok(&self, conj_len: usize) -> (r: bool)
        ensures
            r == answer_shape(self@, conj_len as nat),
    {
        let n = self.log.len();
        if n > conj_len {
            return false;
        }
        let mut j: usize = 0;
        while j < n
            invariant
                n == self@.log.len(),
                j <= n,
                forall|k: int| 0 <= k < j ==> qatom_of(#[trigger] self@.log[k]) == k,
            decreases n - j,
        {
            let q = match &self.log[j] {
                LogItem::Matching { qatom_i, .. } => *qatom_i,
                LogItem::Interpretation { qatom_i } => *qatom_i,
            };
            proof {
                assert(self@.log[j as int] == self.log@[j as int]@);
            }
            if q != j {
                return false;
            }
            j = j + 1;
        }
        match self.state {
            MatchingState::Answer => n == conj_len,
            _ => true,
        }
    }

    /// Whether the two answers give the same substitution.
    pub fn same_substitution(&self, other: &Answer) -> (r: bool)
        ensures
            r == (self@.amap == other@.amap),
    {
        self.amap.same_as(&other.amap)
    }
}

/// `m` with each key of `keys` bound to the value at the same place of `vals`.
pub open spec fn bind_all(m: Map<usize, usize>, keys: Seq<TermId>, vals: Seq<TermId>) -> Map<usize, usize>
    decreases keys.len(),
{
    if keys.len() == 0 || vals.len() == 0 {
        m
    } else {
        bind_all(m, keys.drop_last(), vals.drop_last()).insert(keys.last().0, vals.last().0)
    }
}

proof fn lemma_remove_keys_dom(m: Map<usize, usize>, keys: Seq<TermId>, k: usize)
    ensures
        remove_keys(m, keys).contains_key(k) == (m.contains_key(k) && !keys.contains(TermId(k))),
        remove_keys(m, keys).contains_key(k) ==> remove_keys(m, keys)[k] == m[k],
    decreases keys.len(),
{
    if keys.len() > 0 {
        lemma_remove_keys_dom(m, keys.drop_last(), k);
        if keys.drop_last().contains(TermId(k)) {
            let j = choose|j: int| 0 <= j < keys.drop_last().len() && keys.drop_last()[j] == TermId(k);
            assert(keys[j] == TermId(k));
        }
        if keys.contains(TermId(k)) && keys.last().0 != k {
            let j = choose|j: int| 0 <= j < keys.len() && keys[j] == TermId(k);
            assert(keys.drop_last()[j] == TermId(k));
        }
        if keys.last().0 == k {
            assert(keys[keys.len() - 1] == TermId(k));
        }
    }
}

proof fn lemma_bind_all_outside(m: Map<usize, usize>, keys: Seq<TermId>, vals: Seq<TermId>, k: usize)
    requires
        !keys.contains(TermId(k)),
    ensures
        bind_all(m, keys, vals).contains_key(k) == m.contains_key(k),
        m.contains_key(k) ==> bind_all(m, keys, vals)[k] == m[k],
    decreases keys.len(),
{
    if keys.len() > 0 && vals.len() > 0 {
        if keys.drop_last().contains(TermId(k)) {
            let j = choose|j: int| 0 <= j < keys.drop_last().len() && keys.drop_last()[j] == TermId(k);
            assert(keys[j] == TermId(k));
        }
        lemma_bind_all_outside(m, keys.drop_last(), vals.drop_last(), k);
        assert(keys[keys.len() - 1] != TermId(k));
    }
}

/// Undoing a step takes back exactly its bindings: binding fresh variables
/// (as matching does, one `push` each) and then removing them (as `pop`,
/// `back_top` and `next_b` do) gives back the substitution.
pub proof fn law_unbind_undoes_bindings(m: Map<usize, usize>, keys: Seq<TermId>, vals: Seq<TermId>)
    requires
        forall|i: int| 0 <= i < keys.len() ==> !m.contains_key((#[trigger] keys[i]).0),
    ensures
        remove_keys(bind_all(m, keys, vals), keys) == m,
{
    let b = bind_all(m, keys, vals);
    assert forall|k: usize| #[trigger] remove_keys(b, keys).contains_key(k) == m.contains_key(k) by {
        lemma_remove_keys_dom(b, keys, k);
        if keys.contains(TermId(k)) {
            let j = choose|j: int| 0 <= j < keys.len() && keys[j] == TermId(k);
            assert(!m.contains_key(keys[j].0));
        } else {
            lemma_bind_all_outside(m, keys, vals, k);
        }
    }
    assert forall|k: usize| #[trigger] remove_keys(b, keys).contains_key(k) implies remove_keys(b, keys)[k] == m[k] by {
        lemma_remove_keys_dom(b, keys, k);
        lemma_bind_all_outside(m, keys, vals, k);
    }
    assert(remove_keys(b, keys) =~= m);
}

pub proof fn lemma_remove_keys(m: Map<usize, usize>, keys: Seq<TermId>, k: usize)
    ensures
        remove_keys(m, keys).contains_key(k) == (m.contains_key(k) && !keys.contains(TermId(k))),
        remove_keys(m, keys).contains_key(k) ==> remove_keys(m, keys)[k] == m[k],
{
    lemma_remove_keys_dom(m, keys, k);
}

} // verus!
