use vstd::prelude::*;
use crate::misc::{TermId, BlockId};
use crate::idmap::IdMap;
use crate::answer::{Answer, remove_keys, remove_all_keys, lemma_remove_keys};
use crate::term::{PSTerms, TermV, symbol_of};

verus! {

/// What the variables of a branch stand for: the substitutions of the
/// answers taken on the way to the branch, and fresh instances of its
/// existential variables.
pub struct Context {
    pub map: IdMap,
}

/// Whether one of the first `n` identifiers of `s` is `k`.
pub open spec fn in_prefix(s: Seq<TermId>, n: int, k: usize) -> bool {
    exists|l: int| 0 <= l < n && s[l].0 == k
}

/// No identifier of `s` after place `i` and before place `n` is the one
/// at `i`.
pub open spec fn last_in(s: Seq<TermId>, i: int, n: int) -> bool {
    forall|l: int| i < l < n ==> s[l] != s[i]
}

/// No later identifier of `s` is the one at place `i`.
pub open spec fn last_at(s: Seq<TermId>, i: int) -> bool {
    last_in(s, i, s.len() as int)
}

impl Context {
    /// The context binding nothing.
    pub fn new_empty() -> (c: Context)
        ensures
            c.map@ == Map::<usize, usize>::empty(),
    {
        Context { map: IdMap::new() }
    }

    /// The context `prev` extended by the substitution of `answer`.
    pub fn new(prev_context: &Context, answer: &Answer) -> (c: Context)
        ensures
            c.map@ == prev_context.map@.union_prefer_right(answer@.amap),
    {
        let mut m = prev_context.map.copy();
        m.extend(&answer.amap);
        Context { map: m }
    }

    /// What `tid` stands for, if bound.
    pub fn get(&self, tid: &TermId) -> (r: Option<TermId>)
        ensures
            r == (if self.map@.contains_key(tid.0) {
                Some(TermId(self.map@[tid.0]))
            } else {
                None::<TermId>
            }),
    {
        match self.map.get(tid.0) {
            Some(v) => Some(TermId(v)),
            None => None,
        }
    }

    /// Binds each existential variable of `evars` to a fresh instance of it
    /// for block `bid`.
    #[verifier::rlimit(80)]
    pub fn push_evars(&mut self, evars: &Vec<TermId>, psterms: &mut PSTerms, bid: BlockId)
        requires
            old(psterms)@.wf(),
            forall|i: int|
                0 <= i < evars@.len() ==> (#[trigger] evars@[i]).0 < old(psterms)@.terms.len()
                    && old(psterms)@.terms[evars@[i].0 as int] is EVariable,
        ensures
            final(psterms)@.wf(),
            final(psterms)@.extends(old(psterms)@),
            final(psterms)@.symbols == old(psterms)@.symbols,
            forall|j: int|
                0 <= j < final(psterms)@.terms.len() ==> #[trigger] final(psterms)@.indexed[j] == (j
                    < old(psterms)@.terms.len() && old(psterms)@.indexed[j]),
            forall|i: int|
                0 <= i < evars@.len() ==> {
                    let e = #[trigger] evars@[i];
                    &&& final(self).map@.contains_key(e.0)
                    &&& old(psterms)@.terms.len() <= final(self).map@[e.0] < final(psterms)@.terms.len()
                    &&& final(psterms)@.terms[final(self).map@[e.0] as int] == TermV::EVariable(
                        symbol_of(old(psterms)@.terms[e.0 as int]).unwrap(),
                        bid,
                    )
                },
            forall|k: usize|
                !in_prefix(evars@, evars@.len() as int, k) ==> (#[trigger] final(self).map@.contains_key(k) == old(self).map@.contains_key(k) && (
                old(self).map@.contains_key(k) ==> final(self).map@[k] == old(self).map@[k])),
            final(psterms)@.terms.len() == old(psterms)@.terms.len() + evars@.len(),
            forall|i: int|
                0 <= i < evars@.len() ==> final(psterms)@.terms[old(psterms)@.terms.len() + i] == TermV::EVariable(
                    symbol_of(old(psterms)@.terms[(#[trigger] evars@[i]).0 as int]).unwrap(),
                    bid,
                ),
            forall|i: int|
                0 <= i < evars@.len() && last_at(evars@, i) ==> final(self).map@[(#[trigger] evars@[i]).0]
                    == old(psterms)@.terms.len() + i,
            (forall|i: int, j: int| 0 <= i < j < evars@.len() ==> evars@[i] != evars@[j]) ==> forall|i: int|
                0 <= i < evars@.len() ==> final(self).map@[(#[trigger] evars@[i]).0] == old(psterms)@.terms.len() + i,
    {
        let mut i: usize = 0;
        proof {
            PSTerms::lemma_extends_refl(psterms@);
        }
        while i < evars.len()
            invariant
                i <= evars@.len(),
                psterms@.wf(),
                psterms@.extends(old(psterms)@),
                psterms@.symbols == old(psterms)@.symbols,
                forall|j: int|
                    0 <= j < psterms@.terms.len() ==> #[trigger] psterms@.indexed[j] == (j < old(
                        psterms,
                    )@.terms.len() && old(psterms)@.indexed[j]),
                forall|l: int|
                    0 <= l < evars@.len() ==> (#[trigger] evars@[l]).0 < old(psterms)@.terms.len()
                        && old(psterms)@.terms[evars@[l].0 as int] is EVariable,
                forall|l: int|
                    0 <= l < i ==> {
                        let e = #[trigger] evars@[l];
                        &&& self.map@.contains_key(e.0)
                        &&& old(psterms)@.terms.len() <= self.map@[e.0] < psterms@.terms.len()
                        &&& psterms@.terms[self.map@[e.0] as int] == TermV::EVariable(
                            symbol_of(old(psterms)@.terms[e.0 as int]).unwrap(),
                            bid,
                        )
                    },
                forall|k: usize|
                    !in_prefix(evars@, i as int, k) ==> (#[trigger] self.map@.contains_key(k) == old(self).map@.contains_key(k) && (old(
                        self,
                    ).map@.contains_key(k) ==> self.map@[k] == old(self).map@[k])),
                psterms@.terms.len() == old(psterms)@.terms.len() + i,
                forall|l: int|
                    0 <= l < i ==> psterms@.terms[old(psterms)@.terms.len() + l] == TermV::EVariable(
                        symbol_of(old(psterms)@.terms[(#[trigger] evars@[l]).0 as int]).unwrap(),
                        bid,
                    ),
                forall|l: int|
                    0 <= l < i && last_in(evars@, l, i as int) ==> self.map@[(#[trigger] evars@[l]).0] == old(
                        psterms,
                    )@.terms.len() + l,
            decreases evars@.len() - i,
        {
            let e = evars[i];
            let ghost pb = psterms@;
            let ghost mb = self.map@;
            proof {
                assert(pb.terms.subrange(0, old(psterms)@.terms.len() as int)[e.0 as int] == old(
                    psterms,
                )@.terms[e.0 as int]);
            }
            let e2 = psterms.new_e(e, bid);
            self.map.insert(e.0, e2.0);
            proof {
                assert(psterms@.terms.subrange(0, pb.terms.len() as int) =~= pb.terms);
                PSTerms::lemma_extends_trans(old(psterms)@, pb, psterms@);
                assert forall|l: int| 0 <= l < i + 1 implies {
                    let e3 = #[trigger] evars@[l];
                    &&& self.map@.contains_key(e3.0)
                    &&& old(psterms)@.terms.len() <= self.map@[e3.0] < psterms@.terms.len()
                    &&& psterms@.terms[self.map@[e3.0] as int] == TermV::EVariable(
                        symbol_of(old(psterms)@.terms[e3.0 as int]).unwrap(),
                        bid,
                    )
                } by {
                    if l < i && evars@[l].0 != e.0 {
                        assert(psterms@.terms[mb[evars@[l].0] as int] == pb.terms[mb[evars@[l].0] as int]);
                    }
                }
                assert forall|l: int| 0 <= l < i + 1 implies psterms@.terms[old(psterms)@.terms.len() + l] == TermV::EVariable(
                    symbol_of(old(psterms)@.terms[(#[trigger] evars@[l]).0 as int]).unwrap(),
                    bid,
                ) by {
                    if l < i {
                        assert(psterms@.terms[old(psterms)@.terms.len() + l] == pb.terms[old(psterms)@.terms.len() + l]);
                    }
                }
                assert forall|l: int| 0 <= l < i + 1 && last_in(evars@, l, i + 1) implies self.map@[(#[trigger] evars@[l]).0]
                    == old(psterms)@.terms.len() + l by {
                    if l < i {
                        assert(evars@[i as int] != evars@[l]);
                        assert(last_in(evars@, l, i as int));
                    }
                }
            }
            i = i + 1;
            proof {
                assert forall|k: usize| !in_prefix(evars@, i as int, k) implies (
                    #[trigger] self.map@.contains_key(k) == old(self).map@.contains_key(k) && (old(
                        self,
                    ).map@.contains_key(k) ==> self.map@[k] == old(self).map@[k])) by {
                    if evars@[i - 1].0 == k {
                        assert(in_prefix(evars@, i as int, k));
                    }
                    if in_prefix(evars@, i - 1, k) {
                        let l = choose|l: int| 0 <= l < i - 1 && evars@[l].0 == k;
                        assert(in_prefix(evars@, i as int, k));
                    }
                    assert(mb.contains_key(k) == old(self).map@.contains_key(k));
                    assert(self.map@.contains_key(k) == mb.contains_key(k));
                    if mb.contains_key(k) {
                        assert(mb[k] == old(self).map@[k]);
                        assert(self.map@[k] == mb[k]);
                    }
                }
            }
        }
    }

    /// Removes the bindings of the variables `evars`.
    pub fn pop_evars(&mut self, evars: &Vec<TermId>)
        ensures
            final(self).map@ == remove_keys(old(self).map@, evars@),
    {
        remove_all_keys(&mut self.map, evars);
    }
}

/// Closing a block undoes opening it: when the existential variables of
/// the block were not bound before `push_evars`, which leaves every other
/// binding as it was, `pop_evars` gives back the context from before.
pub proof fn law_pop_undoes_push(before: Map<usize, usize>, after: Map<usize, usize>, evars: Seq<TermId>)
    requires
        forall|i: int| 0 <= i < evars.len() ==> !before.contains_key((#[trigger] evars[i]).0),
        forall|k: usize|
            !in_prefix(evars, evars.len() as int, k) ==> (#[trigger] after.contains_key(k) == before.contains_key(k) && (
            before.contains_key(k) ==> after[k] == before[k])),
    ensures
        remove_keys(after, evars) == before,
{
    assert forall|k: usize| #[trigger] remove_keys(after, evars).contains_key(k) == before.contains_key(k) by {
        lemma_remove_keys(after, evars, k);
        if evars.contains(TermId(k)) {
            let j = choose|j: int| 0 <= j < evars.len() && evars[j] == TermId(k);
            assert(!before.contains_key(evars[j].0));
        } else {
            if in_prefix(evars, evars.len() as int, k) {
                let l = choose|l: int| 0 <= l < evars.len() && evars[l].0 == k;
                assert(evars[l] == TermId(k));
            }
            assert(after.contains_key(k) == before.contains_key(k));
        }
    }
    assert forall|k: usize| #[trigger] remove_keys(after, evars).contains_key(k) implies remove_keys(after, evars)[k]
        == before[k] by {
        lemma_remove_keys(after, evars, k);
        if in_prefix(evars, evars.len() as int, k) {
            let l = choose|l: int| 0 <= l < evars.len() && evars[l].0 == k;
            assert(evars[l] == TermId(k));
        }
    }
    assert(remove_keys(after, evars) =~= before);
}

} // verus!
