use vstd::prelude::*;
use crate::misc::{TermId, BlockId};
use crate::term::BTerm;
use crate::idmap::IdMap;

verus! {

/// The facts derived so far: terms with the block that added them, and an
/// index from a term to the place of its latest addition.
pub struct Base {
    pub base: Vec<BTerm>,
    index: IdMap,
}

/// Where the trailing run of entries added by block `bid` starts.
pub open spec fn trailing_start(s: Seq<BTerm>, bid: BlockId) -> int
    decreases s.len(),
{
    if s.len() > 0 && s.last().bid == bid {
        trailing_start(s.drop_last(), bid)
    } else {
        s.len() as int
    }
}

pub proof fn lemma_trailing_start(s: Seq<BTerm>, bid: BlockId)
    ensures
        0 <= trailing_start(s, bid) <= s.len(),
        forall|i: int| trailing_start(s, bid) <= i < s.len() ==> (#[trigger] s[i]).bid == bid,
        trailing_start(s, bid) > 0 ==> s[trailing_start(s, bid) - 1].bid != bid,
    decreases s.len(),
{
    if s.len() > 0 && s.last().bid == bid {
        lemma_trailing_start(s.drop_last(), bid);
        assert forall|i: int| trailing_start(s, bid) <= i < s.len() implies (#[trigger] s[i]).bid == bid by {
            if i < s.len() - 1 {
                assert(s[i] == s.drop_last()[i]);
            }
        }
    }
}

impl Base {
    /// The entries, in the order they were added.
    pub closed spec fn entries(&self) -> Seq<BTerm> {
        self.base@
    }

    /// The index: a term identifier to the place of its latest addition.
    pub closed spec fn index_view(&self) -> Map<usize, usize> {
        self.index@
    }

    /// Every indexed term sits at its indexed place.
    pub closed spec fn wf(&self) -> bool {
        forall|t: usize|
            #[trigger] self.index@.contains_key(t) ==> self.index@[t] < self.entries().len()
                && self.entries()[self.index@[t] as int].term.0 == t
    }

    pub fn new() -> (b: Base)
        ensures
            b.wf(),
            b.entries().len() == 0,
            b.index_view() == Map::<usize, usize>::empty(),
    {
        Base { base: Vec::new(), index: IdMap::new() }
    }

    pub fn len(&self) -> (n: usize)
        ensures
            n == self.entries().len(),
    {
        self.base.len()
    }

    pub fn is_empty(&self) -> (r: bool)
        ensures
            r == (self.entries().len() == 0),
    {
        self.base.len() == 0
    }

    /// The entry at place `i`.
    pub fn get(&self, i: usize) -> (b: &BTerm)
        requires
            i < self.entries().len(),
        ensures
            *b == self.entries()[i as int],
    {
        &self.base[i]
    }

    /// Adds `tid` for block `bid` and indexes it at its new place.
    pub fn push(&mut self, tid: TermId, bid: BlockId)
        requires
            old(self).wf(),
        ensures
            final(self).wf(),
            final(self).entries() == old(self).entries().push(BTerm { term: tid, bid: bid, deleted: false }),
            final(self).index_view() == old(self).index_view().insert(tid.0, old(self).entries().len() as usize),
    {
        let n = self.base.len();
        self.index.insert(tid.0, n);
        self.base.push(BTerm { term: tid, bid: bid, deleted: false });
        proof {
            assert forall|t: usize| #[trigger] self.index@.contains_key(t) implies self.index@[t]
                < self.entries().len() && self.entries()[self.index@[t] as int].term.0 == t by {
                if t != tid.0 {
                    assert(old(self).index@.contains_key(t));
                }
            }
        }
    }

    /// Adds `tid` for block `bid` unless it is present and not deleted;
    /// tells whether it was added.
    pub fn push_and_check(&mut self, tid: TermId, bid: BlockId) -> (added: bool)
        requires
            old(self).wf(),
        ensures
            final(self).wf(),
            added == (!old(self).index_view().contains_key(tid.0)
                || old(self).entries()[old(self).index_view()[tid.0] as int].deleted),
            added ==> final(self).entries() == old(self).entries().push(
                BTerm { term: tid, bid: bid, deleted: false },
            ) && final(self).index_view() == old(self).index_view().insert(
                tid.0,
                old(self).entries().len() as usize,
            ),
            !added ==> final(self).entries() == old(self).entries() && final(self).index_view() == old(
                self,
            ).index_view(),
            exists|i: int|
                0 <= i < final(self).entries().len() && #[trigger] final(self).entries()[i].term == tid
                    && !final(self).entries()[i].deleted,
    {
        match self.index.get(tid.0) {
            Some(i) => {
                if self.base[i].deleted {
                    self.push(tid, bid);
                    proof {
                        assert(self.entries()[old(self).entries().len() as int].term == tid);
                    }
                    true
                } else {
                    proof {
                        assert(self.entries()[i as int].term.0 == tid.0);
                        assert(self.entries()[i as int].term == tid);
                    }
                    false
                }
            },
            None => {
                self.push(tid, bid);
                proof {
                    assert(self.entries()[old(self).entries().len() as int].term == tid);
                }
                true
            },
        }
    }

    /// Removes the trailing entries added by block `bid`, and their index.
    pub fn remove(&mut self, bid: BlockId)
        requires
            old(self).wf(),
        ensures
            final(self).wf(),
            final(self).entries() == old(self).entries().take(trailing_start(old(self).entries(), bid)),
            forall|t: usize|
                #[trigger] final(self).index_view().contains_key(t) <==> (old(self).index_view().contains_key(t)
                    && forall|i: int|
                    trailing_start(old(self).entries(), bid) <= i < old(self).entries().len() ==> old(self).entries()[i].term.0 != t),
            forall|t: usize| #[trigger]
                final(self).index_view().contains_key(t) ==> final(self).index_view()[t] == old(
                    self,
                ).index_view()[t],
    {
        let ghost ob = self.entries();
        let ghost oi = self.index@;
        proof {
            lemma_trailing_start(ob, bid);
        }
        while self.base.len() > 0 && self.base[self.base.len() - 1].bid == bid
            invariant
                self.wf(),
                trailing_start(ob, bid) <= self.entries().len() <= ob.len(),
                self.entries() == ob.take(self.entries().len() as int),
                trailing_start(self.entries(), bid) == trailing_start(ob, bid),
                forall|t: usize|
                    #[trigger] self.index@.contains_key(t) <==> (oi.contains_key(t) && forall|i: int|
                        self.entries().len() <= i < ob.len() ==> ob[i].term.0 != t),
                forall|t: usize| #[trigger] self.index@.contains_key(t) ==> self.index@[t] == oi[t],
            decreases self.entries().len(),
        {
            let ghost before = self.entries();
            let bt = self.base.pop().unwrap();
            self.index.remove(bt.term.0);
            proof {
                assert(self.entries() =~= ob.take(self.entries().len() as int));
                assert(before.drop_last() == self.entries());
                assert(trailing_start(before, bid) == trailing_start(before.drop_last(), bid));
                lemma_trailing_start(self.entries(), bid);
                assert forall|t: usize| #[trigger] self.index@.contains_key(t) implies self.index@[t]
                    < self.entries().len() && self.entries()[self.index@[t] as int].term.0 == t by {
                    assert(self.index@[t] < before.len());
                    if self.index@[t] == before.len() - 1 {
                        assert(before[before.len() - 1] == bt);
                    }
                }
                assert forall|t: usize| #[trigger] self.index@.contains_key(t) <==> (oi.contains_key(t)
                    && forall|i: int| self.entries().len() <= i < ob.len() ==> ob[i].term.0 != t) by {
                    assert(ob[self.entries().len() as int] == bt);
                }
            }
        }
        proof {
            if self.entries().len() > trailing_start(ob, bid) {
                assert(self.entries().len() > 0 && self.entries().last().bid == bid) by {
                    assert(ob[self.entries().len() - 1].bid == bid);
                }
            }
        }
    }

    /// Whether the entry at place `i` is marked deleted.
    pub fn deleted(&self, i: usize) -> (r: bool)
        requires
            i < self.entries().len(),
        ensures
            r == self.entries()[i as int].deleted,
    {
        self.base[i].deleted
    }

    /// Whether `tid` is indexed.
    pub fn contains_key(&self, tid: &TermId) -> (r: bool)
        ensures
            r == self.index_view().contains_key(tid.0),
    {
        self.index.contains_key(tid.0)
    }
}

/// Removing a block takes back exactly what it added: when the entries
/// before the block's end with an entry of another block (or are empty),
/// removing the block from them plus the block's entries gives them back.
pub proof fn law_remove_undoes_block(s: Seq<BTerm>, added: Seq<BTerm>, bid: BlockId)
    requires
        s.len() == 0 || s.last().bid != bid,
        forall|i: int| 0 <= i < added.len() ==> (#[trigger] added[i]).bid == bid,
    ensures
        (s + added).take(trailing_start(s + added, bid)) == s,
    decreases added.len(),
{
    if added.len() == 0 {
        assert(s + added =~= s);
        assert(s.take(s.len() as int) =~= s);
    } else {
        let shorter = added.drop_last();
        assert forall|i: int| 0 <= i < shorter.len() implies (#[trigger] shorter[i]).bid == bid by {
            assert(shorter[i] == added[i]);
        }
        law_remove_undoes_block(s, shorter, bid);
        assert((s + added).drop_last() =~= s + shorter);
        assert((s + added).last() == added.last());
        assert(trailing_start(s + added, bid) == trailing_start(s + shorter, bid));
        lemma_trailing_start(s + shorter, bid);
        assert((s + added).take(trailing_start(s + added, bid)) =~= (s + shorter).take(
            trailing_start(s + shorter, bid),
        ));
    }
}

} // verus!
