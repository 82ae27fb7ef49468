use vstd::prelude::*;
use crate::misc::BlockId;

verus! {

#[derive(Clone, PartialEq, Eq, Hash, Debug)]
pub struct AttributeName(pub String);

#[derive(Clone, PartialEq, Debug)]
pub struct AttributeValue(pub String);

/// What an attribute is attached to.
#[derive(Copy, Clone, PartialEq, Eq, Structural, Hash, Debug)]
pub enum KeyObject {
    BaseIndex(usize),
}

/// One setting of an attribute: on what, which attribute, which value, by
/// which block.
pub struct Setting {
    pub obj: KeyObject,
    pub attr: Seq<char>,
    pub value: Seq<char>,
    pub bid: BlockId,
}

/// Attributes of objects, each with the history of its values; a value
/// set by a block goes away when the block is removed.
pub struct Attributes {
    settings: Vec<(KeyObject, AttributeName, AttributeValue, BlockId)>,
}

pub open spec fn setting_of(e: (KeyObject, AttributeName, AttributeValue, BlockId)) -> Setting {
    Setting { obj: e.0, attr: e.1.0@, value: e.2.0@, bid: e.3 }
}

/// The settings of attribute `attr` of `obj`, oldest first.
pub open spec fn history(s: Seq<Setting>, obj: KeyObject, attr: Seq<char>) -> Seq<Setting> {
    s.filter(|e: Setting| e.obj == obj && e.attr == attr)
}

/// The settings not made by block `bid`, in order.
pub open spec fn without_block(s: Seq<Setting>, bid: BlockId) -> Seq<Setting>
    decreases s.len(),
{
    if s.len() == 0 {
        s
    } else if s.last().bid == bid {
        without_block(s.drop_last(), bid)
    } else {
        without_block(s.drop_last(), bid).push(s.last())
    }
}

/// Whether the latest value of attribute `attr` of `obj` is `v`.
pub open spec fn holds(s: Seq<Setting>, obj: KeyObject, attr: Seq<char>, v: Seq<char>) -> bool {
    let h = history(s, obj, attr);
    h.len() > 0 && h.last().value == v
}

impl View for Attributes {
    type V = Seq<Setting>;

    closed spec fn view(&self) -> Seq<Setting> {
        self.settings@.map_values(|e: (KeyObject, AttributeName, AttributeValue, BlockId)| setting_of(e))
    }
}

impl Attributes {
    pub fn new() -> (a: Attributes)
        ensures
            a@ == Seq::<Setting>::empty(),
    {
        let a = Attributes { settings: Vec::new() };
        proof {
            assert(a@ =~= Seq::<Setting>::empty());
        }
        a
    }

    /// Sets attribute `attr` of `obj` to `v` on behalf of block `bid`.
    pub fn set_attribute(&mut self, obj: KeyObject, attr: AttributeName, v: AttributeValue, bid: BlockId)
        ensures
            final(self)@ == old(self)@.push(Setting { obj: obj, attr: attr.0@, value: v.0@, bid: bid }),
    {
        let ghost e = (obj, attr, v, bid);
        self.settings.push((obj, attr, v, bid));
        proof {
            assert(self@ =~= old(self)@.push(setting_of(e)));
        }
    }

    /// Forgets every value set by block `bid`.
    pub fn remove_bid(&mut self, bid: BlockId)
        ensures
            final(self)@ == without_block(old(self)@, bid),
    {
        let mut kept: Vec<(KeyObject, AttributeName, AttributeValue, BlockId)> = Vec::new();
        let ghost sv = self@;
        let n = self.settings.len();
        let mut i: usize = 0;
        while i < n
            invariant
                n == self.settings@.len(),
                sv == self@,
                i <= n,
                kept@.map_values(|e: (KeyObject, AttributeName, AttributeValue, BlockId)| setting_of(e))
                    == without_block(sv.take(i as int), bid),
            decreases n - i,
        {
            let ghost k0 = kept@;
            proof {
                assert(sv.take(i + 1).drop_last() =~= sv.take(i as int));
                assert(sv.take(i + 1).last() == setting_of(self.settings@[i as int]));
            }
            if self.settings[i].3.0 != bid.0 {
                let e = (
                    self.settings[i].0,
                    AttributeName(self.settings[i].1.0.clone()),
                    AttributeValue(self.settings[i].2.0.clone()),
                    self.settings[i].3,
                );
                kept.push(e);
                proof {
                    assert(kept@.map_values(
                        |e: (KeyObject, AttributeName, AttributeValue, BlockId)| setting_of(e),
                    ) =~= k0.map_values(
                        |e: (KeyObject, AttributeName, AttributeValue, BlockId)| setting_of(e),
                    ).push(setting_of(self.settings@[i as int])));
                }
            }
            i = i + 1;
        }
        proof {
            assert(sv.take(n as int) =~= sv);
        }
        self.settings = kept;
    }

    /// Whether the latest value of attribute `attr` of `obj` is `v`; false
    /// if the attribute has no value.
    pub fn check(&self, obj: KeyObject, attr: AttributeName, v: AttributeValue) -> (r: bool)
        ensures
            r == holds(self@, obj, attr.0@, v.0@),
    {
        let ghost sv = self@;
        let ghost pred = |e: Setting| e.obj == obj && e.attr == attr.0@;
        let mut i = self.settings.len();
        proof {
            assert(sv.take(i as int) =~= sv);
        }
        while i > 0
            invariant
                i <= self.settings@.len(),
                sv == self@,
                pred == (|e: Setting| e.obj == obj && e.attr == attr.0@),
                history(sv, obj, attr.0@) == sv.take(i as int).filter(pred),
            decreases i,
        {
            let ghost t = sv.take(i as int);
            proof {
                assert(t =~= t.drop_last().push(t.last()));
                t.drop_last().lemma_filter_push(t.last(), pred);
                assert(t.drop_last() =~= sv.take(i - 1));
                assert(t.last() == setting_of(self.settings@[i - 1]));
            }
            let e = &self.settings[i - 1];
            if e.0 == obj && e.1.0 == attr.0 {
                return e.2.0 == v.0;
            }
            i = i - 1;
        }
        false
    }
}

/// The law of attributes: right after a block sets an attribute to a
/// value, the attribute holds that value; and removing a block that set
/// nothing else brings back every attribute's previous value.
pub proof fn law_set_then_check(s: Seq<Setting>, obj: KeyObject, attr: Seq<char>, v: Seq<char>, bid: BlockId)
    requires
        forall|i: int| 0 <= i < s.len() ==> (#[trigger] s[i]).bid != bid,
    ensures
        holds(s.push(Setting { obj: obj, attr: attr, value: v, bid: bid }), obj, attr, v),
        without_block(s.push(Setting { obj: obj, attr: attr, value: v, bid: bid }), bid) == s,
{
    let e = Setting { obj: obj, attr: attr, value: v, bid: bid };
    let pred = |x: Setting| x.obj == obj && x.attr == attr;
    s.lemma_filter_push(e, pred);
    lemma_without_block_none(s, bid);
    assert(s.push(e).drop_last() =~= s);
}

proof fn lemma_without_block_none(s: Seq<Setting>, bid: BlockId)
    requires
        forall|i: int| 0 <= i < s.len() ==> (#[trigger] s[i]).bid != bid,
    ensures
        without_block(s, bid) == s,
    decreases s.len(),
{
    if s.len() > 0 {
        assert(s.drop_last().len() < s.len());
        assert forall|i: int| 0 <= i < s.drop_last().len() implies (#[trigger] s.drop_last()[i]).bid != bid by {
            assert(s[i].bid != bid);
        }
        lemma_without_block_none(s.drop_last(), bid);
        assert(s[s.len() - 1].bid != bid);
        assert(s.drop_last().push(s.last()) =~= s);
    }
}

} // verus!
