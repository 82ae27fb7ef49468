use vstd::prelude::*;
use crate::misc::{SymbolId, TermId, BlockId, Position, ProcessingResult, Quantifier};
use crate::idmap::NameMap;
use crate::text::{chars_of_string, parse_i64, spec_parse_i64, string_of};
use crate::plain::{
    PlainTerm, plain_to_term, plain_ok, maps_ok, scopes_view, functor_for, lemma_maps_ok_extends, reads_as,
    pt_view, lemma_reads_as_extends, lemma_pt_view_args, scope_lookup,
};

verus! {

/// The interpreted functions the prover knows how to evaluate.
#[derive(Copy, Clone, PartialEq, Eq, Structural, Debug)]
pub enum IFunction {
    NotEq,
    Eq,
    Plus,
    Minus,
    Multiply,
    Lt,
    Gt,
    LtEq,
    GtEq,
    Concat,
    Replace,
    Blen,
    BaseToString,
    RemoveFact,
    ReadFileToString,
    Solve,
    ToString,
    Push,
    Last,
    First,
    NotEmpty,
    In,
    NotIn,
    SubsetEq,
    Sort,
}

/// Kind of functor a symbol stands for.
#[derive(Copy, Clone, PartialEq, Eq, Structural, Debug)]
pub enum FunctorType {
    NoFunctor,
    SFunctor,
    IFunctor(IFunction),
}

pub struct Symbol {
    pub uid: usize,
    pub name: String,
    pub f: Option<IFunction>,
    pub position: Position,
}

/// What a symbol is, with its name as characters.
pub struct SymbolV {
    pub uid: usize,
    pub name: Seq<char>,
    pub f: Option<IFunction>,
    pub position: Position,
}

impl View for Symbol {
    type V = SymbolV;

    open spec fn view(&self) -> SymbolV {
        SymbolV { uid: self.uid, name: self.name@, f: self.f, position: self.position }
    }
}

#[derive(Clone, PartialEq, Eq, Hash, Debug)]
pub enum Term {
    AVariable(SymbolId),
    EVariable(SymbolId, BlockId),
    SConstant(SymbolId),
    Bool(bool),
    Integer(i64),
    String(String),
    SFunctor(SymbolId, Vec<TermId>),
    IFunctor(SymbolId, Vec<TermId>),
    List(Vec<TermId>),
}

/// A term with its strings and argument lists as sequences.
pub enum TermV {
    AVariable(SymbolId),
    EVariable(SymbolId, BlockId),
    SConstant(SymbolId),
    Bool(bool),
    Integer(i64),
    String(Seq<char>),
    SFunctor(SymbolId, Seq<TermId>),
    IFunctor(SymbolId, Seq<TermId>),
    List(Seq<TermId>),
}

impl View for Term {
    type V = TermV;

    open spec fn view(&self) -> TermV {
        match self {
            Term::AVariable(s) => TermV::AVariable(*s),
            Term::EVariable(s, b) => TermV::EVariable(*s, *b),
            Term::SConstant(s) => TermV::SConstant(*s),
            Term::Bool(b) => TermV::Bool(*b),
            Term::Integer(i) => TermV::Integer(*i),
            Term::String(s) => TermV::String(s@),
            Term::SFunctor(s, a) => TermV::SFunctor(*s, a@),
            Term::IFunctor(s, a) => TermV::IFunctor(*s, a@),
            Term::List(a) => TermV::List(a@),
        }
    }
}

/// The arguments of a term (empty for a term without arguments).
pub open spec fn args_of(t: TermV) -> Seq<TermId> {
    match t {
        TermV::SFunctor(_, a) => a,
        TermV::IFunctor(_, a) => a,
        TermV::List(a) => a,
        _ => Seq::empty(),
    }
}

/// The symbol a term refers to, if any.
pub open spec fn symbol_of(t: TermV) -> Option<SymbolId> {
    match t {
        TermV::AVariable(s) => Some(s),
        TermV::EVariable(s, _) => Some(s),
        TermV::SConstant(s) => Some(s),
        TermV::SFunctor(s, _) => Some(s),
        TermV::IFunctor(s, _) => Some(s),
        _ => None,
    }
}

/// A term of the base, with the block that added it.
pub struct BTerm {
    pub term: TermId,
    pub bid: BlockId,
    pub deleted: bool,
}

/// The symbol and term tables.
pub struct PSTerms {
    symbols: Vec<Symbol>,
    terms: Vec<Term>,
    indexed: Vec<bool>,
}

/// The contents of the tables: the symbols, the terms, and which terms are
/// found again by their value.
pub struct PSTermsV {
    pub symbols: Seq<SymbolV>,
    pub terms: Seq<TermV>,
    pub indexed: Seq<bool>,
}

impl View for PSTerms {
    type V = PSTermsV;

    closed spec fn view(&self) -> PSTermsV {
        PSTermsV {
            symbols: self.symbols@.map_values(|s: Symbol| s@),
            terms: self.terms@.map_values(|t: Term| t@),
            indexed: self.indexed@,
        }
    }
}

impl PSTermsV {
    pub open spec fn len(self) -> nat {
        self.terms.len()
    }

    /// Whether `t` is a valid term identifier.
    pub open spec fn valid(self, t: TermId) -> bool {
        t.0 < self.terms.len()
    }

    /// The table invariant: each value is indexed at most once, arguments
    /// are created before the terms that use them, and symbols exist.
    pub open spec fn wf(self) -> bool {
        &&& self.terms.len() == self.indexed.len()
        &&& forall|i: int, j: int|
            0 <= i < j < self.terms.len() && self.indexed[i] && self.indexed[j] ==> #[trigger] self.terms[i]
                != #[trigger] self.terms[j]
        &&& forall|i: int, k: int|
            0 <= i < self.terms.len() && 0 <= k < args_of(self.terms[i]).len() ==> (#[trigger] args_of(
                self.terms[i],
            )[k]).0 < i
        &&& forall|i: int|
            0 <= i < self.terms.len() && #[trigger] symbol_of(self.terms[i]) is Some ==> symbol_of(
                self.terms[i],
            ).unwrap().0 < self.symbols.len()
        &&& forall|s: int| 0 <= s < self.symbols.len() ==> (#[trigger] self.symbols[s]).uid == s
    }

    /// The two boolean constants sit at their fixed places.
    pub open spec fn has_booleans(self) -> bool {
        &&& self.terms.len() >= 2
        &&& self.terms[0] == TermV::Bool(false)
        &&& self.terms[1] == TermV::Bool(true)
        &&& self.indexed[0]
        &&& self.indexed[1]
    }

    /// Whether a term can be found again by its value.
    pub open spec fn is_indexed(self, t: TermV) -> bool {
        exists|i: int| 0 <= i < self.terms.len() && self.indexed[i] && self.terms[i] == t
    }

    /// The identifier under which a value is found again.
    pub open spec fn lookup(self, t: TermV) -> Option<TermId> {
        if self.is_indexed(t) {
            Some(
                TermId(
                    (choose|i: int| 0 <= i < self.terms.len() && self.indexed[i] && self.terms[i] == t) as usize,
                ),
            )
        } else {
            None
        }
    }

    /// A term value that may be added to the tables.
    pub open spec fn term_fits(self, t: TermV) -> bool {
        &&& forall|k: int| 0 <= k < args_of(t).len() ==> (#[trigger] args_of(t)[k]).0 < self.terms.len()
        &&& symbol_of(t) is Some ==> symbol_of(t).unwrap().0 < self.symbols.len()
    }

    /// `self` extends `old` by terms only: symbols and earlier terms are kept.
    pub open spec fn extends(self, old: PSTermsV) -> bool {
        &&& old.terms.len() <= self.terms.len()
        &&& self.terms.subrange(0, old.terms.len() as int) == old.terms
        &&& old.symbols.len() <= self.symbols.len()
        &&& self.symbols.subrange(0, old.symbols.len() as int) == old.symbols
    }
}

/// `tid` is the identifier of the value `v` the tables `old` give back
/// when they hold it already (then nothing changes), else a new last term.
pub open spec fn interned(old: PSTermsV, new: PSTermsV, tid: TermId, v: TermV) -> bool {
    &&& old.lookup(v) matches Some(t) ==> tid == t && new == old
    &&& old.lookup(v) is None ==> tid.0 == old.terms.len() && new.terms == old.terms.push(v) && new.indexed
        == old.indexed.push(true)
}

pub proof fn lemma_lookup_unique(p: PSTermsV, t: TermV, i: int)
    requires
        p.wf(),
        0 <= i < p.terms.len(),
        p.indexed[i],
        p.terms[i] == t,
    ensures
        p.lookup(t) == Some(TermId(i as usize)),
{
    let j = choose|j: int| 0 <= j < p.terms.len() && p.indexed[j] && p.terms[j] == t;
    if j < i {
        assert(p.terms[j] != p.terms[i]);
    } else if i < j {
        assert(p.terms[i] != p.terms[j]);
    }
}

/// Whether two terms are equal.
pub fn term_eq(a: &Term, b: &Term) -> (r: bool)
    ensures
        r == (a@ == b@),
{
    match (a, b) {
        (Term::AVariable(x), Term::AVariable(y)) => x.0 == y.0,
        (Term::EVariable(x, bx), Term::EVariable(y, by)) => x.0 == y.0 && bx.0 == by.0,
        (Term::SConstant(x), Term::SConstant(y)) => x.0 == y.0,
        (Term::Bool(x), Term::Bool(y)) => *x == *y,
        (Term::Integer(x), Term::Integer(y)) => *x == *y,
        (Term::String(x), Term::String(y)) => {
            let r = *x == *y;
            r
        },
        (Term::SFunctor(x, xa), Term::SFunctor(y, ya)) => x.0 == y.0 && tids_eq(xa, ya),
        (Term::IFunctor(x, xa), Term::IFunctor(y, ya)) => x.0 == y.0 && tids_eq(xa, ya),
        (Term::List(xa), Term::List(ya)) => tids_eq(xa, ya),
        _ => false,
    }
}

/// Whether two lists of term identifiers are equal.
pub fn tids_eq(a: &Vec<TermId>, b: &Vec<TermId>) -> (r: bool)
    ensures
        r == (a@ == b@),
{
    if a.len() != b.len() {
        return false;
    }
    let mut i: usize = 0;
    while i < a.len()
        invariant
            i <= a@.len(),
            a@.len() == b@.len(),
            forall|j: int| 0 <= j < i ==> a@[j] == b@[j],
        decreases a@.len() - i,
    {
        if a[i].0 != b[i].0 {
            return false;
        }
        i = i + 1;
    }
    proof {
        assert(a@ =~= b@);
    }
    true
}

/// A copy of a list of term identifiers.
pub fn copy_tids(a: &Vec<TermId>) -> (r: Vec<TermId>)
    ensures
        r@ == a@,
{
    let mut r: Vec<TermId> = Vec::new();
    let mut i: usize = 0;
    while i < a.len()
        invariant
            i <= a@.len(),
            r@ == a@.take(i as int),
        decreases a@.len() - i,
    {
        r.push(a[i]);
        i = i + 1;
        proof {
            assert(r@ =~= a@.take(i as int));
        }
    }
    proof {
        assert(a@.take(i as int) =~= a@);
    }
    r
}

impl Term {
    /// A copy of the term.
    pub fn copy(&self) -> (r: Term)
        ensures
            r@ == self@,
    {
        match self {
            Term::AVariable(s) => Term::AVariable(*s),
            Term::EVariable(s, b) => Term::EVariable(*s, *b),
            Term::SConstant(s) => Term::SConstant(*s),
            Term::Bool(b) => Term::Bool(*b),
            Term::Integer(i) => Term::Integer(*i),
            Term::String(s) => Term::String(s.clone()),
            Term::SFunctor(s, a) => Term::SFunctor(*s, copy_tids(a)),
            Term::IFunctor(s, a) => Term::IFunctor(*s, copy_tids(a)),
            Term::List(a) => Term::List(copy_tids(a)),
        }
    }
}

pub open spec fn true_chars() -> Seq<char> {
    seq!['t', 'r', 'u', 'e']
}

pub open spec fn false_chars() -> Seq<char> {
    seq!['f', 'a', 'l', 's', 'e']
}

/// Whether a constant's text is a quoted string.
pub open spec fn is_quoted(s: Seq<char>) -> bool {
    s.len() >= 2 && s[0] == '"' && s[s.len() - 1] == '"'
}

impl PSTerms {
    /// Tables holding only the two boolean constants.
    pub fn new() -> (p: PSTerms)
        ensures
            p@.wf(),
            p@.has_booleans(),
            p@.terms.len() == 2,
            p@.symbols.len() == 0,
    {
        let mut terms: Vec<Term> = Vec::new();
        terms.push(Term::Bool(false));
        terms.push(Term::Bool(true));
        let mut indexed: Vec<bool> = Vec::new();
        indexed.push(true);
        indexed.push(true);
        let p = PSTerms { symbols: Vec::new(), terms, indexed };
        proof {
            assert(p@.terms[0] == TermV::Bool(false));
            assert(p@.terms[1] == TermV::Bool(true));
        }
        p
    }

    /// Number of terms.
    pub fn len(&self) -> (n: usize)
        ensures
            n == self@.terms.len(),
    {
        self.terms.len()
    }

    /// Number of symbols.
    pub fn symbols_len(&self) -> (n: usize)
        ensures
            n == self@.symbols.len(),
    {
        self.symbols.len()
    }

    /// Registers an interpreted function symbol.
    pub fn add_ifunction(&mut self, name: String, f: Option<IFunction>, position: Position) -> (sid:
        SymbolId)
        requires
            old(self)@.wf(),
        ensures
            final(self)@.wf(),
            sid.0 == old(self)@.symbols.len(),
            final(self)@.symbols == old(self)@.symbols.push(
                SymbolV { uid: sid.0, name: name@, f: f, position: position },
            ),
            final(self)@.terms == old(self)@.terms,
            final(self)@.indexed == old(self)@.indexed,
    {
        let sid = self.symbols.len();
        self.symbols.push(Symbol { uid: sid, name: name, f: f, position: position });
        proof {
            assert(self@.symbols =~= old(self)@.symbols.push(
                SymbolV { uid: sid, name: name@, f: f, position: position },
            ));
            assert(self@.terms =~= old(self)@.terms);
        }
        SymbolId(sid)
    }

    /// The symbol `sid`.
    pub fn get_symbol(&self, sid: &SymbolId) -> (s: &Symbol)
        requires
            sid.0 < self@.symbols.len(),
        ensures
            s@ == self@.symbols[sid.0 as int],
    {
        &self.symbols[sid.0]
    }

    /// A copy of the term `tid`.
    pub fn get_term(&self, tid: &TermId) -> (t: Term)
        requires
            tid.0 < self@.terms.len(),
        ensures
            t@ == self@.terms[tid.0 as int],
    {
        self.terms[tid.0].copy()
    }

    /// The term `tid`.
    pub fn term_ref(&self, tid: &TermId) -> (t: &Term)
        requires
            tid.0 < self@.terms.len(),
        ensures
            t@ == self@.terms[tid.0 as int],
    {
        &self.terms[tid.0]
    }

    /// Whether `tid` is the constant `false`.
    pub fn is_false(&self, tid: &TermId) -> (r: bool)
        requires
            tid.0 < self@.terms.len(),
        ensures
            r == (self@.terms[tid.0 as int] == TermV::Bool(false)),
    {
        match &self.terms[tid.0] {
            Term::Bool(b) => !*b,
            _ => false,
        }
    }

    /// The truth value of a boolean term.
    pub fn check_value(&self, tid: &TermId) -> (r: bool)
        requires
            tid.0 < self@.terms.len(),
            self@.terms[tid.0 as int] is Bool,
        ensures
            self@.terms[tid.0 as int] == TermV::Bool(r),
    {
        match &self.terms[tid.0] {
            Term::Bool(b) => *b,
            _ => {
                proof {
                    assert(false);
                }
                false
            },
        }
    }

    /// Pushes a term and marks whether it is found again by its value.
    fn push_term(&mut self, t: Term, idx: bool) -> (tid: TermId)
        requires
            old(self)@.wf(),
            old(self)@.term_fits(t@),
            idx ==> !old(self)@.is_indexed(t@),
        ensures
            final(self)@.wf(),
            tid.0 == old(self)@.terms.len(),
            final(self)@.terms == old(self)@.terms.push(t@),
            final(self)@.indexed == old(self)@.indexed.push(idx),
            final(self)@.symbols == old(self)@.symbols,
    {
        let ghost tv = t@;
        let n = self.terms.len();
        self.terms.push(t);
        self.indexed.push(idx);
        proof {
            let o = old(self)@;
            let p = self@;
            assert(p.terms =~= o.terms.push(tv));
            assert(p.symbols =~= o.symbols);
            assert forall|i: int, j: int|
                0 <= i < j < p.terms.len() && p.indexed[i] && p.indexed[j] implies #[trigger] p.terms[i]
                != #[trigger] p.terms[j] by {
                if j == n {
                    if p.terms[i] == p.terms[j] {
                        assert(o.indexed[i] && o.terms[i] == tv);
                    }
                } else {
                    assert(o.terms[i] != o.terms[j]);
                }
            }
            assert forall|i: int, k: int|
                0 <= i < p.terms.len() && 0 <= k < args_of(p.terms[i]).len() implies (#[trigger] args_of(
                p.terms[i],
            )[k]).0 < i by {
                if i == n {
                    assert(args_of(tv)[k].0 < o.terms.len());
                } else {
                    assert(args_of(o.terms[i])[k].0 < i);
                }
            }
            assert forall|i: int|
                0 <= i < p.terms.len() && #[trigger] symbol_of(p.terms[i]) is Some implies symbol_of(
                p.terms[i],
            ).unwrap().0 < p.symbols.len() by {
                if i < n {
                    assert(symbol_of(o.terms[i]) is Some);
                }
            }
        }
        TermId(n)
    }

    /// The identifier of the indexed term equal to `t`, if any.
    fn find_indexed(&self, t: &Term) -> (r: Option<usize>)
        requires
            self@.wf(),
        ensures
            r == (match self@.lookup(t@) {
                Some(tid) => Some(tid.0),
                None => None::<usize>,
            }),
    {
        let mut i: usize = 0;
        while i < self.terms.len()
            invariant
                self@.wf(),
                i <= self@.terms.len(),
                forall|j: int| 0 <= j < i ==> !(self@.indexed[j] && #[trigger] self@.terms[j] == t@),
            decreases self@.terms.len() - i,
        {
            if self.indexed[i] && term_eq(&self.terms[i], t) {
                proof {
                    lemma_lookup_unique(self@, t@, i as int);
                }
                return Some(i);
            }
            i = i + 1;
        }
        proof {
            if self@.is_indexed(t@) {
                let j = choose|j: int| 0 <= j < self@.terms.len() && self@.indexed[j] && self@.terms[j] == t@;
                assert(!(self@.indexed[j] && self@.terms[j] == t@));
            }
        }
        None
    }

    /// The identifier of the term equal to `term`, added if not yet indexed.
    pub fn get_tid(&mut self, term: Term) -> (r: ProcessingResult)
        requires
            old(self)@.wf(),
            old(self)@.term_fits(term@),
        ensures
            final(self)@.wf(),
            final(self)@.symbols == old(self)@.symbols,
            match r {
                ProcessingResult::Existing(tid) => {
                    &&& old(self)@.lookup(term@) == Some(tid)
                    &&& final(self)@ == old(self)@
                },
                ProcessingResult::New(tid) => {
                    &&& old(self)@.lookup(term@) is None
                    &&& tid.0 == old(self)@.terms.len()
                    &&& final(self)@.terms == old(self)@.terms.push(term@)
                    &&& final(self)@.indexed == old(self)@.indexed.push(true)
                },
                ProcessingResult::Error => false,
            },
    {
        match self.find_indexed(&term) {
            Some(i) => ProcessingResult::Existing(TermId(i)),
            None => {
                let tid = self.push_term(term, true);
                ProcessingResult::New(tid)
            },
        }
    }

    /// Adds a fresh instance of the existential variable `e` for block `bid`.
    pub fn new_e(&mut self, e: TermId, bid: BlockId) -> (tid: TermId)
        requires
            old(self)@.wf(),
            e.0 < old(self)@.terms.len(),
            old(self)@.terms[e.0 as int] is EVariable,
        ensures
            final(self)@.wf(),
            tid.0 == old(self)@.terms.len(),
            final(self)@.terms == old(self)@.terms.push(
                TermV::EVariable(symbol_of(old(self)@.terms[e.0 as int]).unwrap(), bid),
            ),
            final(self)@.indexed == old(self)@.indexed.push(false),
            final(self)@.symbols == old(self)@.symbols,
    {
        let sid = match &self.terms[e.0] {
            Term::EVariable(sid, _) => *sid,
            _ => {
                proof {
                    assert(false);
                }
                SymbolId(0)
            },
        };
        proof {
            assert(symbol_of(self@.terms[e.0 as int]) is Some);
        }
        self.push_term(Term::EVariable(sid, bid), false)
    }

    /// A term whose symbol is fresh is not indexed yet.
    proof fn lemma_fresh_symbol_not_indexed(p: PSTermsV, t: TermV)
        requires
            p.wf(),
            symbol_of(t) is Some,
            symbol_of(t).unwrap().0 == p.symbols.len(),
        ensures
            !p.is_indexed(t),
    {
        if p.is_indexed(t) {
            let j = choose|j: int| 0 <= j < p.terms.len() && p.indexed[j] && p.terms[j] == t;
            assert(symbol_of(p.terms[j]) is Some);
        }
    }

    /// Tables extend themselves.
    pub proof fn lemma_extends_refl(p: PSTermsV)
        ensures
            p.extends(p),
    {
        assert(p.terms.subrange(0, p.terms.len() as int) =~= p.terms);
        assert(p.symbols.subrange(0, p.symbols.len() as int) =~= p.symbols);
    }

    /// Adds a new variable bound by quantifier `q`.
    pub fn add_plain_var(&mut self, v: String, q: Quantifier) -> (tid: TermId)
        requires
            old(self)@.wf(),
        ensures
            final(self)@.wf(),
            final(self)@.extends(old(self)@),
            final(self)@.symbols == old(self)@.symbols.push(
                SymbolV {
                    uid: old(self)@.symbols.len() as usize,
                    name: v@,
                    f: None,
                    position: Position::Classic,
                },
            ),
            tid.0 == old(self)@.terms.len(),
            final(self)@.terms == old(self)@.terms.push(
                match q {
                    Quantifier::Forall => TermV::AVariable(SymbolId(old(self)@.symbols.len() as usize)),
                    Quantifier::Exists => TermV::EVariable(
                        SymbolId(old(self)@.symbols.len() as usize),
                        BlockId(0),
                    ),
                },
            ),
            final(self)@.indexed == old(self)@.indexed.push(true),
    {
        let sid = self.add_ifunction(v, None, Position::Classic);
        let term = match q {
            Quantifier::Forall => Term::AVariable(sid),
            Quantifier::Exists => Term::EVariable(sid, BlockId(0)),
        };
        proof {
            Self::lemma_fresh_symbol_not_indexed(old(self)@, term@);
        }
        let tid = self.push_term(term, true);
        proof {
            assert(self@.terms.subrange(0, old(self)@.terms.len() as int) =~= old(self)@.terms);
            assert(self@.symbols.subrange(0, old(self)@.symbols.len() as int) =~= old(self)@.symbols);
        }
        tid
    }

    /// The identifier of `term`, added and indexed if not yet there.
    fn intern(&mut self, term: Term) -> (tid: TermId)
        requires
            old(self)@.wf(),
            old(self)@.term_fits(term@),
        ensures
            final(self)@.wf(),
            final(self)@.extends(old(self)@),
            final(self)@.symbols == old(self)@.symbols,
            tid.0 < final(self)@.terms.len(),
            final(self)@.terms[tid.0 as int] == term@,
            old(self)@.lookup(term@) matches Some(t) ==> tid == t && final(self)@ == old(self)@,
            old(self)@.lookup(term@) is None ==> {
                &&& tid.0 == old(self)@.terms.len()
                &&& final(self)@.terms == old(self)@.terms.push(term@)
                &&& final(self)@.indexed == old(self)@.indexed.push(true)
            },
    {
        let n0 = self.terms.len();
        let r = self.get_tid(term);
        proof {
            assert(self@.terms.subrange(0, old(self)@.terms.len() as int) =~= old(self)@.terms);
            assert(self@.symbols.subrange(0, old(self)@.symbols.len() as int) =~= old(self)@.symbols);
            if let ProcessingResult::Existing(t) = r {
                let o = old(self)@;
                let i = choose|i: int| 0 <= i < o.terms.len() && o.indexed[i] && o.terms[i] == term@;
                assert(o.terms.len() == n0);
                lemma_lookup_unique(o, term@, i);
                assert(t.0 == i);
            }
        }
        r.unwrap()
    }

    /// The term for a constant written `s`: an integer, `true`, `false`, a
    /// quoted string, or a named constant (found in `smap`, or added there).
    pub fn add_plain_const(&mut self, s: String, smap: &mut NameMap) -> (tid: TermId)
        requires
            old(self)@.wf(),
            old(self)@.has_booleans(),
            s@ != seq!['"'],
            forall|k: Seq<char>| #[trigger] old(smap)@.contains_key(k) ==> old(smap)@[k] < old(self)@.terms.len(),
        ensures
            final(self)@.wf(),
            final(self)@.has_booleans(),
            final(self)@.extends(old(self)@),
            tid.0 < final(self)@.terms.len(),
            forall|k: Seq<char>| #[trigger] final(smap)@.contains_key(k) ==> final(smap)@[k] < final(self)@.terms.len(),
            spec_parse_i64(s@) matches Some(n) ==> {
                &&& final(self)@.terms[tid.0 as int] == TermV::Integer(n)
                &&& interned(old(self)@, final(self)@, tid, TermV::Integer(n))
                &&& final(self)@.symbols == old(self)@.symbols
                &&& final(smap)@ == old(smap)@
            },
            spec_parse_i64(s@) is None && s@ == true_chars() ==> tid == TermId(1) && final(self)@ == old(self)@
                && final(smap)@ == old(smap)@,
            spec_parse_i64(s@) is None && s@ == false_chars() ==> tid == TermId(0) && final(self)@ == old(self)@
                && final(smap)@ == old(smap)@,
            spec_parse_i64(s@) is None && s@ != true_chars() && s@ != false_chars() && is_quoted(s@) ==> {
                &&& final(self)@.terms[tid.0 as int] == TermV::String(s@.subrange(1, s@.len() - 1))
                &&& interned(old(self)@, final(self)@, tid, TermV::String(s@.subrange(1, s@.len() - 1)))
                &&& final(self)@.symbols == old(self)@.symbols
                &&& final(smap)@ == old(smap)@
            },
            spec_parse_i64(s@) is None && s@ != true_chars() && s@ != false_chars() && !is_quoted(s@)
                && old(smap)@.contains_key(s@) ==> tid.0 == old(smap)@[s@] && final(self)@ == old(self)@
                && final(smap)@ == old(smap)@,
            spec_parse_i64(s@) is None && s@ != true_chars() && s@ != false_chars() && !is_quoted(s@)
                && !old(smap)@.contains_key(s@) ==> {
                &&& final(self)@.symbols == old(self)@.symbols.push(
                    SymbolV {
                        uid: old(self)@.symbols.len() as usize,
                        name: s@,
                        f: None,
                        position: Position::Classic,
                    },
                )
                &&& tid.0 == old(self)@.terms.len()
                &&& final(self)@.terms == old(self)@.terms.push(
                    TermV::SConstant(SymbolId(old(self)@.symbols.len() as usize)),
                )
                &&& final(smap)@ == old(smap)@.insert(s@, tid.0)
            },
    {
        let cs = chars_of_string(&s);
        if let Some(n) = parse_i64(&cs) {
            return self.intern(Term::Integer(n));
        }
        let n = cs.len();
        if n == 4 && cs[0] == 't' && cs[1] == 'r' && cs[2] == 'u' && cs[3] == 'e' {
            proof {
                assert(s@ =~= true_chars());
                Self::lemma_extends_refl(self@);
            }
            return TermId(1);
        }
        if n == 5 && cs[0] == 'f' && cs[1] == 'a' && cs[2] == 'l' && cs[3] == 's' && cs[4] == 'e' {
            proof {
                assert(s@ =~= false_chars());
                Self::lemma_extends_refl(self@);
            }
            return TermId(0);
        }
        proof {
            if s@ == true_chars() {
                assert(cs@[0] == 't' && cs@[1] == 'r' && cs@[2] == 'u' && cs@[3] == 'e');
            }
            if s@ == false_chars() {
                assert(cs@[0] == 'f' && cs@[1] == 'a' && cs@[2] == 'l' && cs@[3] == 's' && cs@[4] == 'e');
            }
        }
        if n >= 1 && cs[0] == '"' && cs[n - 1] == '"' {
            proof {
                if n == 1 {
                    assert(s@ =~= seq!['"']);
                }
            }
            let mut inner: Vec<char> = Vec::new();
            let mut i: usize = 1;
            while i < n - 1
                invariant
                    n == cs@.len(),
                    n >= 2,
                    1 <= i <= n - 1,
                    inner@ == cs@.subrange(1, i as int),
                decreases n - 1 - i,
            {
                inner.push(cs[i]);
                i = i + 1;
                proof {
                    assert(inner@ =~= cs@.subrange(1, i as int));
                }
            }
            let st = string_of(&inner);
            return self.intern(Term::String(st));
        }
        if let Some(t) = smap.get(&s) {
            proof {
                Self::lemma_extends_refl(self@);
            }
            return TermId(t);
        }
        let ghost name = s@;
        let sid = self.add_ifunction(s.clone(), None, Position::Classic);
        let term = Term::SConstant(sid);
        proof {
            Self::lemma_fresh_symbol_not_indexed(old(self)@, term@);
        }
        let tid = self.push_term(term, true);
        smap.insert(s, tid.0);
        proof {
            assert(self@.terms.subrange(0, old(self)@.terms.len() as int) =~= old(self)@.terms);
            assert(self@.symbols.subrange(0, old(self)@.symbols.len() as int) =~= old(self)@.symbols);
        }
        tid
    }

    /// Extension of the tables is transitive.
    pub proof fn lemma_extends_trans(p: PSTermsV, q: PSTermsV, r: PSTermsV)
        requires
            q.extends(p),
            r.extends(q),
        ensures
            r.extends(p),
    {
        assert(r.terms.subrange(0, p.terms.len() as int) =~= q.terms.subrange(0, p.terms.len() as int));
        assert(r.symbols.subrange(0, p.symbols.len() as int) =~= q.symbols.subrange(
            0,
            p.symbols.len() as int,
        ));
    }

    /// The functor term for `pt`, its symbol found in `fmap` or added there.
    pub fn add_plain_functor(
        &mut self,
        pt: &PlainTerm,
        vstack: &Vec<NameMap>,
        smap: &mut NameMap,
        fmap: &mut NameMap,
    ) -> (tid: TermId)
        requires
            old(self)@.wf(),
            old(self)@.has_booleans(),
            plain_ok(pt),
            maps_ok(old(self)@, scopes_view(vstack@), old(smap)@, old(fmap)@),
        ensures
            final(self)@.wf(),
            final(self)@.has_booleans(),
            final(self)@.extends(old(self)@),
            maps_ok(final(self)@, scopes_view(vstack@), final(smap)@, final(fmap)@),
            tid.0 < final(self)@.terms.len(),
            functor_for(final(self)@, pt, final(self)@.terms[tid.0 as int]),
            final(self)@.lookup(final(self)@.terms[tid.0 as int]) == Some(tid),
            old(fmap)@.contains_key(pt.symbol@) ==> symbol_of(final(self)@.terms[tid.0 as int])
                == Some(SymbolId(old(fmap)@[pt.symbol@])),
            pt.complex && scope_lookup(scopes_view(vstack@), pt.symbol@) is None ==> reads_as(
                final(self)@,
                tid.0 as int,
                pt_view(*pt),
                scopes_view(vstack@),
            ),
        decreases pt, 0int,
    {
        let ghost p0 = self@;
        let sid = match fmap.get(&pt.symbol) {
            Some(s) => {
                proof {
                    Self::lemma_extends_refl(self@);
                }
                SymbolId(s)
            },
            None => {
                let s = self.add_ifunction(pt.symbol.clone(), None, pt.position);
                fmap.insert(pt.symbol.clone(), s.0);
                proof {
                    assert(self@.terms.subrange(0, p0.terms.len() as int) =~= p0.terms);
                    assert(self@.symbols.subrange(0, p0.symbols.len() as int) =~= p0.symbols);
                    lemma_maps_ok_extends(p0, self@, scopes_view(vstack@), smap@, old(fmap)@);
                }
                s
            },
        };
        let is_i = self.symbols[sid.0].f.is_some();
        let ghost sym = self@.symbols[sid.0 as int];
        let mut args: Vec<TermId> = Vec::new();
        let mut i: usize = 0;
        while i < pt.args.len()
            invariant
                self@.wf(),
                self@.has_booleans(),
                self@.extends(old(self)@),
                plain_ok(pt),
                maps_ok(self@, scopes_view(vstack@), smap@, fmap@),
                i <= pt.args@.len(),
                args@.len() == i,
                forall|k: int| 0 <= k < i ==> (#[trigger] args@[k]).0 < self@.terms.len(),
                sid.0 < self@.symbols.len(),
                self@.symbols[sid.0 as int] == sym,
                sym.name == pt.symbol@,
                is_i == sym.f is Some,
                old(fmap)@.contains_key(pt.symbol@) ==> sid.0 == old(fmap)@[pt.symbol@],
                forall|k: int|
                    0 <= k < i ==> reads_as(
                        self@,
                        (#[trigger] args@[k]).0 as int,
                        pt_view(pt.args@[k]),
                        scopes_view(vstack@),
                    ),
            decreases pt.args@.len() - i,
        {
            let ghost pb = self@;
            let ghost ab = args@;
            assert(plain_ok(&pt.args@[i as int]));
            let a = plain_to_term(&pt.args[i], self, vstack, smap, fmap);
            args.push(a);
            proof {
                Self::lemma_extends_trans(old(self)@, pb, self@);
                assert(self@.symbols.subrange(0, pb.symbols.len() as int)[sid.0 as int] == pb.symbols[sid.0 as int]);
                assert forall|k: int| 0 <= k < i + 1 implies reads_as(
                    self@,
                    (#[trigger] args@[k]).0 as int,
                    pt_view(pt.args@[k]),
                    scopes_view(vstack@),
                ) by {
                    if k < i {
                        assert(args@[k] == ab[k]);
                        lemma_reads_as_extends(pb, self@, ab[k].0 as int, pt_view(pt.args@[k]), scopes_view(vstack@));
                    }
                }
            }
            i = i + 1;
        }
        let term = if is_i {
            Term::IFunctor(sid, args)
        } else {
            Term::SFunctor(sid, args)
        };
        let ghost p1 = self@;
        let ghost tv = term@;
        let tid = self.intern(term);
        proof {
            if p1.lookup(tv) is None {
                lemma_lookup_unique(self@, tv, tid.0 as int);
            }
            Self::lemma_extends_trans(old(self)@, p1, self@);
            lemma_maps_ok_extends(p1, self@, scopes_view(vstack@), smap@, fmap@);
            assert(self@.symbols.subrange(0, p1.symbols.len() as int)[sid.0 as int] == p1.symbols[sid.0 as int]);
            if pt.complex && scope_lookup(scopes_view(vstack@), pt.symbol@) is None {
                let ptv = pt_view(*pt);
                lemma_pt_view_args(*pt);
                assert(args_of(self@.terms[tid.0 as int]) == args@);
                assert forall|k: int| 0 <= k < ptv.args.len() implies reads_as(
                    self@,
                    args_of(self@.terms[tid.0 as int])[k].0 as int,
                    #[trigger] ptv.args[k],
                    scopes_view(vstack@),
                ) by {
                    assert(ptv.args[k] == pt_view(pt.args@[k]));
                    assert(reads_as(p1, args@[k].0 as int, pt_view(pt.args@[k]), scopes_view(vstack@)));
                    lemma_reads_as_extends(p1, self@, args@[k].0 as int, pt_view(pt.args@[k]), scopes_view(vstack@));
                }
            }
        }
        tid
    }

    /// Removes the terms from position `car` on, and forgets the index of
    /// any kept term equal to a removed one.
    pub fn back_to(&mut self, car: usize)
        requires
            old(self)@.wf(),
        ensures
            final(self)@.wf(),
            final(self)@.symbols == old(self)@.symbols,
            final(self)@.terms == old(self)@.terms.take(
                if car < old(self)@.terms.len() {
                    car as int
                } else {
                    old(self)@.terms.len() as int
                },
            ),
            forall|j: int|
                0 <= j < final(self)@.terms.len() ==> #[trigger] final(self)@.indexed[j] == (old(
                    self,
                )@.indexed[j] && forall|p: int|
                    car <= p < old(self)@.terms.len() ==> old(self)@.terms[p] != old(self)@.terms[j]),
    {
        let ghost o = self@;
        while self.terms.len() > car
            invariant
                self@.wf(),
                self@.symbols == o.symbols,
                self@.terms.len() <= o.terms.len(),
                car <= self@.terms.len() || self@.terms.len() == o.terms.len(),
                self@.terms == o.terms.take(self@.terms.len() as int),
                forall|j: int|
                    0 <= j < self@.terms.len() ==> #[trigger] self@.indexed[j] == (o.indexed[j]
                        && forall|p: int|
                        self@.terms.len() <= p < o.terms.len() ==> o.terms[p] != o.terms[j]),
            decreases self@.terms.len(),
        {
            let ghost before = self@;
            let t = self.terms.pop().unwrap();
            self.indexed.pop();
            let n = self.terms.len();
            let mut j: usize = 0;
            while j < n
                invariant
                    n == self.terms@.len(),
                    n == self.indexed@.len(),
                    j <= n,
                    self@.terms == before.terms.take(n as int),
                    self@.symbols == before.symbols,
                    before.terms[n as int] == t@,
                    before.terms.len() == n + 1,
                    before.indexed.len() == n + 1,
                    forall|l: int|
                        0 <= l < n ==> #[trigger] self@.indexed[l] == (before.indexed[l] && (l < j
                            ==> before.terms[l] != t@)),
                decreases n - j,
            {
                proof {
                    assert(self@.terms[j as int] == self.terms@[j as int]@);
                    assert(before.terms[j as int] == self@.terms[j as int]);
                }
                let ghost ind0 = self@.indexed;
                let ij = self.indexed[j];
                let eq = term_eq(&self.terms[j], &t);
                if ij && eq {
                    self.indexed.set(j, false);
                }
                proof {
                    assert(self@.terms == before.terms.take(n as int));
                    assert forall|l: int| 0 <= l < n implies #[trigger] self@.indexed[l] == (
                    before.indexed[l] && (l < j + 1 ==> before.terms[l] != t@)) by {
                        if l != j {
                            assert(self@.indexed[l] == ind0[l]);
                        }
                    }
                }
                j = j + 1;
            }
            proof {
                let p = self@;
                assert forall|i: int, k: int|
                    0 <= i < p.terms.len() && 0 <= k < args_of(p.terms[i]).len() implies (
                    #[trigger] args_of(p.terms[i])[k]).0 < i by {
                    assert(p.terms[i] == before.terms[i]);
                }
                assert forall|i: int|
                    0 <= i < p.terms.len() && #[trigger] symbol_of(p.terms[i]) is Some implies symbol_of(
                    p.terms[i],
                ).unwrap().0 < p.symbols.len() by {
                    assert(p.terms[i] == before.terms[i]);
                }
                assert forall|i: int, j2: int|
                    0 <= i < j2 < p.terms.len() && p.indexed[i] && p.indexed[j2] implies #[trigger] p.terms[i]
                    != #[trigger] p.terms[j2] by {
                    assert(before.terms[i] != before.terms[j2]);
                }
                assert(self@.terms =~= o.terms.take(self@.terms.len() as int));
                assert forall|l: int| 0 <= l < p.terms.len() implies #[trigger] p.indexed[l] == (
                o.indexed[l] && forall|q: int|
                    p.terms.len() <= q < o.terms.len() ==> o.terms[q] != o.terms[l]) by {
                    assert(before.terms[n as int] == o.terms[n as int]);
                    if p.indexed[l] {
                        assert forall|q: int| p.terms.len() <= q < o.terms.len() implies o.terms[q]
                            != o.terms[l] by {
                            if q > n {
                                assert(before.indexed[l]);
                            }
                        }
                    }
                }
            }
        }
        proof {
            if car >= o.terms.len() {
                assert(self@.terms =~= o.terms.take(o.terms.len() as int));
            }
        }
    }
}

impl PSTerms {
    /// Whether no term from place `car` on is a boolean.
    pub fn no_bools_from(&self, car: usize) -> (r: bool)
        ensures
            r == (forall|q: int| car <= q < self@.terms.len() ==> !(#[trigger] self@.terms[q] is Bool)),
    {
        let mut q = car;
        while q < self.terms.len()
            invariant
                car <= q,
                forall|j: int| car <= j < q && j < self@.terms.len() ==> !(#[trigger] self@.terms[j] is Bool),
            decreases self@.terms.len() - q,
        {
            match &self.terms[q] {
                Term::Bool(_) => {
                    proof {
                        assert(self@.terms[q as int] == self.terms@[q as int]@);
                    }
                    return false;
                },
                _ => {
                    proof {
                        assert(self@.terms[q as int] == self.terms@[q as int]@);
                    }
                },
            }
            q = q + 1;
        }
        true
    }
}

/// The list of symbols: each one's name, `.`, its number, and a new line.
pub open spec fn symbols_chars(syms: Seq<SymbolV>) -> Seq<char>
    decreases syms.len(),
{
    if syms.len() == 0 {
        Seq::empty()
    } else {
        symbols_chars(syms.drop_last()) + syms.last().name + seq!['.'] + crate::render::nat_chars(syms.last().uid as nat)
            + seq!['\n']
    }
}

impl PSTerms {
    /// The text listing the symbols (see [`symbols_chars`]).
    pub fn symbols_text(&self) -> (s: String)
        ensures
            s@ == symbols_chars(self@.symbols),
    {
        let mut out: Vec<char> = Vec::new();
        let mut i: usize = 0;
        while i < self.symbols.len()
            invariant
                i <= self@.symbols.len(),
                out@ == symbols_chars(self@.symbols.take(i as int)),
            decreases self@.symbols.len() - i,
        {
            let name = chars_of_string(&self.symbols[i].name);
            crate::render::push_all(&mut out, &name);
            out.push('.');
            crate::render::push_nat_chars(&mut out, self.symbols[i].uid);
            out.push('\n');
            proof {
                let t = self@.symbols.take(i + 1);
                assert(t.drop_last() =~= self@.symbols.take(i as int));
                assert(t.last() == self.symbols@[i as int]@);
                assert(out@ =~= symbols_chars(t));
            }
            i = i + 1;
        }
        proof {
            assert(self@.symbols.take(i as int) =~= self@.symbols);
        }
        string_of(&out)
    }
}

} // verus!
