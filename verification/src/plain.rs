use vstd::prelude::*;
use crate::misc::{Position, Quantifier, TermId, TqfId, SymbolId, BlockId};
use crate::idmap::NameMap;
use crate::term::{PSTerms, PSTermsV, TermV, SymbolV, symbol_of, args_of, true_chars, false_chars, is_quoted};
use crate::question::Tqf;
use crate::text::{chars_of_string, spec_parse_i64};

verus! {

pub struct PlainTerm {
    pub symbol: String,
    pub args: Vec<PlainTerm>,
    pub position: Position,
    pub complex: bool,
}

impl PlainTerm {
    /// A term written in the classic way, `symbol` or `symbol(args)`.
    pub fn new(symbol: String, args: Vec<PlainTerm>, complex: bool) -> (pt: PlainTerm)
        ensures
            pt.symbol == symbol,
            pt.args == args,
            pt.position == Position::Classic,
            pt.complex == complex,
    {
        PlainTerm { symbol: symbol, args: args, position: Position::Classic, complex: complex }
    }

    /// A term written with an infix operator.
    pub fn new_infix(symbol: String, args: Vec<PlainTerm>) -> (pt: PlainTerm)
        ensures
            pt.symbol == symbol,
            pt.args == args,
            pt.position == Position::Infix,
            pt.complex,
    {
        PlainTerm { symbol: symbol, args: args, position: Position::Infix, complex: true }
    }
}

pub struct PlainFormula {
    pub quantifier: String,
    pub vars: Vec<PlainTerm>,
    pub conjunct: Vec<PlainTerm>,
    pub commands: Vec<PlainTerm>,
    pub next: Vec<PlainFormula>,
}

impl PlainFormula {
    pub fn new(
        q: String,
        vars: Vec<PlainTerm>,
        conj: Vec<PlainTerm>,
        commands: Vec<PlainTerm>,
        next: Vec<PlainFormula>,
    ) -> (pf: PlainFormula)
        ensures
            pf.quantifier == q,
            pf.vars == vars,
            pf.conjunct == conj,
            pf.commands == commands,
            pf.next == next,
    {
        PlainFormula { quantifier: q, vars: vars, conjunct: conj, commands: commands, next: next }
    }
}

/// A term as a mathematical value: its symbol, its arguments, how it is
/// written, and whether it was written with brackets or an operator.
pub struct PTermV {
    pub symbol: Seq<char>,
    pub args: Seq<PTermV>,
    pub position: Position,
    pub complex: bool,
}

/// A formula as a mathematical value.
pub struct PFormulaV {
    pub quantifier: Seq<char>,
    pub vars: Seq<PTermV>,
    pub conjunct: Seq<PTermV>,
    pub commands: Seq<PTermV>,
    pub next: Seq<PFormulaV>,
}

/// The value of a term.
pub open spec fn pt_view(t: PlainTerm) -> PTermV
    decreases t,
{
    PTermV {
        symbol: t.symbol@,
        args: Seq::new(
            t.args@.len(),
            |i: int|
                if 0 <= i < t.args@.len() {
                    pt_view(t.args@[i])
                } else {
                    leaf_v(Seq::empty())
                },
        ),
        position: t.position,
        complex: t.complex,
    }
}

/// The values of a list of terms.
pub open spec fn pts_view(ts: Seq<PlainTerm>) -> Seq<PTermV> {
    Seq::new(ts.len(), |i: int| pt_view(ts[i]))
}

/// The value of a formula tree.
pub open spec fn pf_view(f: PlainFormula) -> PFormulaV
    decreases f,
{
    PFormulaV {
        quantifier: f.quantifier@,
        vars: pts_view(f.vars@),
        conjunct: pts_view(f.conjunct@),
        commands: pts_view(f.commands@),
        next: Seq::new(
            f.next@.len(),
            |i: int|
                if 0 <= i < f.next@.len() {
                    pf_view(f.next@[i])
                } else {
                    PFormulaV {
                        quantifier: Seq::empty(),
                        vars: Seq::empty(),
                        conjunct: Seq::empty(),
                        commands: Seq::empty(),
                        next: Seq::empty(),
                    }
                },
        ),
    }
}

/// The values of a list of formulas.
pub open spec fn pfs_view(fs: Seq<PlainFormula>) -> Seq<PFormulaV> {
    Seq::new(fs.len(), |i: int| pf_view(fs[i]))
}

/// A term without arguments written in the classic way.
pub open spec fn leaf_v(symbol: Seq<char>) -> PTermV {
    PTermV { symbol: symbol, args: Seq::empty(), position: Position::Classic, complex: false }
}

/// Two terms joined by an infix operator.
pub open spec fn infix_v(op: Seq<char>, a: PTermV, b: PTermV) -> PTermV {
    PTermV { symbol: op, args: seq![a, b], position: Position::Infix, complex: true }
}

pub proof fn lemma_pt_view_args(t: PlainTerm)
    ensures
        pt_view(t).args == pts_view(t.args@),
{
    assert(pt_view(t).args =~= pts_view(t.args@));
}

/// The number of formulas in the tree `f`: itself and those under it.
pub open spec fn pf_count(f: PFormulaV) -> nat
    decreases f, 1int,
{
    1 + pfs_count(f.next, f.next.len())
}

/// The number of formulas in the first `n` trees of `s`.
pub open spec fn pfs_count(s: Seq<PFormulaV>, n: nat) -> nat
    decreases s, n as int,
{
    if n == 0 || n > s.len() {
        0
    } else {
        pfs_count(s, (n - 1) as nat) + pf_count(s[n - 1])
    }
}

pub proof fn lemma_pf_view_next(f: PlainFormula)
    ensures
        pf_view(f).next == pfs_view(f.next@),
{
    assert(pf_view(f).next =~= pfs_view(f.next@));
}

pub proof fn lemma_pts_view_push(ts: Seq<PlainTerm>, t: PlainTerm)
    ensures
        pts_view(ts.push(t)) == pts_view(ts).push(pt_view(t)),
{
    assert(pts_view(ts.push(t)) =~= pts_view(ts).push(pt_view(t)));
}

pub proof fn lemma_pfs_view_push(fs: Seq<PlainFormula>, f: PlainFormula)
    ensures
        pfs_view(fs.push(f)) == pfs_view(fs).push(pf_view(f)),
{
    assert(pfs_view(fs.push(f)) =~= pfs_view(fs).push(pf_view(f)));
}

/// Every symbol in the term is something other than a lone `"`.
pub open spec fn plain_ok(pt: &PlainTerm) -> bool
    decreases pt,
{
    &&& pt.symbol@ != seq!['"']
    &&& forall|i: int| 0 <= i < pt.args@.len() ==> plain_ok(&#[trigger] pt.args@[i])
}

pub open spec fn forall_chars() -> Seq<char> {
    seq!['!']
}

pub open spec fn exists_chars() -> Seq<char> {
    seq!['?']
}

/// Every quantifier of the formula tree is `!` or `?`, and every term is `plain_ok`.
pub open spec fn formula_ok(pf: &PlainFormula) -> bool
    decreases pf,
{
    &&& (pf.quantifier@ == forall_chars() || pf.quantifier@ == exists_chars())
    &&& forall|i: int| 0 <= i < pf.vars@.len() ==> plain_ok(&#[trigger] pf.vars@[i])
    &&& forall|i: int| 0 <= i < pf.conjunct@.len() ==> plain_ok(&#[trigger] pf.conjunct@[i])
    &&& forall|i: int| 0 <= i < pf.commands@.len() ==> plain_ok(&#[trigger] pf.commands@[i])
    &&& forall|i: int| 0 <= i < pf.next@.len() ==> formula_ok(&#[trigger] pf.next@[i])
}

/// The scopes of variable names, as maps.
pub open spec fn scopes_view(vstack: Seq<NameMap>) -> Seq<Map<Seq<char>, usize>> {
    vstack.map_values(|m: NameMap| m@)
}

/// The binding of `name` in the innermost scope that has one.
pub open spec fn scope_lookup(scopes: Seq<Map<Seq<char>, usize>>, name: Seq<char>) -> Option<usize>
    decreases scopes.len(),
{
    if scopes.len() == 0 {
        None
    } else if scopes.last().contains_key(name) {
        Some(scopes.last()[name])
    } else {
        scope_lookup(scopes.drop_last(), name)
    }
}

/// All names of the maps used while translating stand for existing terms
/// and symbols.
pub open spec fn maps_ok(
    p: PSTermsV,
    scopes: Seq<Map<Seq<char>, usize>>,
    smap: Map<Seq<char>, usize>,
    fmap: Map<Seq<char>, usize>,
) -> bool {
    &&& forall|i: int, k: Seq<char>|
        0 <= i < scopes.len() && #[trigger] scopes[i].contains_key(k) ==> scopes[i][k] < p.terms.len()
    &&& forall|k: Seq<char>| #[trigger] smap.contains_key(k) ==> smap[k] < p.terms.len()
    &&& forall|k: Seq<char>|
        #[trigger] smap.contains_key(k) ==> const_reads_as(p, p.terms[smap[k] as int], k)
    &&& forall|k: Seq<char>|
        #[trigger] fmap.contains_key(k) ==> fmap[k] < p.symbols.len() && p.symbols[fmap[k] as int].name
            == k
}

/// How the text of a constant reads as a term: a number, `true`, `false`, a
/// quoted string (the quotes dropped), or else a named constant.
pub open spec fn const_reads_as(p: PSTermsV, t: TermV, name: Seq<char>) -> bool {
    match spec_parse_i64(name) {
        Some(n) => t == TermV::Integer(n),
        None => if name == true_chars() {
            t == TermV::Bool(true)
        } else if name == false_chars() {
            t == TermV::Bool(false)
        } else if is_quoted(name) {
            t == TermV::String(name.subrange(1, name.len() - 1))
        } else {
            t matches TermV::SConstant(sid) && sid.0 < p.symbols.len() && p.symbols[sid.0 as int].name
                == name
        },
    }
}

/// The term `tid` of the tables is what `t` reads as under the scopes: the
/// variable bound to its name in the innermost scope that binds it; else a
/// constant as its text reads; else a functor term whose symbol bears the
/// name (interpreted exactly when the symbol has a function) and whose
/// arguments read as the arguments of `t`.
pub open spec fn reads_as(p: PSTermsV, tid: int, t: PTermV, scopes: Seq<Map<Seq<char>, usize>>) -> bool
    decreases t,
{
    match scope_lookup(scopes, t.symbol) {
        Some(v) => tid == v,
        None => {
            &&& 0 <= tid < p.terms.len()
            &&& if !t.complex {
                const_reads_as(p, p.terms[tid], t.symbol)
            } else {
                &&& (p.terms[tid] is SFunctor || p.terms[tid] is IFunctor)
                &&& symbol_of(p.terms[tid]) matches Some(sid) && sid.0 < p.symbols.len() && p.symbols[sid.0 as int].name
                    == t.symbol && (p.terms[tid] is IFunctor <==> p.symbols[sid.0 as int].f is Some)
                &&& args_of(p.terms[tid]).len() == t.args.len()
                &&& forall|k: int|
                    0 <= k < t.args.len() ==> reads_as(
                        p,
                        args_of(p.terms[tid])[k].0 as int,
                        #[trigger] t.args[k],
                        scopes,
                    )
            }
        },
    }
}

pub proof fn lemma_const_reads_as_extends(p: PSTermsV, q: PSTermsV, t: TermV, name: Seq<char>)
    requires
        const_reads_as(p, t, name),
        q.extends(p),
    ensures
        const_reads_as(q, t, name),
{
    if let TermV::SConstant(sid) = t {
        if sid.0 < p.symbols.len() {
            assert(q.symbols.subrange(0, p.symbols.len() as int)[sid.0 as int] == p.symbols[sid.0 as int]);
        }
    }
}

/// What a term reads as stays so when the tables grow.
pub proof fn lemma_reads_as_extends(
    p: PSTermsV,
    q: PSTermsV,
    tid: int,
    t: PTermV,
    scopes: Seq<Map<Seq<char>, usize>>,
)
    requires
        p.wf(),
        q.extends(p),
        reads_as(p, tid, t, scopes),
    ensures
        reads_as(q, tid, t, scopes),
    decreases t,
{
    if scope_lookup(scopes, t.symbol) is None {
        let term = p.terms[tid];
        assert(q.terms.subrange(0, p.terms.len() as int)[tid] == term);
        if !t.complex {
            lemma_const_reads_as_extends(p, q, term, t.symbol);
        } else {
            let sid = symbol_of(term).unwrap();
            assert(q.symbols.subrange(0, p.symbols.len() as int)[sid.0 as int] == p.symbols[sid.0 as int]);
            assert forall|k: int| 0 <= k < t.args.len() implies reads_as(
                q,
                args_of(q.terms[tid])[k].0 as int,
                #[trigger] t.args[k],
                scopes,
            ) by {
                assert(reads_as(p, args_of(term)[k].0 as int, t.args[k], scopes));
                lemma_reads_as_extends(p, q, args_of(term)[k].0 as int, t.args[k], scopes);
            }
        }
    }
}

pub proof fn lemma_maps_ok_extends(
    p: PSTermsV,
    q: PSTermsV,
    scopes: Seq<Map<Seq<char>, usize>>,
    smap: Map<Seq<char>, usize>,
    fmap: Map<Seq<char>, usize>,
)
    requires
        maps_ok(p, scopes, smap, fmap),
        q.extends(p),
    ensures
        maps_ok(q, scopes, smap, fmap),
{
    assert forall|k: Seq<char>| #[trigger] fmap.contains_key(k) implies fmap[k] < q.symbols.len()
        && q.symbols[fmap[k] as int].name == k by {
        assert(q.symbols.subrange(0, p.symbols.len() as int)[fmap[k] as int] == p.symbols[fmap[k] as int]);
    }
    assert forall|k: Seq<char>| #[trigger] smap.contains_key(k) implies const_reads_as(
        q,
        q.terms[smap[k] as int],
        k,
    ) by {
        assert(q.terms.subrange(0, p.terms.len() as int)[smap[k] as int] == p.terms[smap[k] as int]);
        lemma_const_reads_as_extends(p, q, p.terms[smap[k] as int], k);
    }
}

proof fn lemma_scope_lookup_bound(p: PSTermsV, scopes: Seq<Map<Seq<char>, usize>>, name: Seq<char>)
    requires
        forall|i: int, k: Seq<char>|
            0 <= i < scopes.len() && #[trigger] scopes[i].contains_key(k) ==> scopes[i][k] < p.terms.len(),
    ensures
        scope_lookup(scopes, name) matches Some(t) ==> t < p.terms.len(),
    decreases scopes.len(),
{
    if scopes.len() > 0 {
        if !scopes.last().contains_key(name) {
            assert forall|i: int, k: Seq<char>|
                0 <= i < scopes.drop_last().len() && #[trigger] scopes.drop_last()[i].contains_key(k) implies scopes.drop_last()[i][k]
                < p.terms.len() by {
                assert(scopes[i].contains_key(k));
            }
            lemma_scope_lookup_bound(p, scopes.drop_last(), name);
        } else {
            assert(scopes[scopes.len() - 1].contains_key(name));
        }
    }
}

/// The innermost binding of `name` among the scopes.
fn find_in_scopes(vstack: &Vec<NameMap>, name: &String) -> (r: Option<usize>)
    ensures
        r == scope_lookup(scopes_view(vstack@), name@),
{
    let ghost sv = scopes_view(vstack@);
    let mut i = vstack.len();
    proof {
        assert(sv.take(i as int) =~= sv);
    }
    while i > 0
        invariant
            i <= vstack@.len(),
            sv == scopes_view(vstack@),
            scope_lookup(sv, name@) == scope_lookup(sv.take(i as int), name@),
        decreases i,
    {
        let ghost cur = sv.take(i as int);
        assert(cur.last() == vstack@[i - 1]@);
        assert(cur.drop_last() =~= sv.take(i - 1));
        match vstack[i - 1].get(name) {
            Some(t) => {
                return Some(t);
            },
            None => {},
        }
        i = i - 1;
    }
    None
}

/// Whether the term at `t` is one a constant's text turns into.
pub open spec fn is_constant_term(t: TermV) -> bool {
    t is Integer || t is Bool || t is String || t is SConstant
}

/// The term for `pt`: a bound variable, a constant, or a functor term.
pub fn plain_to_term(
    pt: &PlainTerm,
    psterms: &mut PSTerms,
    vstack: &Vec<NameMap>,
    smap: &mut NameMap,
    fmap: &mut NameMap,
) -> (tid: TermId)
    requires
        old(psterms)@.wf(),
        old(psterms)@.has_booleans(),
        plain_ok(pt),
        maps_ok(old(psterms)@, scopes_view(vstack@), old(smap)@, old(fmap)@),
    ensures
        final(psterms)@.wf(),
        final(psterms)@.has_booleans(),
        final(psterms)@.extends(old(psterms)@),
        maps_ok(final(psterms)@, scopes_view(vstack@), final(smap)@, final(fmap)@),
        tid.0 < final(psterms)@.terms.len(),
        scope_lookup(scopes_view(vstack@), pt.symbol@) matches Some(t) ==> tid.0 == t
            && final(psterms)@ == old(psterms)@ && final(smap)@ == old(smap)@ && final(fmap)@ == old(fmap)@,
        scope_lookup(scopes_view(vstack@), pt.symbol@) is None && !pt.complex ==> is_constant_term(
            final(psterms)@.terms[tid.0 as int],
        ) || (old(smap)@.contains_key(pt.symbol@) && tid.0 == old(smap)@[pt.symbol@]),
        scope_lookup(scopes_view(vstack@), pt.symbol@) is None && pt.complex ==> functor_for(
            final(psterms)@,
            pt,
            final(psterms)@.terms[tid.0 as int],
        ),
        reads_as(final(psterms)@, tid.0 as int, pt_view(*pt), scopes_view(vstack@)),
    decreases pt, 1int,
{
    if let Some(t) = find_in_scopes(vstack, &pt.symbol) {
        proof {
            lemma_scope_lookup_bound(psterms@, scopes_view(vstack@), pt.symbol@);
            PSTerms::lemma_extends_refl(psterms@);
        }
        return TermId(t);
    }
    if !pt.complex {
        if let Some(t) = smap.get(&pt.symbol) {
            proof {
                PSTerms::lemma_extends_refl(psterms@);
            }
            return TermId(t);
        }
        let ghost p0 = psterms@;
        let ghost s0 = smap@;
        let r = psterms.add_plain_const(pt.symbol.clone(), smap);
        proof {
            lemma_maps_ok_extends(p0, psterms@, scopes_view(vstack@), s0, fmap@);
            let name = pt.symbol@;
            if smap@ != s0 {
                assert(smap@ == s0.insert(name, r.0));
                assert(spec_parse_i64(name) is None);
                assert(name != true_chars() && name != false_chars() && !is_quoted(name));
                assert(psterms@.symbols.len() == p0.symbols.len() + 1);
                assert(psterms@.terms[r.0 as int] == TermV::SConstant(SymbolId(p0.symbols.len() as usize)));
                assert(psterms@.symbols[p0.symbols.len() as int].name == name);
                assert(const_reads_as(psterms@, psterms@.terms[r.0 as int], name));
                assert forall|k: Seq<char>| #[trigger] smap@.contains_key(k) implies const_reads_as(
                    psterms@,
                    psterms@.terms[smap@[k] as int],
                    k,
                ) by {
                    if k != name {
                        assert(s0.contains_key(k));
                    }
                }
            }
            assert(psterms@.terms[r.0 as int] == psterms@.terms[r.0 as int]);
        }
        r
    } else {
        psterms.add_plain_functor(pt, vstack, smap, fmap)
    }
}

/// The term `t` is a functor term written as `pt`: its symbol bears the name,
/// and it has as many arguments.
pub open spec fn functor_for(p: PSTermsV, pt: &PlainTerm, t: TermV) -> bool {
    &&& (t is SFunctor || t is IFunctor)
    &&& symbol_of(t) is Some
    &&& symbol_of(t).unwrap().0 < p.symbols.len()
    &&& p.symbols[symbol_of(t).unwrap().0 as int].name == pt.symbol@
    &&& args_of(t).len() == pt.args@.len()
    &&& (t is IFunctor <==> p.symbols[symbol_of(t).unwrap().0 as int].f is Some)
}

/// Every formula of the list refers only to existing terms and to formulas
/// stored before it; variables are variables of the formula's quantifier.
pub open spec fn tqfs_ok(tqfs: Seq<Tqf>, p: PSTermsV) -> bool {
    forall|i: int| 0 <= i < tqfs.len() ==> tqf_ok(#[trigger] tqfs[i], i, p)
}

pub open spec fn tqf_ok(t: Tqf, i: int, p: PSTermsV) -> bool {
    &&& forall|k: int| 0 <= k < t.vars@.len() ==> (#[trigger] t.vars@[k]).0 < p.terms.len()
    &&& forall|k: int| 0 <= k < t.conj@.len() ==> (#[trigger] t.conj@[k]).0 < p.terms.len()
    &&& forall|k: int| 0 <= k < t.commands@.len() ==> (#[trigger] t.commands@[k]).0 < p.terms.len()
    &&& forall|k: int| 0 <= k < t.next@.len() ==> (#[trigger] t.next@[k]).0 < i
    &&& forall|k: int|
        0 <= k < t.vars@.len() ==> match t.quantifier {
            Quantifier::Forall => p.terms[(#[trigger] t.vars@[k]).0 as int] is AVariable,
            Quantifier::Exists => p.terms[(#[trigger] t.vars@[k]).0 as int] is EVariable,
        }
}

proof fn lemma_tqfs_ok_extends(tqfs: Seq<Tqf>, p: PSTermsV, q: PSTermsV)
    requires
        tqfs_ok(tqfs, p),
        q.extends(p),
    ensures
        tqfs_ok(tqfs, q),
{
    assert forall|i: int| 0 <= i < tqfs.len() implies tqf_ok(#[trigger] tqfs[i], i, q) by {
        let t = tqfs[i];
        assert(tqf_ok(t, i, p));
        assert forall|k: int| 0 <= k < t.vars@.len() implies match t.quantifier {
            Quantifier::Forall => q.terms[(#[trigger] t.vars@[k]).0 as int] is AVariable,
            Quantifier::Exists => q.terms[(#[trigger] t.vars@[k]).0 as int] is EVariable,
        } by {
            assert(q.terms.subrange(0, p.terms.len() as int)[t.vars@[k].0 as int] == p.terms[t.vars@[k].0 as int]);
        }
    }
}

/// The map from the names of `vars` to the terms `tids` made for them, as
/// inserting them in order builds it (a later name wins).
pub open spec fn var_map(vars: Seq<PTermV>, tids: Seq<TermId>) -> Map<Seq<char>, usize>
    decreases vars.len(),
{
    if vars.len() == 0 || tids.len() == 0 {
        Map::empty()
    } else {
        var_map(vars.drop_last(), tids.drop_last()).insert(vars.last().symbol, tids.last().0)
    }
}

/// The quantifier a formula's text names.
pub open spec fn quantifier_of(q: Seq<char>) -> Quantifier {
    if q == forall_chars() {
        Quantifier::Forall
    } else {
        Quantifier::Exists
    }
}

/// The term `tid` exists and refers to a symbol bearing `name`.
pub open spec fn var_named(p: PSTermsV, tid: int, name: Seq<char>) -> bool {
    &&& 0 <= tid < p.terms.len()
    &&& symbol_of(p.terms[tid]) matches Some(sid) && sid.0 < p.symbols.len() && p.symbols[sid.0 as int].name
        == name
}

/// Formula `id` of `tqfs` is `f` translated under `scopes`, the scopes its
/// terms were read under: it has the quantifier `f` names; for each
/// variable of `f` a variable term bearing its name, these forming the last
/// scope; a term reading as each term of the conjunct and of the commands;
/// and for each formula following `f` a formula translated under scopes
/// that extend these.
pub open spec fn tqf_reads_as(
    p: PSTermsV,
    tqfs: Seq<Tqf>,
    id: int,
    f: PFormulaV,
    scopes: Seq<Map<Seq<char>, usize>>,
) -> bool
    decreases f, 1int,
{
    &&& 0 <= id < tqfs.len()
    &&& tqfs[id].quantifier == quantifier_of(f.quantifier)
    &&& tqfs[id].vars@.len() == f.vars.len()
    &&& forall|k: int|
        0 <= k < f.vars.len() ==> var_named(p, (#[trigger] tqfs[id].vars@[k]).0 as int, f.vars[k].symbol)
    &&& scopes.len() > 0
    &&& scopes.last() == var_map(f.vars, tqfs[id].vars@)
    &&& tqfs[id].conj@.len() == f.conjunct.len()
    &&& forall|k: int|
        0 <= k < f.conjunct.len() ==> reads_as(p, (#[trigger] tqfs[id].conj@[k]).0 as int, f.conjunct[k], scopes)
    &&& tqfs[id].commands@.len() == f.commands.len()
    &&& forall|k: int|
        0 <= k < f.commands.len() ==> reads_as(
            p,
            (#[trigger] tqfs[id].commands@[k]).0 as int,
            f.commands[k],
            scopes,
        )
    &&& tqfs[id].next@.len() == f.next.len()
    &&& forall|j: int|
        #![trigger tqfs[id].next@[j]]
        0 <= j < f.next.len() ==> child_reads_as(
            p,
            tqfs,
            tqfs[id].next@[j].0 as int,
            f.next[j],
            scopes,
        )
}

/// Formula `id` of `tqfs` is `f` translated under some scopes that extend
/// `scopes`.
pub open spec fn child_reads_as(
    p: PSTermsV,
    tqfs: Seq<Tqf>,
    id: int,
    f: PFormulaV,
    scopes: Seq<Map<Seq<char>, usize>>,
) -> bool
    decreases f, 2int,
{
    exists|sc: Seq<Map<Seq<char>, usize>>|
        scopes.len() < sc.len() && #[trigger] sc.subrange(0, scopes.len() as int) == scopes && tqf_reads_as(
            p,
            tqfs,
            id,
            f,
            sc,
        )
}

/// A translated formula stays so when the tables and the formula list grow.
pub proof fn lemma_tqf_reads_as_extends(
    p: PSTermsV,
    q: PSTermsV,
    tqfs: Seq<Tqf>,
    tqfs2: Seq<Tqf>,
    id: int,
    f: PFormulaV,
    scopes: Seq<Map<Seq<char>, usize>>,
)
    requires
        p.wf(),
        q.extends(p),
        tqfs.len() <= tqfs2.len(),
        tqfs2.subrange(0, tqfs.len() as int) == tqfs,
        tqf_reads_as(p, tqfs, id, f, scopes),
    ensures
        tqf_reads_as(q, tqfs2, id, f, scopes),
    decreases f,
{
    let t = tqfs[id];
    assert(tqfs2[id] == t) by {
        assert(tqfs2.subrange(0, tqfs.len() as int)[id] == tqfs2[id]);
    }
    assert forall|k: int| 0 <= k < f.vars.len() implies var_named(
        q,
        (#[trigger] tqfs2[id].vars@[k]).0 as int,
        f.vars[k].symbol,
    ) by {
        let v = t.vars@[k].0 as int;
        assert(var_named(p, v, f.vars[k].symbol));
        assert(q.terms.subrange(0, p.terms.len() as int)[v] == p.terms[v]);
        let sid = symbol_of(p.terms[v]).unwrap();
        assert(q.symbols.subrange(0, p.symbols.len() as int)[sid.0 as int] == p.symbols[sid.0 as int]);
    }
    assert forall|k: int| 0 <= k < f.conjunct.len() implies reads_as(
        q,
        (#[trigger] tqfs2[id].conj@[k]).0 as int,
        f.conjunct[k],
        scopes,
    ) by {
        assert(reads_as(p, t.conj@[k].0 as int, f.conjunct[k], scopes));
        lemma_reads_as_extends(p, q, t.conj@[k].0 as int, f.conjunct[k], scopes);
    }
    assert forall|k: int| 0 <= k < f.commands.len() implies reads_as(
        q,
        (#[trigger] tqfs2[id].commands@[k]).0 as int,
        f.commands[k],
        scopes,
    ) by {
        assert(reads_as(p, t.commands@[k].0 as int, f.commands[k], scopes));
        lemma_reads_as_extends(p, q, t.commands@[k].0 as int, f.commands[k], scopes);
    }
    assert forall|j: int|
        #![trigger tqfs2[id].next@[j]]
        0 <= j < f.next.len() implies child_reads_as(
        q,
        tqfs2,
        tqfs2[id].next@[j].0 as int,
        f.next[j],
        scopes,
    ) by {
        let nj = tqfs[id].next@[j];
        assert(child_reads_as(p, tqfs, nj.0 as int, f.next[j], scopes));
        let sc = choose|sc: Seq<Map<Seq<char>, usize>>|
            scopes.len() < sc.len() && #[trigger] sc.subrange(0, scopes.len() as int) == scopes && tqf_reads_as(
                p,
                tqfs,
                nj.0 as int,
                f.next[j],
                sc,
            );
        lemma_tqf_reads_as_extends(p, q, tqfs, tqfs2, nj.0 as int, f.next[j], sc);
        assert(sc.subrange(0, scopes.len() as int) == scopes);
    }
}

proof fn lemma_var_named_extends(p: PSTermsV, q: PSTermsV, tid: int, name: Seq<char>)
    requires
        q.extends(p),
        var_named(p, tid, name),
    ensures
        var_named(q, tid, name),
{
    assert(q.terms.subrange(0, p.terms.len() as int)[tid] == p.terms[tid]);
    let sid = symbol_of(p.terms[tid]).unwrap();
    assert(q.symbols.subrange(0, p.symbols.len() as int)[sid.0 as int] == p.symbols[sid.0 as int]);
}

proof fn lemma_child_reads_as_extends(
    p: PSTermsV,
    q: PSTermsV,
    tqfs: Seq<Tqf>,
    tqfs2: Seq<Tqf>,
    id: int,
    f: PFormulaV,
    scopes: Seq<Map<Seq<char>, usize>>,
)
    requires
        p.wf(),
        q.extends(p),
        tqfs.len() <= tqfs2.len(),
        tqfs2.subrange(0, tqfs.len() as int) == tqfs,
        child_reads_as(p, tqfs, id, f, scopes),
    ensures
        child_reads_as(q, tqfs2, id, f, scopes),
{
    let sc = choose|sc: Seq<Map<Seq<char>, usize>>|
        scopes.len() < sc.len() && #[trigger] sc.subrange(0, scopes.len() as int) == scopes && tqf_reads_as(
            p,
            tqfs,
            id,
            f,
            sc,
        );
    lemma_tqf_reads_as_extends(p, q, tqfs, tqfs2, id, f, sc);
    assert(sc.subrange(0, scopes.len() as int) == scopes);
}

/// Translates the terms of `list` in order.
fn plain_terms_to_terms(
    list: &Vec<PlainTerm>,
    psterms: &mut PSTerms,
    vstack: &Vec<NameMap>,
    smap: &mut NameMap,
    fmap: &mut NameMap,
) -> (r: Vec<TermId>)
    requires
        old(psterms)@.wf(),
        old(psterms)@.has_booleans(),
        forall|i: int| 0 <= i < list@.len() ==> plain_ok(&#[trigger] list@[i]),
        maps_ok(old(psterms)@, scopes_view(vstack@), old(smap)@, old(fmap)@),
    ensures
        final(psterms)@.wf(),
        final(psterms)@.has_booleans(),
        final(psterms)@.extends(old(psterms)@),
        maps_ok(final(psterms)@, scopes_view(vstack@), final(smap)@, final(fmap)@),
        r@.len() == list@.len(),
        forall|k: int| 0 <= k < r@.len() ==> (#[trigger] r@[k]).0 < final(psterms)@.terms.len(),
        forall|k: int|
            0 <= k < r@.len() ==> reads_as(
                final(psterms)@,
                (#[trigger] r@[k]).0 as int,
                pt_view(list@[k]),
                scopes_view(vstack@),
            ),
{
    let mut r: Vec<TermId> = Vec::new();
    let mut i: usize = 0;
    proof {
        PSTerms::lemma_extends_refl(psterms@);
    }
    while i < list.len()
        invariant
            psterms@.wf(),
            psterms@.has_booleans(),
            psterms@.extends(old(psterms)@),
            forall|j: int| 0 <= j < list@.len() ==> plain_ok(&#[trigger] list@[j]),
            maps_ok(psterms@, scopes_view(vstack@), smap@, fmap@),
            i <= list@.len(),
            r@.len() == i,
            forall|k: int| 0 <= k < r@.len() ==> (#[trigger] r@[k]).0 < psterms@.terms.len(),
            forall|k: int|
                0 <= k < r@.len() ==> reads_as(
                    psterms@,
                    (#[trigger] r@[k]).0 as int,
                    pt_view(list@[k]),
                    scopes_view(vstack@),
                ),
        decreases list@.len() - i,
    {
        let ghost pb = psterms@;
        let ghost rb = r@;
        assert(plain_ok(&list@[i as int]));
        let t = plain_to_term(&list[i], psterms, vstack, smap, fmap);
        r.push(t);
        proof {
            PSTerms::lemma_extends_trans(old(psterms)@, pb, psterms@);
            assert forall|k: int| 0 <= k < r@.len() implies reads_as(
                psterms@,
                (#[trigger] r@[k]).0 as int,
                pt_view(list@[k]),
                scopes_view(vstack@),
            ) by {
                if k < i {
                    assert(r@[k] == rb[k]);
                    lemma_reads_as_extends(pb, psterms@, rb[k].0 as int, pt_view(list@[k]), scopes_view(vstack@));
                }
            }
        }
        i = i + 1;
    }
    r
}

/// Translates a formula tree: its formulas are stored in `tqfs`, each after
/// the formulas that follow it, and the root's identifier is returned.
#[verifier::rlimit(60)]
pub fn plain_to_tqf(
    pf: &PlainFormula,
    psterms: &mut PSTerms,
    vstack: &mut Vec<NameMap>,
    smap: &mut NameMap,
    fmap: &mut NameMap,
    tqfs: &mut Vec<Tqf>,
) -> (tid: TqfId)
    requires
        old(psterms)@.wf(),
        old(psterms)@.has_booleans(),
        formula_ok(pf),
        maps_ok(old(psterms)@, scopes_view(old(vstack)@), old(smap)@, old(fmap)@),
        tqfs_ok(old(tqfs)@, old(psterms)@),
    ensures
        final(psterms)@.wf(),
        final(psterms)@.has_booleans(),
        final(psterms)@.extends(old(psterms)@),
        maps_ok(final(psterms)@, scopes_view(final(vstack)@), final(smap)@, final(fmap)@),
        tqfs_ok(final(tqfs)@, final(psterms)@),
        old(tqfs)@.len() <= tid.0,
        tid.0 + 1 == final(tqfs)@.len(),
        final(tqfs)@.len() == old(tqfs)@.len() + pf_count(pf_view(*pf)),
        final(tqfs)@.subrange(0, old(tqfs)@.len() as int) == old(tqfs)@,
        final(tqfs)@[tid.0 as int].quantifier == (if pf.quantifier@ == forall_chars() {
            Quantifier::Forall
        } else {
            Quantifier::Exists
        }),
        final(tqfs)@[tid.0 as int].vars@.len() == pf.vars@.len(),
        final(tqfs)@[tid.0 as int].conj@.len() == pf.conjunct@.len(),
        final(tqfs)@[tid.0 as int].commands@.len() == pf.commands@.len(),
        final(tqfs)@[tid.0 as int].next@.len() == pf.next@.len(),
        forall|k: int|
            0 <= k < pf.next@.len() ==> old(tqfs)@.len() <= (#[trigger] final(tqfs)@[tid.0 as int].next@[k]).0 < tid.0,
        forall|k: int|
            0 <= k < final(tqfs)@[tid.0 as int].vars@.len() ==> {
                let v = #[trigger] final(tqfs)@[tid.0 as int].vars@[k];
                &&& old(psterms)@.terms.len() <= v.0 < final(psterms)@.terms.len()
                &&& pf.quantifier@ == forall_chars() ==> final(psterms)@.terms[v.0 as int] is AVariable
                &&& pf.quantifier@ != forall_chars() ==> final(psterms)@.terms[v.0 as int] is EVariable
                    && final(psterms)@.terms[v.0 as int]->EVariable_1 == BlockId(0)
            },
        final(vstack)@.len() > old(vstack)@.len(),
        final(vstack)@.subrange(0, old(vstack)@.len() as int) == old(vstack)@,
        tqf_reads_as(
            final(psterms)@,
            final(tqfs)@,
            tid.0 as int,
            pf_view(*pf),
            scopes_view(final(vstack)@.subrange(0, old(vstack)@.len() as int + 1)),
        ),
    decreases pf,
{
    let qc = chars_of_string(&pf.quantifier);
    let q = if qc.len() == 1 && qc[0] == '!' {
        proof {
            assert(qc@ =~= forall_chars());
        }
        Quantifier::Forall
    } else {
        proof {
            if pf.quantifier@ == forall_chars() {
                assert(qc@[0] == '!');
            }
        }
        Quantifier::Exists
    };
    let ghost p0 = psterms@;
    let ghost t0 = tqfs@;
    proof {
        PSTerms::lemma_extends_refl(psterms@);
    }
    let mut vars: Vec<TermId> = Vec::new();
    let mut vmap = NameMap::new();
    let mut i: usize = 0;
    while i < pf.vars.len()
        invariant
            psterms@.wf(),
            psterms@.has_booleans(),
            psterms@.extends(p0),
            maps_ok(psterms@, scopes_view(vstack@), smap@, fmap@),
            tqfs_ok(tqfs@, psterms@),
            i <= pf.vars@.len(),
            vars@.len() == i,
            forall|k: int| 0 <= k < vars@.len() ==> (#[trigger] vars@[k]).0 < psterms@.terms.len(),
            forall|k: int| 0 <= k < vars@.len() ==> p0.terms.len() <= (#[trigger] vars@[k]).0,
            forall|k: int|
                0 <= k < vars@.len() ==> match q {
                    Quantifier::Forall => psterms@.terms[(#[trigger] vars@[k]).0 as int] is AVariable,
                    Quantifier::Exists => psterms@.terms[(#[trigger] vars@[k]).0 as int] is EVariable
                        && psterms@.terms[vars@[k].0 as int]->EVariable_1 == BlockId(0),
                },
            forall|k: Seq<char>| #[trigger] vmap@.contains_key(k) ==> vmap@[k] < psterms@.terms.len(),
            forall|k: int|
                0 <= k < vars@.len() ==> var_named(psterms@, (#[trigger] vars@[k]).0 as int, pf.vars@[k].symbol@),
            vmap@ == var_map(pts_view(pf.vars@).take(i as int), vars@),
        decreases pf.vars@.len() - i,
    {
        let ghost pb = psterms@;
        let ghost vb = vars@;
        let t = psterms.add_plain_var(pf.vars[i].symbol.clone(), q);
        vmap.insert(pf.vars[i].symbol.clone(), t.0);
        vars.push(t);
        proof {
            let pv = pts_view(pf.vars@);
            assert(pv.take(i + 1).drop_last() =~= pv.take(i as int));
            assert(vars@.drop_last() =~= vb);
            assert(pv.take(i + 1).last() == pt_view(pf.vars@[i as int]));
            assert(psterms@.terms[t.0 as int] == match q {
                Quantifier::Forall => TermV::AVariable(SymbolId(pb.symbols.len() as usize)),
                Quantifier::Exists => TermV::EVariable(SymbolId(pb.symbols.len() as usize), BlockId(0)),
            });
            assert(psterms@.symbols[pb.symbols.len() as int].name == pf.vars@[i as int].symbol@);
            assert(var_named(psterms@, t.0 as int, pf.vars@[i as int].symbol@));
            assert forall|k: int| 0 <= k < vars@.len() implies var_named(
                psterms@,
                (#[trigger] vars@[k]).0 as int,
                pf.vars@[k].symbol@,
            ) by {
                if k < i {
                    assert(vars@[k] == vb[k]);
                    lemma_var_named_extends(pb, psterms@, vb[k].0 as int, pf.vars@[k].symbol@);
                }
            }
            PSTerms::lemma_extends_trans(p0, pb, psterms@);
            lemma_maps_ok_extends(pb, psterms@, scopes_view(vstack@), smap@, fmap@);
            lemma_tqfs_ok_extends(tqfs@, pb, psterms@);
            assert forall|k: int| 0 <= k < vars@.len() implies match q {
                Quantifier::Forall => psterms@.terms[(#[trigger] vars@[k]).0 as int] is AVariable,
                Quantifier::Exists => psterms@.terms[(#[trigger] vars@[k]).0 as int] is EVariable
                        && psterms@.terms[vars@[k].0 as int]->EVariable_1 == BlockId(0),
            } by {
                if k < i {
                    assert(psterms@.terms.subrange(0, pb.terms.len() as int)[vars@[k].0 as int]
                        == pb.terms[vars@[k].0 as int]);
                }
            }
        }
        i = i + 1;
    }
    proof {
        assert(pts_view(pf.vars@).take(pf.vars@.len() as int) =~= pts_view(pf.vars@));
    }
    let ghost vs0 = vstack@;
    let ghost vm = vmap@;
    vstack.push(vmap);
    let ghost vs1 = vstack@;
    let ghost sc1 = scopes_view(vs1);
    proof {
        assert(sc1.last() == vm);
        assert(scopes_view(vstack@) =~= scopes_view(vs0).push(vstack@[vstack@.len() - 1]@));
        assert forall|j: int, k: Seq<char>|
            0 <= j < scopes_view(vstack@).len() && #[trigger] scopes_view(vstack@)[j].contains_key(k) implies scopes_view(
            vstack@,
        )[j][k] < psterms@.terms.len() by {
            if j < vs0.len() {
                assert(scopes_view(vs0)[j] == scopes_view(vstack@)[j]);
            }
        }
    }
    let ghost p1 = psterms@;
    let conj = plain_terms_to_terms(&pf.conjunct, psterms, vstack, smap, fmap);
    let ghost p2 = psterms@;
    let commands = plain_terms_to_terms(&pf.commands, psterms, vstack, smap, fmap);
    proof {
        PSTerms::lemma_extends_trans(p0, p1, p2);
        PSTerms::lemma_extends_trans(p0, p2, psterms@);
        PSTerms::lemma_extends_trans(p1, p2, psterms@);
        lemma_tqfs_ok_extends(tqfs@, p1, psterms@);
    }
    let mut next: Vec<TqfId> = Vec::new();
    let mut j: usize = 0;
    let ghost p3 = psterms@;
    proof {
        lemma_pf_view_next(*pf);
    }
    proof {
        PSTerms::lemma_extends_refl(p3);
        assert(vstack@.subrange(0, vs1.len() as int) =~= vs1);
    }
    while j < pf.next.len()
        invariant
            psterms@.wf(),
            psterms@.has_booleans(),
            psterms@.extends(p0),
            psterms@.extends(p3),
            formula_ok(pf),
            maps_ok(psterms@, scopes_view(vstack@), smap@, fmap@),
            tqfs_ok(tqfs@, psterms@),
            t0.len() <= tqfs@.len(),
            tqfs@.subrange(0, t0.len() as int) == t0,
            j <= pf.next@.len(),
            next@.len() == j,
            forall|k: int| 0 <= k < next@.len() ==> (#[trigger] next@[k]).0 < tqfs@.len(),
            forall|k: int| 0 <= k < next@.len() ==> t0.len() <= (#[trigger] next@[k]).0,
            tqfs@.len() == t0.len() + pfs_count(pf_view(*pf).next, j as nat),
            pf_view(*pf).next == pfs_view(pf.next@),
            vs1.len() <= vstack@.len(),
            vstack@.subrange(0, vs1.len() as int) == vs1,
            sc1 == scopes_view(vs1),
            forall|k: int|
                0 <= k < next@.len() ==> child_reads_as(
                    psterms@,
                    tqfs@,
                    (#[trigger] next@[k]).0 as int,
                    pf_view(pf.next@[k]),
                    sc1,
                ),
        decreases pf.next@.len() - j,
    {
        let ghost pb = psterms@;
        let ghost tb = tqfs@;
        let ghost vb = vstack@;
        let ghost nb = next@;
        assert(formula_ok(&pf.next@[j as int]));
        let n = plain_to_tqf(&pf.next[j], psterms, vstack, smap, fmap, tqfs);
        next.push(n);
        proof {
            assert(pf_view(*pf).next[j as int] == pf_view(pf.next@[j as int]));
            assert(pfs_count(pf_view(*pf).next, (j + 1) as nat) == pfs_count(pf_view(*pf).next, j as nat) + pf_count(
                pf_view(*pf).next[j as int],
            ));
            PSTerms::lemma_extends_trans(p0, pb, psterms@);
            PSTerms::lemma_extends_trans(p3, pb, psterms@);
            assert(tqfs@.subrange(0, t0.len() as int) =~= tb.subrange(0, t0.len() as int));
            assert(vstack@.subrange(0, vs1.len() as int) =~= vb.subrange(0, vs1.len() as int));
            let sc = scopes_view(vstack@.subrange(0, vb.len() as int + 1));
            assert(sc.subrange(0, sc1.len() as int) =~= sc1);
            assert(child_reads_as(psterms@, tqfs@, n.0 as int, pf_view(pf.next@[j as int]), sc1));
            assert forall|k: int| 0 <= k < next@.len() implies child_reads_as(
                psterms@,
                tqfs@,
                (#[trigger] next@[k]).0 as int,
                pf_view(pf.next@[k]),
                sc1,
            ) by {
                if k < j {
                    assert(next@[k] == nb[k]);
                    lemma_child_reads_as_extends(pb, psterms@, tb, tqfs@, nb[k].0 as int, pf_view(pf.next@[k]), sc1);
                }
            }
        }
        j = j + 1;
    }
    proof {
        assert forall|k: int| 0 <= k < vars@.len() implies match q {
            Quantifier::Forall => psterms@.terms[(#[trigger] vars@[k]).0 as int] is AVariable,
            Quantifier::Exists => psterms@.terms[(#[trigger] vars@[k]).0 as int] is EVariable
                        && psterms@.terms[vars@[k].0 as int]->EVariable_1 == BlockId(0),
        } by {
            assert(psterms@.terms.subrange(0, p1.terms.len() as int)[vars@[k].0 as int]
                == p1.terms[vars@[k].0 as int]);
        }
    }
    let ghost tb = tqfs@;
    let ghost pfin = psterms@;
    let ghost vars_v = vars@;
    let ghost conj_v = conj@;
    let ghost cmds_v = commands@;
    let ghost next_v = next@;
    tqfs.push(Tqf { quantifier: q, vars: vars, conj: conj, commands: commands, next: next });
    proof {
        let fv = pf_view(*pf);
        let id = tb.len() as int;
        PSTerms::lemma_extends_trans(p1, p3, pfin);
        PSTerms::lemma_extends_trans(p2, p3, pfin);
        lemma_pf_view_next(*pf);
        assert(vstack@.subrange(0, vs0.len() as int + 1) =~= vs1);
        assert(tqfs@.subrange(0, tb.len() as int) =~= tb);
        assert(tqfs@[id].vars@ == vars_v);
        assert(fv.vars == pts_view(pf.vars@));
        assert forall|k: int| 0 <= k < fv.vars.len() implies var_named(
            pfin,
            (#[trigger] tqfs@[id].vars@[k]).0 as int,
            fv.vars[k].symbol,
        ) by {
            assert(var_named(p1, vars_v[k].0 as int, pf.vars@[k].symbol@));
            lemma_var_named_extends(p1, pfin, vars_v[k].0 as int, pf.vars@[k].symbol@);
        }
        assert forall|k: int| 0 <= k < fv.conjunct.len() implies reads_as(
            pfin,
            (#[trigger] tqfs@[id].conj@[k]).0 as int,
            fv.conjunct[k],
            sc1,
        ) by {
            assert(reads_as(p2, conj_v[k].0 as int, pt_view(pf.conjunct@[k]), scopes_view(vs1)));
            lemma_reads_as_extends(p2, pfin, conj_v[k].0 as int, pt_view(pf.conjunct@[k]), sc1);
        }
        assert forall|k: int| 0 <= k < fv.commands.len() implies reads_as(
            pfin,
            (#[trigger] tqfs@[id].commands@[k]).0 as int,
            fv.commands[k],
            sc1,
        ) by {
            assert(reads_as(p3, cmds_v[k].0 as int, pt_view(pf.commands@[k]), scopes_view(vs1)));
            lemma_reads_as_extends(p3, pfin, cmds_v[k].0 as int, pt_view(pf.commands@[k]), sc1);
        }
        PSTerms::lemma_extends_refl(pfin);
        assert forall|k: int|
            #![trigger tqfs@[id].next@[k]]
            0 <= k < fv.next.len() implies child_reads_as(
            pfin,
            tqfs@,
            tqfs@[id].next@[k].0 as int,
            fv.next[k],
            sc1,
        ) by {
            assert(child_reads_as(pfin, tb, next_v[k].0 as int, pf_view(pf.next@[k]), sc1));
            lemma_child_reads_as_extends(pfin, pfin, tb, tqfs@, next_v[k].0 as int, pf_view(pf.next@[k]), sc1);
        }
        assert(tqf_reads_as(pfin, tqfs@, id, fv, sc1));
        let nt = tqfs@[tqfs@.len() - 1];
        assert(tqf_ok(nt, tb.len() as int, psterms@));
        assert forall|i2: int| 0 <= i2 < tqfs@.len() implies tqf_ok(#[trigger] tqfs@[i2], i2, psterms@) by {
            if i2 < tb.len() {
                assert(tqfs@[i2] == tb[i2]);
            }
        }
        assert(tqfs@.subrange(0, t0.len() as int) =~= tb.subrange(0, t0.len() as int));
    }
    TqfId(tqfs.len() - 1)
}

} // verus!
