use vstd::prelude::*;
use crate::misc::{TermId, DisplayMode, Position, SymbolId};
use crate::term::{PSTerms, PSTermsV, TermV, Term};
use crate::context::Context;
use crate::text::{string_of, spec_parse_i64, digits_value, all_digits, is_digit, digit_value};

verus! {

pub open spec fn digit_char(d: int) -> char {
    (('0' as int) + d) as char
}

/// The decimal digits of `n`.
pub open spec fn nat_chars(n: nat) -> Seq<char>
    decreases n,
{
    if n < 10 {
        seq![digit_char(n as int)]
    } else {
        nat_chars((n / 10) as nat).push(digit_char((n % 10) as int))
    }
}

/// The decimal form of `i`, with a `-` when negative.
pub open spec fn int_chars(i: int) -> Seq<char> {
    if i < 0 {
        seq!['-'] + nat_chars((-i) as nat)
    } else {
        nat_chars(i as nat)
    }
}

fn digit(d: u8) -> (c: char)
    requires
        d < 10,
    ensures
        c == digit_char(d as int),
{
    if d == 0 {
        '0'
    } else if d == 1 {
        '1'
    } else if d == 2 {
        '2'
    } else if d == 3 {
        '3'
    } else if d == 4 {
        '4'
    } else if d == 5 {
        '5'
    } else if d == 6 {
        '6'
    } else if d == 7 {
        '7'
    } else if d == 8 {
        '8'
    } else {
        '9'
    }
}

fn push_nat(out: &mut Vec<char>, n: u64)
    ensures
        final(out)@ == old(out)@ + nat_chars(n as nat),
    decreases n,
{
    if n >= 10 {
        push_nat(out, n / 10);
    }
    let c = digit((n % 10) as u8);
    out.push(c);
    proof {
        if n >= 10 {
            assert(final(out)@ =~= old(out)@ + nat_chars(n as nat));
        } else {
            assert(final(out)@ =~= old(out)@ + nat_chars(n as nat));
        }
    }
}

/// Appends the decimal form of `i`.
pub fn push_int(out: &mut Vec<char>, i: i64)
    ensures
        final(out)@ == old(out)@ + int_chars(i as int),
{
    if i < 0 {
        out.push('-');
        let m: u64 = if i == i64::MIN {
            9223372036854775808u64
        } else {
            (-i) as u64
        };
        push_nat(out, m);
        proof {
            assert(out@ =~= old(out)@ + int_chars(i as int));
        }
    } else {
        push_nat(out, i as u64);
    }
}

/// Appends the decimal digits of `n`.
pub fn push_nat_chars(out: &mut Vec<char>, n: usize)
    ensures
        final(out)@ == old(out)@ + nat_chars(n as nat),
{
    push_nat(out, n as u64);
}

/// The decimal form of `i` as a string.
pub fn int_to_string(i: i64) -> (s: String)
    ensures
        s@ == int_chars(i as int),
{
    let mut v: Vec<char> = Vec::new();
    push_int(&mut v, i);
    proof {
        assert(v@ =~= int_chars(i as int));
    }
    string_of(&v)
}

pub fn push_all(out: &mut Vec<char>, s: &Vec<char>)
    ensures
        final(out)@ == old(out)@ + s@,
{
    let mut i: usize = 0;
    while i < s.len()
        invariant
            i <= s@.len(),
            out@ == old(out)@ + s@.take(i as int),
        decreases s@.len() - i,
    {
        out.push(s[i]);
        i = i + 1;
        proof {
            assert(out@ =~= old(out)@ + s@.take(i as int));
        }
    }
    proof {
        assert(s@.take(i as int) =~= s@);
    }
}

fn push_str_chars(out: &mut Vec<char>, s: &String)
    ensures
        final(out)@ == old(out)@ + s@,
{
    let cs = crate::text::chars_of_string(s);
    push_all(out, &cs);
}

/// How a symbol is shown: its name, followed by `.` and its number in the
/// modes that show numbers.
pub open spec fn sid_chars(p: PSTermsV, sid: SymbolId, dm: DisplayMode) -> Seq<char> {
    let sym = p.symbols[sid.0 as int];
    match dm {
        DisplayMode::Plain => sym.name,
        _ => sym.name + seq!['.'] + nat_chars(sym.uid as nat),
    }
}

pub open spec fn bool_chars(b: bool) -> Seq<char> {
    if b {
        seq!['t', 'r', 'u', 'e']
    } else {
        seq!['f', 'a', 'l', 's', 'e']
    }
}

/// How the term `tid` is shown, variables replaced through `ctx` when it
/// binds them; `fuel` bounds the depth shown.
pub open spec fn tid_chars(
    p: PSTermsV,
    tid: TermId,
    ctx: Option<Map<usize, usize>>,
    dm: DisplayMode,
    fuel: nat,
) -> Seq<char>
    decreases fuel, 0nat,
{
    if fuel == 0 || tid.0 >= p.terms.len() {
        seq!['.', '.', '.']
    } else {
        match p.terms[tid.0 as int] {
            TermV::AVariable(sid) => if ctx is Some && ctx.unwrap().contains_key(tid.0) {
                tid_chars(p, TermId(ctx.unwrap()[tid.0]), ctx, dm, (fuel - 1) as nat)
            } else {
                sid_chars(p, sid, dm)
            },
            TermV::EVariable(sid, bid) => if ctx is Some && ctx.unwrap().contains_key(tid.0) {
                tid_chars(p, TermId(ctx.unwrap()[tid.0]), ctx, dm, (fuel - 1) as nat)
            } else {
                match dm {
                    DisplayMode::Plain => sid_chars(p, sid, dm),
                    _ => sid_chars(p, sid, dm) + seq!['.'] + nat_chars(bid.0 as nat),
                }
            },
            TermV::SConstant(sid) => sid_chars(p, sid, DisplayMode::Plain),
            TermV::Bool(b) => bool_chars(b),
            TermV::Integer(i) => int_chars(i as int),
            TermV::String(s) => seq!['"'] + s + seq!['"'],
            TermV::SFunctor(sid, args) => functor_chars(p, sid, args, ctx, dm, (fuel - 1) as nat),
            TermV::IFunctor(sid, args) => functor_chars(p, sid, args, ctx, dm, (fuel - 1) as nat),
            TermV::List(args) => seq!['['] + tids_chars(
                p,
                args,
                ctx,
                dm,
                seq![',', ' '],
                (fuel - 1) as nat,
            ) + seq![']'],
        }
    }
}

/// A functor term: `name(a, b)` when classic, `a name b` when infix.
pub open spec fn functor_chars(
    p: PSTermsV,
    sid: SymbolId,
    args: Seq<TermId>,
    ctx: Option<Map<usize, usize>>,
    dm: DisplayMode,
    fuel: nat,
) -> Seq<char>
    decreases fuel, 2nat,
{
    let sym = p.symbols[sid.0 as int];
    match sym.position {
        Position::Classic => sym.name + seq!['('] + tids_chars(p, args, ctx, dm, seq![',', ' '], fuel)
            + seq![')'],
        Position::Infix => tids_chars(p, args, ctx, dm, seq![' '] + sym.name + seq![' '], fuel),
    }
}

/// Terms shown one after the other, separated by `d`.
pub open spec fn tids_chars(
    p: PSTermsV,
    tids: Seq<TermId>,
    ctx: Option<Map<usize, usize>>,
    dm: DisplayMode,
    d: Seq<char>,
    fuel: nat,
) -> Seq<char>
    decreases fuel, 1nat, tids.len(),
{
    if tids.len() == 0 {
        Seq::empty()
    } else if tids.len() == 1 {
        tid_chars(p, tids[0], ctx, dm, fuel)
    } else {
        tids_chars(p, tids.drop_last(), ctx, dm, d, fuel) + d + tid_chars(p, tids.last(), ctx, dm, fuel)
    }
}

pub open spec fn ctx_view(ctx: Option<&Context>) -> Option<Map<usize, usize>> {
    match ctx {
        Some(c) => Some(c.map@),
        None => None,
    }
}

fn push_sid(out: &mut Vec<char>, psterms: &PSTerms, sid: SymbolId, dm: DisplayMode)
    requires
        sid.0 < psterms@.symbols.len(),
    ensures
        final(out)@ == old(out)@ + sid_chars(psterms@, sid, dm),
{
    let sym = psterms.get_symbol(&sid);
    push_str_chars(out, &sym.name);
    match dm {
        DisplayMode::Plain => {},
        _ => {
            out.push('.');
            push_nat(out, sym.uid as u64);
        },
    }
    proof {
        assert(final(out)@ =~= old(out)@ + sid_chars(psterms@, sid, dm));
    }
}

fn push_bool(out: &mut Vec<char>, b: bool)
    ensures
        final(out)@ == old(out)@ + bool_chars(b),
{
    if b {
        out.push('t');
        out.push('r');
        out.push('u');
        out.push('e');
    } else {
        out.push('f');
        out.push('a');
        out.push('l');
        out.push('s');
        out.push('e');
    }
    proof {
        assert(final(out)@ =~= old(out)@ + bool_chars(b));
    }
}

/// Appends how the term `tid` is shown: see [`tid_chars`].
pub fn push_tid(
    out: &mut Vec<char>,
    psterms: &PSTerms,
    tid: TermId,
    ctx: Option<&Context>,
    dm: DisplayMode,
    fuel: usize,
)
    requires
        psterms@.wf(),
    ensures
        final(out)@ == old(out)@ + tid_chars(psterms@, tid, ctx_view(ctx), dm, fuel as nat),
    decreases fuel, 0nat,
{
    if fuel == 0 || tid.0 >= psterms.len() {
        out.push('.');
        out.push('.');
        out.push('.');
        proof {
            assert(final(out)@ =~= old(out)@ + tid_chars(psterms@, tid, ctx_view(ctx), dm, fuel as nat));
        }
        return;
    }
    proof {
        assert(crate::term::symbol_of(psterms@.terms[tid.0 as int]) is Some ==> crate::term::symbol_of(psterms@.terms[tid.0 as int]).unwrap().0 < psterms@.symbols.len());
    }
    match psterms.term_ref(&tid) {
        Term::AVariable(sid) => {
            let bound = match ctx {
                Some(c) => c.get(&tid),
                None => None,
            };
            match bound {
                Some(t) => push_tid(out, psterms, t, ctx, dm, fuel - 1),
                None => push_sid(out, psterms, *sid, dm),
            }
        },
        Term::EVariable(sid, bid) => {
            let bound = match ctx {
                Some(c) => c.get(&tid),
                None => None,
            };
            match bound {
                Some(t) => push_tid(out, psterms, t, ctx, dm, fuel - 1),
                None => {
                    push_sid(out, psterms, *sid, dm);
                    match dm {
                        DisplayMode::Plain => {},
                        _ => {
                            out.push('.');
                            push_nat(out, bid.0 as u64);
                        },
                    }
                },
            }
        },
        Term::SConstant(sid) => push_sid(out, psterms, *sid, DisplayMode::Plain),
        Term::Bool(b) => push_bool(out, *b),
        Term::Integer(i) => push_int(out, *i),
        Term::String(st) => {
            out.push('"');
            push_str_chars(out, st);
            out.push('"');
        },
        Term::SFunctor(sid, args) => push_functor(out, psterms, *sid, args, ctx, dm, fuel - 1),
        Term::IFunctor(sid, args) => push_functor(out, psterms, *sid, args, ctx, dm, fuel - 1),
        Term::List(args) => {
            out.push('[');
            let d = vec![',', ' '];
            push_tids(out, psterms, args, ctx, dm, &d, fuel - 1);
            out.push(']');
        },
    }
    proof {
        assert(final(out)@ =~= old(out)@ + tid_chars(psterms@, tid, ctx_view(ctx), dm, fuel as nat));
    }
}

fn push_functor(
    out: &mut Vec<char>,
    psterms: &PSTerms,
    sid: SymbolId,
    args: &Vec<TermId>,
    ctx: Option<&Context>,
    dm: DisplayMode,
    fuel: usize,
)
    requires
        psterms@.wf(),
        sid.0 < psterms@.symbols.len(),
    ensures
        final(out)@ == old(out)@ + functor_chars(psterms@, sid, args@, ctx_view(ctx), dm, fuel as nat),
    decreases fuel, 2nat,
{
    let sym = psterms.get_symbol(&sid);
    match sym.position {
        Position::Classic => {
            push_str_chars(out, &sym.name);
            out.push('(');
            let d = vec![',', ' '];
            proof {
                assert(d@ =~= seq![',', ' ']);
            }
            push_tids(out, psterms, args, ctx, dm, &d, fuel);
            out.push(')');
        },
        Position::Infix => {
            let mut d: Vec<char> = Vec::new();
            d.push(' ');
            push_str_chars(&mut d, &sym.name);
            d.push(' ');
            proof {
                assert(d@ =~= seq![' '] + sym.name@ + seq![' ']);
            }
            push_tids(out, psterms, args, ctx, dm, &d, fuel);
        },
    }
    proof {
        assert(final(out)@ =~= old(out)@ + functor_chars(psterms@, sid, args@, ctx_view(ctx), dm, fuel as nat));
    }
}

/// Appends terms separated by `d`: see [`tids_chars`].
pub fn push_tids(
    out: &mut Vec<char>,
    psterms: &PSTerms,
    tids: &Vec<TermId>,
    ctx: Option<&Context>,
    dm: DisplayMode,
    d: &Vec<char>,
    fuel: usize,
)
    requires
        psterms@.wf(),
    ensures
        final(out)@ == old(out)@ + tids_chars(psterms@, tids@, ctx_view(ctx), dm, d@, fuel as nat),
    decreases fuel, 1nat, tids@.len(),
{
    let mut i: usize = 0;
    while i < tids.len()
        invariant
            psterms@.wf(),
            i <= tids@.len(),
            out@ == old(out)@ + tids_chars(psterms@, tids@.take(i as int), ctx_view(ctx), dm, d@, fuel as nat),
        decreases tids@.len() - i,
    {
        if i > 0 {
            push_all(out, d);
        }
        push_tid(out, psterms, tids[i], ctx, dm, fuel);
        proof {
            let t1 = tids@.take(i + 1);
            assert(t1.drop_last() =~= tids@.take(i as int));
            if i == 0 {
                assert(t1.len() == 1);
                assert(out@ =~= old(out)@ + tids_chars(psterms@, t1, ctx_view(ctx), dm, d@, fuel as nat));
            } else {
                assert(out@ =~= old(out)@ + tids_chars(psterms@, t1, ctx_view(ctx), dm, d@, fuel as nat));
            }
        }
        i = i + 1;
    }
    proof {
        assert(tids@.take(i as int) =~= tids@);
    }
}

/// The depth to which terms are shown.
pub const RENDER_DEPTH: usize = 1000;

/// Shows a symbol.
pub struct SidDisplay<'a> {
    pub sid: SymbolId,
    pub psterms: &'a PSTerms,
    pub dm: DisplayMode,
}

impl<'a> SidDisplay<'a> {
    pub fn to_string(&self) -> (s: String)
        requires
            self.sid.0 < self.psterms@.symbols.len(),
        ensures
            s@ == sid_chars(self.psterms@, self.sid, self.dm),
    {
        let mut out: Vec<char> = Vec::new();
        push_sid(&mut out, self.psterms, self.sid, self.dm);
        proof {
            assert(out@ =~= sid_chars(self.psterms@, self.sid, self.dm));
        }
        string_of(&out)
    }
}

/// Shows a term, its variables replaced through the context if any.
pub struct TidDisplay<'a> {
    pub tid: TermId,
    pub psterms: &'a PSTerms,
    pub context: Option<&'a Context>,
    pub dm: DisplayMode,
}

impl<'a> TidDisplay<'a> {
    pub fn to_string(&self) -> (s: String)
        requires
            self.psterms@.wf(),
        ensures
            s@ == tid_chars(self.psterms@, self.tid, ctx_view(self.context), self.dm, RENDER_DEPTH as nat),
    {
        let mut out: Vec<char> = Vec::new();
        push_tid(&mut out, self.psterms, self.tid, self.context, self.dm, RENDER_DEPTH);
        proof {
            assert(out@ =~= tid_chars(self.psterms@, self.tid, ctx_view(self.context), self.dm, RENDER_DEPTH as nat));
        }
        string_of(&out)
    }
}

/// Shows terms separated by `d`.
pub struct TidsDisplay<'a> {
    pub tids: &'a Vec<TermId>,
    pub psterms: &'a PSTerms,
    pub context: Option<&'a Context>,
    pub dm: DisplayMode,
    pub d: &'a str,
}

impl<'a> TidsDisplay<'a> {
    pub fn to_string(&self) -> (s: String)
        requires
            self.psterms@.wf(),
        ensures
            s@ == tids_chars(
                self.psterms@,
                self.tids@,
                ctx_view(self.context),
                self.dm,
                self.d@,
                RENDER_DEPTH as nat,
            ),
    {
        let d = crate::text::chars_of(self.d);
        let mut out: Vec<char> = Vec::new();
        push_tids(&mut out, self.psterms, self.tids, self.context, self.dm, &d, RENDER_DEPTH);
        proof {
            assert(out@ =~= tids_chars(
                self.psterms@,
                self.tids@,
                ctx_view(self.context),
                self.dm,
                self.d@,
                RENDER_DEPTH as nat,
            ));
        }
        string_of(&out)
    }
}

proof fn lemma_nat_chars_digits(n: nat)
    ensures
        all_digits(nat_chars(n)),
        digits_value(nat_chars(n)) == n,
        nat_chars(n).len() > 0,
    decreases n,
{
    if n >= 10 {
        lemma_nat_chars_digits((n / 10) as nat);
        let s = nat_chars(n);
        assert(s.drop_last() =~= nat_chars((n / 10) as nat));
        assert(digit_value(digit_char((n % 10) as int)) == n % 10);
        assert(s.last() == digit_char((n % 10) as int));
        assert(digits_value(s) == digits_value(s.drop_last()) * 10 + digit_value(s.last()));
        assert((n / 10) * 10 + n % 10 == n);
        assert forall|i: int| 0 <= i < s.len() implies is_digit(#[trigger] s[i]) by {
            if i < s.len() - 1 {
                assert(s[i] == nat_chars((n / 10) as nat)[i]);
            }
        }
    } else {
        let s = nat_chars(n);
        assert(digit_value(digit_char(n as int)) == n);
        assert(s.drop_last() =~= Seq::<char>::empty());
        assert(digits_value(s.drop_last()) == 0);
        assert(digits_value(s) == digits_value(s.drop_last()) * 10 + digit_value(s.last()));
    }
}

/// The decimal text of an integer (as `string` gives it) is read back as
/// that integer (as the parser reads integer constants).
pub proof fn law_int_text_read_back(i: i64)
    ensures
        spec_parse_i64(int_chars(i as int)) == Some(i),
{
    if i < 0 {
        let n = (-(i as int)) as nat;
        lemma_nat_chars_digits(n);
        let s = int_chars(i as int);
        assert(s.skip(1) =~= nat_chars(n));
        assert(s[0] == '-');
    } else {
        let n = i as nat;
        lemma_nat_chars_digits(n);
        let s = int_chars(i as int);
        assert(is_digit(s[0]));
    }
}

} // verus!
