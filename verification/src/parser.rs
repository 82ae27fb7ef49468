use vstd::prelude::*;
use crate::misc::Position;
use crate::plain::{
    PlainTerm, PlainFormula, PTermV, PFormulaV, plain_ok, formula_ok, forall_chars, exists_chars,
    pt_view, pts_view, pf_view, pfs_view, leaf_v, infix_v, lemma_pt_view_args, lemma_pf_view_next,
    lemma_pts_view_push, lemma_pfs_view_push,
};
use crate::grammar::{
    CharClass, ident_start, ident_char, in_class, run_end, lemma_run_end, ws_end, g_ident, g_string,
    g_number, call_v, g_primary, g_args, g_mul, g_mul_rest, g_add, g_add_rest, g_comparison, g_term, lemma_comparison_is_its_text,
    g_terms, g_vars, g_line,
};
use crate::text::{string_of, is_whitespace, is_ws, chars_of, chars_of_string};

verus! {

/// Why a formula text was rejected.
#[derive(Copy, Clone, PartialEq, Eq, Structural, Debug)]
pub enum ParseError {
    /// Line `line` (counted among the formula lines) is not a formula line;
    /// the problem was found at character `pos`.
    Syntax { line: usize, pos: usize },
    /// Line `line` is indented to a depth that no enclosing line has.
    Indentation { line: usize },
    /// The text holds no formula line.
    NoFormula,
    /// The text is longer than the parser can count.
    TooLong,
}

fn str1(a: char) -> (r: String)
    ensures
        r@ == seq![a],
        r@.len() == 1,
        r@[0] == a,
{
    let mut v: Vec<char> = Vec::new();
    v.push(a);
    proof {
        assert(v@ =~= seq![a]);
    }
    string_of(&v)
}

fn str2(a: char, b: char) -> (r: String)
    ensures
        r@ == seq![a, b],
        r@.len() == 2,
        r@[0] == a,
{
    let mut v: Vec<char> = Vec::new();
    v.push(a);
    v.push(b);
    proof {
        assert(v@ =~= seq![a, b]);
    }
    string_of(&v)
}

/// The characters of `s` from `a` up to `b`.
fn slice_chars(s: &Vec<char>, a: usize, b: usize) -> (r: Vec<char>)
    requires
        a <= b <= s@.len(),
    ensures
        r@ == s@.subrange(a as int, b as int),
{
    let mut r: Vec<char> = Vec::new();
    let mut i = a;
    while i < b
        invariant
            a <= i <= b,
            b <= s@.len(),
            r@ == s@.subrange(a as int, i as int),
        decreases b - i,
    {
        r.push(s[i]);
        i = i + 1;
        proof {
            assert(r@ =~= s@.subrange(a as int, i as int));
        }
    }
    r
}

fn is_ident_start(c: char) -> (r: bool)
    ensures
        r == ident_start(c),
{
    ('a' <= c && c <= 'z') || ('A' <= c && c <= 'Z') || c == '_'
}

fn is_ident_char(c: char) -> (r: bool)
    ensures
        r == ident_char(c),
{
    is_ident_start(c) || ('0' <= c && c <= '9')
}

fn char_in_class(c: char, k: CharClass) -> (r: bool)
    ensures
        r == in_class(c, k),
{
    match k {
        CharClass::Space => is_whitespace(c),
        CharClass::IdentChar => is_ident_char(c),
        CharClass::Digit => '0' <= c && c <= '9',
        CharClass::NotQuote => c != '"',
    }
}

/// The end of the run of characters of class `k` from `pos` on.
fn scan(s: &Vec<char>, pos: usize, k: CharClass) -> (r: usize)
    requires
        pos <= s@.len(),
    ensures
        r == run_end(s@, pos as int, k),
        pos <= r <= s@.len(),
{
    proof {
        lemma_run_end(s@, pos as int, k);
    }
    let mut i = pos;
    while i < s.len() && char_in_class(s[i], k)
        invariant
            pos <= i <= s@.len(),
            run_end(s@, pos as int, k) == run_end(s@, i as int, k),
        decreases s@.len() - i,
    {
        i = i + 1;
    }
    i
}

/// The first position at or after `pos` that is not white space.
fn skip_ws(s: &Vec<char>, pos: usize) -> (r: usize)
    requires
        pos <= s@.len(),
    ensures
        r == ws_end(s@, pos as int),
        pos <= r <= s@.len(),
{
    scan(s, pos, CharClass::Space)
}

/// What a reader of characters gave back, as values.
pub open spec fn chars_opt_view(r: Option<(Vec<char>, usize)>) -> Option<(Seq<char>, int)> {
    match r {
        Some((v, p)) => Some((v@, p as int)),
        None => None,
    }
}

/// What a term reader gave back, as values.
pub open spec fn term_res_view(r: Result<(PlainTerm, usize), usize>) -> Result<(PTermV, int), int> {
    match r {
        Ok((t, p)) => Ok((pt_view(t), p as int)),
        Err(e) => Err(e as int),
    }
}

/// What a reader of terms gave back, as values.
pub open spec fn terms_res_view(r: Result<(Vec<PlainTerm>, usize), usize>) -> Result<(Seq<PTermV>, int), int> {
    match r {
        Ok((ts, p)) => Ok((pts_view(ts@), p as int)),
        Err(e) => Err(e as int),
    }
}

/// What the reader of names gave back, as values.
pub open spec fn vars_opt_view(r: Option<(Vec<PlainTerm>, usize)>) -> Option<(Seq<PTermV>, int)> {
    match r {
        Some((vs, p)) => Some((pts_view(vs@), p as int)),
        None => None,
    }
}

/// What the line reader gave back, as values.
pub open spec fn line_res_view(r: Result<PlainFormula, usize>) -> Result<PFormulaV, int> {
    match r {
        Ok(f) => Ok(pf_view(f)),
        Err(e) => Err(e as int),
    }
}

proof fn lemma_leaf_view(t: PlainTerm)
    requires
        t.args@.len() == 0,
        t.position == Position::Classic,
        !t.complex,
    ensures
        pt_view(t) == leaf_v(t.symbol@),
{
    lemma_pt_view_args(t);
    assert(pts_view(t.args@) =~= Seq::<PTermV>::empty());
}

proof fn lemma_call_view(t: PlainTerm)
    requires
        t.position == Position::Classic,
        t.complex,
    ensures
        pt_view(t) == call_v(t.symbol@, pts_view(t.args@)),
{
    lemma_pt_view_args(t);
}

/// An identifier starting at `pos`, and the position after it.
fn parse_ident(s: &Vec<char>, pos: usize) -> (r: Option<(Vec<char>, usize)>)
    requires
        pos <= s@.len(),
    ensures
        chars_opt_view(r) == g_ident(s@, pos as int),
        r matches Some((id, p)) ==> pos < p <= s@.len() && id@.len() >= 1 && ident_start(id@[0]),
{
    if pos >= s.len() || !is_ident_start(s[pos]) {
        return None;
    }
    let e = scan(s, pos + 1, CharClass::IdentChar);
    let id = slice_chars(s, pos, e);
    Some((id, e))
}

/// A string literal starting at `pos` (quotes included), and the position after it.
fn parse_string_lit(s: &Vec<char>, pos: usize) -> (r: Option<(Vec<char>, usize)>)
    requires
        pos <= s@.len(),
    ensures
        chars_opt_view(r) == g_string(s@, pos as int),
        r matches Some((lit, p)) ==> pos < p <= s@.len() && lit@.len() >= 2,
{
    if pos >= s.len() || s[pos] != '"' {
        return None;
    }
    let q = scan(s, pos + 1, CharClass::NotQuote);
    if q >= s.len() {
        return None;
    }
    let lit = slice_chars(s, pos, q + 1);
    Some((lit, q + 1))
}

/// A decimal integer, possibly with a leading `-`, starting at `pos`.
fn parse_number(s: &Vec<char>, pos: usize) -> (r: Option<(Vec<char>, usize)>)
    requires
        pos <= s@.len(),
    ensures
        chars_opt_view(r) == g_number(s@, pos as int),
        r matches Some((num, p)) ==> pos < p <= s@.len() && num@.len() >= 1 && num@[0] != '"',
{
    let i = if pos < s.len() && s[pos] == '-' {
        pos + 1
    } else {
        pos
    };
    if i >= s.len() || !('0' <= s[i] && s[i] <= '9') {
        return None;
    }
    let e = scan(s, i, CharClass::Digit);
    proof {
        lemma_run_end(s@, i + 1, CharClass::Digit);
    }
    let num = slice_chars(s, pos, e);
    Some((num, e))
}

/// A primary term at `pos`: a number, a string, a name with or without
/// arguments, or a parenthesised term.
fn parse_primary(s: &Vec<char>, pos: usize) -> (r: Result<(PlainTerm, usize), usize>)
    requires
        pos <= s@.len(),
    ensures
        term_res_view(r) == g_primary(s@, pos as int),
        r matches Ok((t, p)) ==> pos < p <= s@.len() && plain_ok(&t),
    decreases s@.len() - pos, 0int,
{
    let p0 = skip_ws(s, pos);
    if p0 >= s.len() {
        return Err(p0);
    }
    if let Some((num, p)) = parse_number(s, p0) {
        let t = PlainTerm::new(string_of(&num), Vec::new(), false);
        proof {
            assert(t.symbol@ != seq!['"']) by {
                if t.symbol@ == seq!['"'] {
                    assert(num@[0] == '"');
                }
            }
            assert(plain_ok(&t));
            lemma_leaf_view(t);
        }
        return Ok((t, p));
    }
    if let Some((lit, p)) = parse_string_lit(s, p0) {
        let t = PlainTerm::new(string_of(&lit), Vec::new(), false);
        proof {
            assert(t.symbol@.len() >= 2);
            assert(plain_ok(&t));
            lemma_leaf_view(t);
        }
        return Ok((t, p));
    }
    if s[p0] == '(' {
        match parse_term(s, p0 + 1) {
            Ok((t, p1)) => {
                let p2 = skip_ws(s, p1);
                if p2 < s.len() && s[p2] == ')' {
                    return Ok((t, p2 + 1));
                }
                return Err(p2);
            },
            Err(e) => {
                return Err(e);
            },
        }
    }
    match parse_ident(s, p0) {
        None => Err(p0),
        Some((id, p1)) => {
            let ghost idv = id@;
            let name = string_of(&id);
            proof {
                assert(name@[0] != '"');
            }
            let p2 = skip_ws(s, p1);
            if p2 < s.len() && s[p2] == '(' {
                let mut args: Vec<PlainTerm> = Vec::new();
                let p3 = skip_ws(s, p2 + 1);
                if p3 < s.len() && s[p3] == ')' {
                    let t = PlainTerm::new(name, args, true);
                    proof {
                        assert(t.symbol@[0] != '"');
                        assert(plain_ok(&t));
                        lemma_call_view(t);
                        assert(pts_view(t.args@) =~= Seq::<PTermV>::empty());
                    }
                    return Ok((t, p3 + 1));
                }
                let ghost gp = g_primary(s@, pos as int);
                proof {
                    assert(gp == match g_args(s@, p2 + 1, Seq::empty()) {
                        Ok((a, e)) => Ok((call_v(idv, a), e)),
                        Err(e) => Err(e),
                    });
                    assert(pts_view(args@) =~= Seq::<PTermV>::empty());
                }
                let mut q = p2 + 1;
                loop
                    invariant
                        p2 < q <= s@.len(),
                        pos < q,
                        name@ == idv,
                        name@.len() >= 1,
                        name@[0] != '"',
                        forall|i: int| 0 <= i < args@.len() ==> plain_ok(&#[trigger] args@[i]),
                        gp == g_primary(s@, pos as int),
                        gp == match g_args(s@, q as int, pts_view(args@)) {
                            Ok((a, e)) => Ok((call_v(idv, a), e)),
                            Err(e) => Err(e),
                        },
                    decreases s@.len() - q,
                {
                    match parse_term(s, q) {
                        Err(e) => {
                            return Err(e);
                        },
                        Ok((a, q1)) => {
                            let ghost old_args = args@;
                            args.push(a);
                            proof {
                                lemma_pts_view_push(old_args, a);
                            }
                            let q2 = skip_ws(s, q1);
                            if q2 < s.len() && s[q2] == ',' {
                                q = q2 + 1;
                            } else if q2 < s.len() && s[q2] == ')' {
                                let t = PlainTerm::new(name, args, true);
                                proof {
                                    assert(t.symbol@[0] != '"');
                                    assert(plain_ok(&t));
                                    lemma_call_view(t);
                                }
                                return Ok((t, q2 + 1));
                            } else {
                                return Err(q2);
                            }
                        },
                    }
                }
            } else {
                let t = PlainTerm::new(name, Vec::new(), false);
                proof {
                    assert(t.symbol@[0] != '"');
                    assert(plain_ok(&t));
                    lemma_leaf_view(t);
                }
                Ok((t, p1))
            }
        },
    }
}

/// An infix operator application.
fn infix(op: String, a: PlainTerm, b: PlainTerm) -> (t: PlainTerm)
    requires
        op@.len() >= 1,
        op@[0] != '"',
        plain_ok(&a),
        plain_ok(&b),
    ensures
        plain_ok(&t),
        pt_view(t) == infix_v(op@, pt_view(a), pt_view(b)),
{
    let ghost opv = op@;
    let ghost av = pt_view(a);
    let ghost bv = pt_view(b);
    let mut args: Vec<PlainTerm> = Vec::new();
    args.push(a);
    args.push(b);
    let t = PlainTerm::new_infix(op, args);
    proof {
        if opv == seq!['"'] {
            assert(opv[0] == '"');
        }
        assert forall|i: int| 0 <= i < t.args@.len() implies plain_ok(&#[trigger] t.args@[i]) by {
            if i == 0 {
                assert(t.args@[0] == a);
            } else {
                assert(t.args@[1] == b);
            }
        }
        lemma_pt_view_args(t);
        assert(pts_view(t.args@) =~= seq![av, bv]);
    }
    t
}

/// A product: primaries joined by `*`.
fn parse_mul(s: &Vec<char>, pos: usize) -> (r: Result<(PlainTerm, usize), usize>)
    requires
        pos <= s@.len(),
    ensures
        term_res_view(r) == g_mul(s@, pos as int),
        r matches Ok((t, p)) ==> pos < p <= s@.len() && plain_ok(&t),
    decreases s@.len() - pos, 1int,
{
    let (mut t, mut p) = match parse_primary(s, pos) {
        Ok(x) => x,
        Err(e) => {
            return Err(e);
        },
    };
    loop
        invariant
            pos < p <= s@.len(),
            plain_ok(&t),
            g_mul(s@, pos as int) == g_mul_rest(s@, p as int, pt_view(t)),
        decreases s@.len() - p,
    {
        let q = skip_ws(s, p);
        if q < s.len() && s[q] == '*' {
            match parse_primary(s, q + 1) {
                Ok((b, q1)) => {
                    t = infix(str1('*'), t, b);
                    p = q1;
                },
                Err(e) => {
                    return Err(e);
                },
            }
        } else {
            return Ok((t, p));
        }
    }
}

/// A sum: products joined by `+`, `-` or `++`, to the left.
fn parse_add(s: &Vec<char>, pos: usize) -> (r: Result<(PlainTerm, usize), usize>)
    requires
        pos <= s@.len(),
    ensures
        term_res_view(r) == g_add(s@, pos as int),
        r matches Ok((t, p)) ==> pos < p <= s@.len() && plain_ok(&t),
    decreases s@.len() - pos, 2int,
{
    let (mut t, mut p) = match parse_mul(s, pos) {
        Ok(x) => x,
        Err(e) => {
            return Err(e);
        },
    };
    loop
        invariant
            pos < p <= s@.len(),
            plain_ok(&t),
            g_add(s@, pos as int) == g_add_rest(s@, p as int, pt_view(t)),
        decreases s@.len() - p,
    {
        let q = skip_ws(s, p);
        if q < s.len() && q + 1 < s.len() && s[q] == '+' && s[q + 1] == '+' {
            match parse_mul(s, q + 2) {
                Ok((b, q1)) => {
                    t = infix(str2('+', '+'), t, b);
                    p = q1;
                },
                Err(e) => {
                    return Err(e);
                },
            }
        } else if q < s.len() && (s[q] == '+' || s[q] == '-') {
            let op = str1(s[q]);
            match parse_mul(s, q + 1) {
                Ok((b, q1)) => {
                    t = infix(op, t, b);
                    p = q1;
                },
                Err(e) => {
                    return Err(e);
                },
            }
        } else {
            return Ok((t, p));
        }
    }
}

/// The comparison operator at `q`, if any, with the position after it.
fn comparison_at(s: &Vec<char>, q: usize) -> (r: Option<(String, usize)>)
    requires
        q <= s@.len(),
    ensures
        g_comparison(s@, q as int) == match r {
            Some((op, p)) => Some((op@, p as int)),
            None => None,
        },
        r matches Some((op, p)) ==> q < p <= s@.len() && op@.len() >= 1 && op@[0] != '"',
        r matches Some((op, p)) ==> op@ == s@.subrange(q as int, p as int),
{
    proof {
        lemma_comparison_is_its_text(s@, q as int);
    }
    if q < s.len() && q + 1 < s.len() && s[q + 1] == '=' && (s[q] == '=' || s[q] == '!' || s[q] == '<' || s[q]
        == '>') {
        return Some((str2(s[q], '='), q + 2));
    }
    if q < s.len() && (s[q] == '<' || s[q] == '>') {
        return Some((str1(s[q]), q + 1));
    }
    match parse_ident(s, q) {
        Some((id, p)) => {
            let n = id.len();
            let is_in = n == 2 && id[0] == 'i' && id[1] == 'n';
            let is_notin = n == 5 && id[0] == 'n' && id[1] == 'o' && id[2] == 't' && id[3] == 'i'
                && id[4] == 'n';
            let is_subseteq = n == 8 && id[0] == 's' && id[1] == 'u' && id[2] == 'b' && id[3] == 's'
                && id[4] == 'e' && id[5] == 't' && id[6] == 'e' && id[7] == 'q';
            proof {
                let w1 = seq!['i', 'n'];
                let w2 = seq!['n', 'o', 't', 'i', 'n'];
                let w3 = seq!['s', 'u', 'b', 's', 'e', 't', 'e', 'q'];
                if is_in {
                    assert(id@ =~= w1);
                }
                if is_notin {
                    assert(id@ =~= w2);
                }
                if is_subseteq {
                    assert(id@ =~= w3);
                }
                if id@ == w1 {
                    assert(id@.len() == 2 && id@[0] == 'i' && id@[1] == 'n');
                }
                if id@ == w2 {
                    assert(id@.len() == 5 && id@[0] == 'n' && id@[1] == 'o' && id@[2] == 't' && id@[3] == 'i'
                        && id@[4] == 'n');
                }
                if id@ == w3 {
                    assert(id@.len() == 8 && id@[0] == 's' && id@[1] == 'u' && id@[2] == 'b' && id@[3] == 's'
                        && id@[4] == 'e' && id@[5] == 't' && id@[6] == 'e' && id@[7] == 'q');
                }
            }
            if is_in || is_notin || is_subseteq {
                let op = string_of(&id);
                proof {
                    assert(op@[0] != '"');
                }
                Some((op, p))
            } else {
                None
            }
        },
        None => None,
    }
}

/// A term: a sum, or two sums compared by one comparison operator.
fn parse_term(s: &Vec<char>, pos: usize) -> (r: Result<(PlainTerm, usize), usize>)
    requires
        pos <= s@.len(),
    ensures
        term_res_view(r) == g_term(s@, pos as int),
        r matches Ok((t, p)) ==> pos < p <= s@.len() && plain_ok(&t),
    decreases s@.len() - pos, 3int,
{
    let (t, p) = match parse_add(s, pos) {
        Ok(x) => x,
        Err(e) => {
            return Err(e);
        },
    };
    let q = skip_ws(s, p);
    match comparison_at(s, q) {
        Some((op, q1)) => match parse_add(s, q1) {
            Ok((b, q2)) => Ok((infix(op, t, b), q2)),
            Err(e) => Err(e),
        },
        None => Ok((t, p)),
    }
}

/// Terms separated by commas.
fn parse_term_list(s: &Vec<char>, pos: usize) -> (r: Result<(Vec<PlainTerm>, usize), usize>)
    requires
        pos <= s@.len(),
    ensures
        terms_res_view(r) == g_terms(s@, pos as int, Seq::empty()),
        r matches Ok((ts, p)) ==> pos < p <= s@.len() && forall|i: int|
            0 <= i < ts@.len() ==> plain_ok(&#[trigger] ts@[i]),
{
    let mut ts: Vec<PlainTerm> = Vec::new();
    let mut q = pos;
    proof {
        assert(pts_view(ts@) =~= Seq::<PTermV>::empty());
    }
    loop
        invariant
            pos <= q <= s@.len(),
            forall|i: int| 0 <= i < ts@.len() ==> plain_ok(&#[trigger] ts@[i]),
            g_terms(s@, pos as int, Seq::empty()) == g_terms(s@, q as int, pts_view(ts@)),
        decreases s@.len() - q,
    {
        match parse_term(s, q) {
            Err(e) => {
                return Err(e);
            },
            Ok((t, q1)) => {
                let ghost old_ts = ts@;
                ts.push(t);
                proof {
                    lemma_pts_view_push(old_ts, t);
                }
                let q2 = skip_ws(s, q1);
                if q2 < s.len() && s[q2] == ',' {
                    q = q2 + 1;
                } else {
                    return Ok((ts, q1));
                }
            },
        }
    }
}

/// Names separated by commas and ended by `:`, and the position after the `:`.
fn parse_vars(s: &Vec<char>, pos: usize) -> (r: Option<(Vec<PlainTerm>, usize)>)
    requires
        pos <= s@.len(),
    ensures
        vars_opt_view(r) == g_vars(s@, pos as int, Seq::empty()),
        r matches Some((vs, p)) ==> pos < p <= s@.len() && forall|i: int|
            0 <= i < vs@.len() ==> plain_ok(&#[trigger] vs@[i]),
{
    let mut vs: Vec<PlainTerm> = Vec::new();
    let mut q = pos;
    proof {
        assert(pts_view(vs@) =~= Seq::<PTermV>::empty());
    }
    loop
        invariant
            pos <= q <= s@.len(),
            forall|i: int| 0 <= i < vs@.len() ==> plain_ok(&#[trigger] vs@[i]),
            g_vars(s@, pos as int, Seq::empty()) == g_vars(s@, q as int, pts_view(vs@)),
        decreases s@.len() - q,
    {
        let q0 = skip_ws(s, q);
        match parse_ident(s, q0) {
            None => {
                return None;
            },
            Some((id, q1)) => {
                let v = PlainTerm::new(string_of(&id), Vec::new(), false);
                proof {
                    assert(v.symbol@[0] != '"');
                    assert(plain_ok(&v));
                    lemma_leaf_view(v);
                }
                let ghost old_vs = vs@;
                vs.push(v);
                proof {
                    lemma_pts_view_push(old_vs, v);
                }
                let q2 = skip_ws(s, q1);
                if q2 < s.len() && s[q2] == ',' {
                    q = q2 + 1;
                } else if q2 < s.len() && s[q2] == ':' {
                    return Some((vs, q2 + 1));
                } else {
                    return None;
                }
            },
        }
    }
}

/// One formula line: a quantifier (`!` or `?`), optionally names ended by
/// `:`, the terms of the conjunct separated by commas, and optionally `$`
/// followed by the commands. Returns the position of the problem on
/// failure. See [`g_line`] for the grammar.
pub fn parse_tqf_line(s: &Vec<char>) -> (r: Result<PlainFormula, usize>)
    ensures
        line_res_view(r) == g_line(s@),
        r matches Ok(pf) ==> formula_ok(&pf) && pf.next@.len() == 0,
{
    let p0 = skip_ws(s, 0);
    if p0 >= s.len() || (s[p0] != '!' && s[p0] != '?') {
        return Err(p0);
    }
    let quantifier = str1(s[p0]);
    let (vars, p1) = match parse_vars(s, p0 + 1) {
        Some((vs, p)) => (vs, p),
        None => (Vec::new(), p0 + 1),
    };
    proof {
        assert(pts_view(Seq::<PlainTerm>::empty()) =~= Seq::<PTermV>::empty());
    }
    let q = skip_ws(s, p1);
    let (conjunct, p2) = if q < s.len() && s[q] != '$' {
        match parse_term_list(s, q) {
            Ok(x) => x,
            Err(e) => {
                return Err(e);
            },
        }
    } else {
        (Vec::new(), p1)
    };
    let q = skip_ws(s, p2);
    let (commands, p3) = if q < s.len() && s[q] == '$' {
        let q1 = skip_ws(s, q + 1);
        if q1 < s.len() {
            match parse_term_list(s, q1) {
                Ok(x) => x,
                Err(e) => {
                    return Err(e);
                },
            }
        } else {
            (Vec::new(), q1)
        }
    } else {
        (Vec::new(), p2)
    };
    let q = skip_ws(s, p3);
    if q < s.len() {
        return Err(q);
    }
    let pf = PlainFormula::new(quantifier, vars, conjunct, commands, Vec::new());
    proof {
        assert(pf.quantifier@ == forall_chars() || pf.quantifier@ == exists_chars());
        assert(formula_ok(&pf));
        lemma_pf_view_next(pf);
        assert(pfs_view(pf.next@) =~= Seq::<PFormulaV>::empty());
    }
    Ok(pf)
}

/// The remainder of `n` by `m` as Rust's `%` computes it (the sign of `n`).
pub open spec fn trunc_rem(n: int, m: int) -> int {
    if n >= 0 {
        n % m
    } else {
        -((-n) % m)
    }
}

/// `n + (m - n % m)`: for `n >= 0`, the next multiple of `m` above `n`.
pub fn align_modulo(n: i64, m: i64) -> (r: i64)
    requires
        m > 0,
        m - trunc_rem(n as int, m as int) <= i64::MAX,
        n + m - trunc_rem(n as int, m as int) <= i64::MAX,
    ensures
        r == n + m - trunc_rem(n as int, m as int),
{
    n + (m - (n % m))
}

/// For a non-negative `n`, `align_modulo(n, m)` is the next multiple of
/// `m` above `n`: a multiple of `m`, greater than `n`, and at most `m`
/// above it.
pub proof fn law_align_modulo(n: int, m: int)
    requires
        n >= 0,
        m > 0,
    ensures
        (n + m - trunc_rem(n, m)) % m == 0,
        n < n + m - trunc_rem(n, m) <= n + m,
{
    assert(n % m < m && n % m >= 0) by (nonlinear_arith)
        requires
            m > 0,
    ;
    assert((n + m - n % m) % m == 0) by (nonlinear_arith)
        requires
            m > 0,
            n >= 0,
    ;
}

/// The longest line text whose indentation is computed: longer texts cannot
/// be held in memory.
pub open spec fn max_text_len() -> int {
    0x0fff_ffff_ffff_ffff
}

/// The indentation of a line: each leading space counts one, each leading
/// tab moves to the next multiple of 8.
pub open spec fn indent_from(s: Seq<char>, acc: int) -> int
    decreases s.len(),
{
    if s.len() == 0 {
        acc
    } else if s[0] == ' ' {
        indent_from(s.skip(1), acc + 1)
    } else if s[0] == '\t' {
        indent_from(s.skip(1), acc + (8 - acc % 8))
    } else {
        acc
    }
}

pub open spec fn indent_of(s: Seq<char>) -> int {
    indent_from(s, 0)
}

/// A formula line with its indentation.
pub struct PfLine {
    pub line: String,
    pub indent: i64,
}

impl PfLine {
    pub fn new(line: String) -> (l: PfLine)
        requires
            line@.len() <= max_text_len(),
        ensures
            l.line@ == line@,
            l.indent == indent_of(line@),
            0 <= indent_of(line@) <= i64::MAX,
    {
        let cs = chars_of_string(&line);
        let mut indent: i64 = 0;
        let mut i: usize = 0;
        proof {
            assert(cs@.skip(0) =~= cs@);
        }
        while i < cs.len()
            invariant
                i <= cs@.len(),
                cs@ == line@,
                cs@.len() <= max_text_len(),
                0 <= indent <= 8 * i,
                indent_of(cs@) == indent_from(cs@.skip(i as int), indent as int),
            ensures
                indent_of(cs@) == indent as int,
                0 <= indent,
            decreases cs@.len() - i,
        {
            let c = cs[i];
            proof {
                assert(cs@.skip(i as int).skip(1) =~= cs@.skip(i + 1));
                assert(cs@.skip(i as int)[0] == c);
            }
            if c == ' ' {
                indent = indent + 1;
            } else if c == '\t' {
                proof {
                    assert(trunc_rem(indent as int, 8) == indent % 8);
                }
                indent = align_modulo(indent, 8);
            } else {
                break;
            }
            i = i + 1;
            proof {
                if i == cs.len() {
                    assert(cs@.skip(i as int).len() == 0);
                }
            }
        }
        PfLine { line: line, indent: indent }
    }
}

/// A formula line as characters with its indentation.
pub struct PfLineV {
    pub line: Seq<char>,
    pub indent: i64,
}

pub open spec fn pfline_of(s: Seq<char>) -> PfLineV {
    PfLineV { line: s, indent: indent_of(s) as i64 }
}

pub open spec fn pflines_view(ls: Seq<PfLine>) -> Seq<PfLineV> {
    ls.map_values(|l: PfLine| PfLineV { line: l.line@, indent: l.indent })
}

/// The position of the first `c` in `s`, if any.
pub open spec fn first_index(s: Seq<char>, c: char) -> Option<int>
    decreases s.len(),
{
    if s.len() == 0 {
        None
    } else if s[0] == c {
        Some(0)
    } else {
        match first_index(s.skip(1), c) {
            Some(i) => Some(i + 1),
            None => None,
        }
    }
}

/// A line without its comment: what precedes the first `#`.
pub open spec fn strip_comment(s: Seq<char>) -> Seq<char> {
    match first_index(s, '#') {
        Some(i) => s.take(i),
        None => s,
    }
}

/// A line without its trailing `~` characters.
pub open spec fn trim_end_tildes(s: Seq<char>) -> Seq<char>
    decreases s.len(),
{
    if s.len() > 0 && s.last() == '~' {
        trim_end_tildes(s.drop_last())
    } else {
        s
    }
}

pub open spec fn is_blank(s: Seq<char>) -> bool {
    forall|i: int| 0 <= i < s.len() ==> is_ws(#[trigger] s[i])
}

/// The lines collected so far, the text of a line being continued, and
/// whether the next text completes a line.
pub struct PrepState {
    pub lines: Seq<PfLineV>,
    pub buff: Seq<char>,
    pub flag: bool,
}

/// One step of line preparation: the comment is dropped; a line ending with
/// `~` continues on the next line; blank text is skipped; a completed line
/// joins the lines with its indentation.
pub open spec fn prep_step(line: Seq<char>, st: PrepState) -> PrepState {
    let line0 = strip_comment(line);
    let cont = line0.len() > 0 && line0.last() == '~';
    let line1 = if cont {
        trim_end_tildes(line0)
    } else {
        line0
    };
    let flag1 = if cont {
        st.flag
    } else {
        true
    };
    if is_blank(line1) {
        PrepState { lines: st.lines, buff: st.buff, flag: flag1 }
    } else if flag1 {
        PrepState {
            lines: st.lines.push(pfline_of(st.buff + line1)),
            buff: Seq::empty(),
            flag: false,
        }
    } else {
        PrepState { lines: st.lines, buff: st.buff + line1, flag: false }
    }
}

proof fn lemma_first_index(s: Seq<char>, c: char, i: int)
    requires
        0 <= i <= s.len(),
        i < s.len() ==> s[i] == c,
        forall|j: int| 0 <= j < i ==> s[j] != c,
    ensures
        first_index(s, c) == (if i < s.len() {
            Some(i)
        } else {
            None::<int>
        }),
    decreases s.len(),
{
    if s.len() > 0 && i > 0 {
        lemma_first_index(s.skip(1), c, i - 1);
    }
}

proof fn lemma_strip_comment_len(s: Seq<char>)
    ensures
        strip_comment(s).len() <= s.len(),
    decreases s.len(),
{
    lemma_first_index_bound(s, '#');
}

proof fn lemma_first_index_bound(s: Seq<char>, c: char)
    ensures
        first_index(s, c) matches Some(i) ==> 0 <= i < s.len(),
    decreases s.len(),
{
    if s.len() > 0 {
        lemma_first_index_bound(s.skip(1), c);
    }
}

fn strip_comment_exec(s: &Vec<char>) -> (r: Vec<char>)
    ensures
        r@ == strip_comment(s@),
{
    let mut r: Vec<char> = Vec::new();
    let mut i: usize = 0;
    while i < s.len()
        invariant
            i <= s@.len(),
            r@ == s@.take(i as int),
            forall|j: int| 0 <= j < i ==> s@[j] != '#',
        decreases s@.len() - i,
    {
        if s[i] == '#' {
            proof {
                lemma_first_index(s@, '#', i as int);
            }
            return r;
        }
        r.push(s[i]);
        i = i + 1;
        proof {
            assert(r@ =~= s@.take(i as int));
        }
    }
    proof {
        assert(r@ =~= s@);
        lemma_first_index(s@, '#', i as int);
    }
    r
}

fn trim_end_tildes_exec(s: Vec<char>) -> (r: Vec<char>)
    ensures
        r@ == trim_end_tildes(s@),
{
    let mut r = s;
    while r.len() > 0 && r[r.len() - 1] == '~'
        invariant
            trim_end_tildes(r@) == trim_end_tildes(s@),
        decreases r@.len(),
    {
        let ghost before = r@;
        r.pop();
        proof {
            assert(r@ =~= before.drop_last());
        }
    }
    r
}

fn is_blank_exec(s: &Vec<char>) -> (r: bool)
    ensures
        r == is_blank(s@),
{
    let mut i: usize = 0;
    while i < s.len()
        invariant
            i <= s@.len(),
            forall|j: int| 0 <= j < i ==> is_ws(#[trigger] s@[j]),
        decreases s@.len() - i,
    {
        if !is_whitespace(s[i]) {
            return false;
        }
        i = i + 1;
    }
    true
}

fn append_chars(s: &mut String, v: &Vec<char>)
    ensures
        final(s)@ == old(s)@ + v@,
{
    let mut i: usize = 0;
    while i < v.len()
        invariant
            i <= v@.len(),
            s@ == old(s)@ + v@.take(i as int),
        decreases v@.len() - i,
    {
        crate::text::push_char(s, v[i]);
        i = i + 1;
        proof {
            assert(s@ =~= old(s)@ + v@.take(i as int));
        }
    }
    proof {
        assert(v@.take(i as int) =~= v@);
    }
}

/// Prepares one source line: see [`prep_step`].
pub fn prepare_lines_string(
    origin_line: &str,
    true_lines: &mut Vec<PfLine>,
    buff: &mut String,
    flag: &mut bool,
)
    requires
        old(buff)@.len() + origin_line@.len() <= max_text_len(),
    ensures
        ({
            let st = prep_step(
                origin_line@,
                PrepState { lines: pflines_view(old(true_lines)@), buff: old(buff)@, flag: *old(flag) },
            );
            &&& pflines_view(final(true_lines)@) == st.lines
            &&& final(buff)@ == st.buff
            &&& *final(flag) == st.flag
        }),
        final(true_lines)@.len() >= old(true_lines)@.len(),
        final(true_lines)@.subrange(0, old(true_lines)@.len() as int) == old(true_lines)@,
{
    let cs = chars_of(origin_line);
    prepare_line_chars(&cs, true_lines, buff, flag);
}

/// Prepares one source line given as characters: see [`prep_step`].
fn prepare_line_chars(
    cs: &Vec<char>,
    true_lines: &mut Vec<PfLine>,
    buff: &mut String,
    flag: &mut bool,
)
    requires
        old(buff)@.len() + cs@.len() <= max_text_len(),
    ensures
        ({
            let st = prep_step(
                cs@,
                PrepState { lines: pflines_view(old(true_lines)@), buff: old(buff)@, flag: *old(flag) },
            );
            &&& pflines_view(final(true_lines)@) == st.lines
            &&& final(buff)@ == st.buff
            &&& *final(flag) == st.flag
        }),
        final(true_lines)@.len() >= old(true_lines)@.len(),
        final(true_lines)@.subrange(0, old(true_lines)@.len() as int) == old(true_lines)@,
{
    let ghost st = prep_step(
        cs@,
        PrepState { lines: pflines_view(true_lines@), buff: buff@, flag: *flag },
    );
    let line0 = strip_comment_exec(cs);
    let cont = line0.len() > 0 && line0[line0.len() - 1] == '~';
    let line1 = if cont {
        trim_end_tildes_exec(line0)
    } else {
        *flag = true;
        line0
    };
    proof {
        assert(line1@.len() <= cs@.len()) by {
            lemma_strip_comment_len(cs@);
            if cont {
                lemma_trim_len(strip_comment(cs@));
            }
        }
    }
    if is_blank_exec(&line1) {
        proof {
            assert(true_lines@.subrange(0, true_lines@.len() as int) =~= true_lines@);
        }
        return;
    }
    append_chars(buff, &line1);
    if *flag {
        let bc: String = (*buff).clone();
        proof {
            assert(bc@ == old(buff)@ + line1@);
        }
        let pfline = PfLine::new(bc);
        let ghost before = true_lines@;
        let ghost pl = pfline;
        true_lines.push(pfline);
        *buff = String::new();
        *flag = false;
        proof {
            let pv = PfLineV { line: pl.line@, indent: pl.indent };
            assert(pl.line@ == old(buff)@ + line1@);
            assert(pv == pfline_of(old(buff)@ + line1@));
            assert(pflines_view(true_lines@)[before.len() as int] == pv);
            assert(pflines_view(true_lines@) =~= pflines_view(before).push(pfline_of(old(buff)@ + line1@)));
            assert(true_lines@.subrange(0, before.len() as int) =~= before);
        }
    } else {
        proof {
            assert(true_lines@.subrange(0, true_lines@.len() as int) =~= true_lines@);
        }
    }
}

proof fn lemma_trim_len(s: Seq<char>)
    ensures
        trim_end_tildes(s).len() <= s.len(),
    decreases s.len(),
{
    if s.len() > 0 && s.last() == '~' {
        lemma_trim_len(s.drop_last());
    }
}

/// A line without a final carriage return.
pub open spec fn strip_cr(l: Seq<char>) -> Seq<char> {
    if l.len() > 0 && l.last() == '\r' {
        l.drop_last()
    } else {
        l
    }
}

/// The lines of a text as std's `str::lines` gives them: split at `\n`,
/// a `\r` before the `\n` dropped, and no line after a final `\n`.
pub open spec fn split_lines(s: Seq<char>) -> Seq<Seq<char>>
    decreases s.len(),
{
    if s.len() == 0 {
        Seq::empty()
    } else {
        match first_index(s, '\n') {
            None => seq![s],
            Some(i) => {
                if 0 <= i < s.len() {
                    seq![strip_cr(s.take(i))] + split_lines(s.skip(i + 1))
                } else {
                    Seq::empty()
                }
            },
        }
    }
}

/// Line preparation over a list of lines, in order.
pub open spec fn prep_all(lines: Seq<Seq<char>>, st: PrepState) -> PrepState
    decreases lines.len(),
{
    if lines.len() == 0 {
        st
    } else {
        prep_all(lines.skip(1), prep_step(lines[0], st))
    }
}

pub open spec fn prep_start() -> PrepState {
    PrepState { lines: Seq::empty(), buff: Seq::empty(), flag: false }
}

proof fn lemma_prep_step_buff(line: Seq<char>, st: PrepState)
    ensures
        prep_step(line, st).buff.len() <= st.buff.len() + line.len(),
{
    lemma_strip_comment_len(line);
    lemma_trim_len(strip_comment(line));
}

/// The formula lines of a text: see [`prep_step`] and [`split_lines`].
pub fn string_to_pflines(s: &str) -> (r: Vec<PfLine>)
    requires
        s@.len() <= max_text_len(),
    ensures
        pflines_view(r@) == prep_all(split_lines(s@), prep_start()).lines,
{
    let cs = chars_of(s);
    let mut true_lines: Vec<PfLine> = Vec::new();
    let mut buff = String::new();
    let mut flag = false;
    let mut start: usize = 0;
    let n = cs.len();
    proof {
        assert(cs@.skip(0) =~= cs@);
        assert(pflines_view(true_lines@) =~= Seq::<PfLineV>::empty());
    }
    while start < n
        invariant
            n == cs@.len(),
            cs@ == s@,
            n <= max_text_len(),
            start <= n,
            buff@.len() <= start,
            prep_all(split_lines(cs@), prep_start()) == prep_all(
                split_lines(cs@.skip(start as int)),
                PrepState { lines: pflines_view(true_lines@), buff: buff@, flag: flag },
            ),
        decreases n - start,
    {
        let ghost rest = cs@.skip(start as int);
        let mut line: Vec<char> = Vec::new();
        let mut i = start;
        while i < n && cs[i] != '\n'
            invariant
                start <= i <= n,
                n == cs@.len(),
                line@ == cs@.subrange(start as int, i as int),
                forall|j: int| start <= j < i ==> cs@[j] != '\n',
            decreases n - i,
        {
            line.push(cs[i]);
            i = i + 1;
            proof {
                assert(line@ =~= cs@.subrange(start as int, i as int));
            }
        }
        proof {
            lemma_first_index(rest, '\n', i - start);
            assert(rest.take(i - start) =~= line@);
        }
        if i < n {
            if line.len() > 0 && line[line.len() - 1] == '\r' {
                line.pop();
            }
            proof {
                assert(rest.skip(i - start + 1) =~= cs@.skip(i + 1));
            }
        } else {
            proof {
                assert(rest =~= line@);
            }
        }
        let ghost st0 = PrepState { lines: pflines_view(true_lines@), buff: buff@, flag: flag };
        proof {
            lemma_prep_step_buff(line@, st0);
        }
        prepare_line_chars(&line, &mut true_lines, &mut buff, &mut flag);
        proof {
            let ls = split_lines(rest);
            assert(ls.len() > 0);
            assert(ls[0] == line@);
            if i < n {
                assert(ls.skip(1) =~= split_lines(cs@.skip(i + 1)));
            } else {
                assert(ls.skip(1) =~= split_lines(cs@.skip(n as int)));
                assert(cs@.skip(n as int).len() == 0);
            }
        }
        start = if i < n {
            i + 1
        } else {
            n
        };
    }
    proof {
        assert(cs@.skip(start as int).len() == 0);
    }
    true_lines
}

/// The formula of line `k`, or where it failed to read.
pub open spec fn line_formula(lines: Seq<PfLineV>, k: int) -> Result<PFormulaV, ParseError> {
    match g_line(lines[k].line) {
        Ok(f) => Ok(f),
        Err(p) => Err(ParseError::Syntax { line: k as usize, pos: p as usize }),
    }
}

/// `f` with `next` as its following formulas.
pub open spec fn with_next(f: PFormulaV, next: Seq<PFormulaV>) -> PFormulaV {
    PFormulaV {
        quantifier: f.quantifier,
        vars: f.vars,
        conjunct: f.conjunct,
        commands: f.commands,
        next: next,
    }
}

/// The formulas of the lines from `k` on that are indented deeper than the
/// last indentation of `stack`, each with the deeper lines that follow it as
/// its next formulas, and the first line not used. A line that ends the run
/// must be indented as some line of `stack`.
pub open spec fn g_block(lines: Seq<PfLineV>, k: int, stack: Seq<i64>) -> Result<
    (Seq<PFormulaV>, int),
    ParseError,
>
    decreases lines.len() - k, 1int,
{
    if k >= lines.len() {
        Ok((Seq::empty(), k))
    } else {
        g_block_from(lines, k, stack, Seq::empty())
    }
}

/// The run of [`g_block`] from line `k` on, after the formulas `acc`.
pub open spec fn g_block_from(
    lines: Seq<PfLineV>,
    k: int,
    stack: Seq<i64>,
    acc: Seq<PFormulaV>,
) -> Result<(Seq<PFormulaV>, int), ParseError>
    decreases lines.len() - k, 0int,
{
    if !(0 <= k < lines.len()) {
        Ok((acc, k))
    } else if lines[k].indent > stack.last() {
        match line_formula(lines, k) {
            Err(e) => Err(e),
            Ok(f) => if k + 1 >= lines.len() {
                Ok((acc.push(f), k + 1))
            } else {
                match g_block(lines, k + 1, stack.push(lines[k].indent)) {
                    Err(e) => Err(e),
                    Ok((children, k2)) => {
                        let f2 = with_next(f, children);
                        if k2 >= lines.len() {
                            Ok((acc.push(f2), k2))
                        } else if k < k2 {
                            g_block_from(lines, k2, stack, acc.push(f2))
                        } else {
                            Err(ParseError::Indentation { line: k2 as usize })
                        }
                    },
                }
            },
        }
    } else if !stack.contains(lines[k].indent) {
        Err(ParseError::Indentation { line: k as usize })
    } else {
        Ok((acc, k))
    }
}

/// What the block builder gave back, as values.
pub open spec fn block_res_view(r: Result<(Vec<PlainFormula>, usize), ParseError>) -> Result<
    (Seq<PFormulaV>, int),
    ParseError,
> {
    match r {
        Ok((fs, k)) => Ok((pfs_view(fs@), k as int)),
        Err(e) => Err(e),
    }
}

/// A formula tree, or the error, as values.
pub open spec fn tree_res_view(r: Result<PlainFormula, ParseError>) -> Result<PFormulaV, ParseError> {
    match r {
        Ok(f) => Ok(pf_view(f)),
        Err(e) => Err(e),
    }
}

/// The root `!` formula, without variables, conjunct or commands.
pub open spec fn root_v(next: Seq<PFormulaV>) -> PFormulaV {
    PFormulaV {
        quantifier: forall_chars(),
        vars: Seq::empty(),
        conjunct: Seq::empty(),
        commands: Seq::empty(),
        next: next,
    }
}

/// The formula tree of formula lines: the root formula over the formulas
/// of the lines indented deeper than nothing.
pub open spec fn g_tree(lines: Seq<PfLineV>) -> Result<PFormulaV, ParseError> {
    match g_block(lines, 0, seq![-1i64]) {
        Ok((fs, _)) => Ok(root_v(fs)),
        Err(e) => Err(e),
    }
}

/// The formula tree written in a text.
pub open spec fn g_text(s: Seq<char>) -> Result<PFormulaV, ParseError> {
    g_tree(prep_all(split_lines(s), prep_start()).lines)
}

fn stack_contains(stack: &Vec<i64>, x: i64) -> (r: bool)
    ensures
        r == stack@.contains(x),
{
    let mut i: usize = 0;
    while i < stack.len()
        invariant
            i <= stack@.len(),
            forall|j: int| 0 <= j < i ==> stack@[j] != x,
        decreases stack@.len() - i,
    {
        if stack[i] == x {
            return true;
        }
        i = i + 1;
    }
    proof {
        if stack@.contains(x) {
            let j = choose|j: int| 0 <= j < stack@.len() && stack@[j] == x;
            assert(stack@[j] != x);
        }
    }
    false
}

proof fn lemma_block_from_deeper(lines: Seq<PfLineV>, k: int, stack: Seq<i64>, acc: Seq<PFormulaV>)
    requires
        0 <= k < lines.len(),
        lines[k].indent > stack.last(),
    ensures
        g_block_from(lines, k, stack, acc) == match line_formula(lines, k) {
            Err(e) => Err(e),
            Ok(f) => if k + 1 >= lines.len() {
                Ok((acc.push(f), k + 1))
            } else {
                match g_block(lines, k + 1, stack.push(lines[k].indent)) {
                    Err(e) => Err(e),
                    Ok((children, k2)) => if k2 >= lines.len() {
                        Ok((acc.push(with_next(f, children)), k2))
                    } else if k < k2 {
                        g_block_from(lines, k2, stack, acc.push(with_next(f, children)))
                    } else {
                        Err(ParseError::Indentation { line: k2 as usize })
                    },
                }
            },
        },
{
}

/// Builds the formulas of the lines from `k` on that are indented deeper
/// than the last indentation of `stack`, each with the deeper lines that
/// follow it as its next formulas: see [`g_block`].
#[verifier::rlimit(40)]
fn proc(lines: &Vec<PfLine>, k_start: usize, stack: &mut Vec<i64>) -> (r: Result<
    (Vec<PlainFormula>, usize),
    ParseError,
>)
    requires
        k_start <= lines@.len(),
        old(stack)@.len() >= 1,
    ensures
        block_res_view(r) == g_block(pflines_view(lines@), k_start as int, old(stack)@),
        r matches Ok((fs, k2)) ==> {
            &&& k_start <= k2 <= lines@.len()
            &&& forall|i: int| 0 <= i < fs@.len() ==> formula_ok(&#[trigger] fs@[i])
            &&& (k2 < lines@.len() ==> final(stack)@ == old(stack)@.drop_last())
        },
    decreases lines@.len() - k_start,
{
    let ghost lv = pflines_view(lines@);
    let mut res: Vec<PlainFormula> = Vec::new();
    let mut k = k_start;
    let n = lines.len();
    if k >= n {
        proof {
            assert(pfs_view(res@) =~= Seq::<PFormulaV>::empty());
        }
        return Ok((res, k));
    }
    let ghost s0 = stack@;
    let ghost k0 = k;
    proof {
        assert(pfs_view(res@) =~= Seq::<PFormulaV>::empty());
    }
    while lines[k].indent > stack[stack.len() - 1]
        invariant
            n == lines@.len(),
            lv == pflines_view(lines@),
            k0 <= k < n,
            k0 == k_start,
            stack@ == s0,
            s0 == old(stack)@,
            s0.len() >= 1,
            forall|i: int| 0 <= i < res@.len() ==> formula_ok(&#[trigger] res@[i]),
            g_block(lv, k0 as int, s0) == g_block_from(lv, k as int, s0, pfs_view(res@)),
        decreases lines@.len() - k,
    {
        let ghost kk = k;
        let ghost acc = pfs_view(res@);
        proof {
            assert(lv[kk as int].indent == lines@[kk as int].indent);
            assert(lv[kk as int].line == lines@[kk as int].line@);
            lemma_block_from_deeper(lv, kk as int, s0, acc);
        }
        stack.push(lines[k].indent);
        let cs = chars_of_string(&lines[k].line);
        let mut pf = match parse_tqf_line(&cs) {
            Ok(pf) => pf,
            Err(pos) => {
                proof {
                    assert(line_formula(lv, kk as int) == Err::<PFormulaV, ParseError>(
                        ParseError::Syntax { line: kk, pos: pos },
                    ));
                }
                return Err(ParseError::Syntax { line: k, pos: pos });
            },
        };
        proof {
            assert(line_formula(lv, kk as int) == Ok::<PFormulaV, ParseError>(pf_view(pf)));
        }
        k = k + 1;
        if k >= n {
            let ghost r0 = res@;
            res.push(pf);
            proof {
                assert forall|i: int| 0 <= i < res@.len() implies formula_ok(&#[trigger] res@[i]) by {
                    if i < r0.len() {
                        assert(res@[i] == r0[i]);
                    }
                }
                lemma_pfs_view_push(r0, pf);
            }
            return Ok((res, k));
        }
        match proc(lines, k, stack) {
            Err(e) => {
                return Err(e);
            },
            Ok((children, k2)) => {
                let ghost f = pf_view(pf);
                pf.next = children;
                proof {
                    assert(formula_ok(&pf));
                    lemma_pf_view_next(pf);
                    assert(pf_view(pf) == with_next(f, pfs_view(children@)));
                }
                let ghost r0 = res@;
                res.push(pf);
                proof {
                    assert forall|i: int| 0 <= i < res@.len() implies formula_ok(&#[trigger] res@[i]) by {
                        if i < r0.len() {
                            assert(res@[i] == r0[i]);
                        }
                    }
                    lemma_pfs_view_push(r0, pf);
                }
                k = k2;
                if k >= lines.len() {
                    return Ok((res, k));
                }
                proof {
                    assert(stack@ =~= s0);
                }
            },
        }
    }
    proof {
        assert(lv[k as int].indent == lines@[k as int].indent);
    }
    if !stack_contains(stack, lines[k].indent) {
        return Err(ParseError::Indentation { line: k });
    }
    stack.pop();
    Ok((res, k))
}

/// The formula tree of a list of formula lines, under a root `!` formula
/// without variables, conjunct or commands: see [`g_tree`].
pub fn pflines_to_plainformula(pflines: Vec<PfLine>) -> (r: Result<PlainFormula, ParseError>)
    ensures
        tree_res_view(r) == g_tree(pflines_view(pflines@)),
        r matches Ok(pf) ==> {
            &&& formula_ok(&pf)
            &&& pf.quantifier@ == forall_chars()
            &&& pf.vars@.len() == 0
            &&& pf.conjunct@.len() == 0
            &&& pf.commands@.len() == 0
        },
{
    let mut stack: Vec<i64> = Vec::new();
    stack.push(-1);
    proof {
        assert(stack@ =~= seq![-1i64]);
    }
    let next = match proc(&pflines, 0, &mut stack) {
        Ok((fs, _)) => fs,
        Err(e) => {
            return Err(e);
        },
    };
    let pf = PlainFormula::new(str1('!'), Vec::new(), Vec::new(), Vec::new(), next);
    proof {
        assert(formula_ok(&pf));
        lemma_pf_view_next(pf);
        assert(pts_view(pf.vars@) =~= Seq::<PTermV>::empty());
        assert(pf_view(pf) =~= root_v(pfs_view(next@)));
    }
    Ok(pf)
}

/// The formula tree written in the text `s`: see [`g_text`].
pub fn parse_string(s: &str) -> (r: Result<PlainFormula, ParseError>)
    requires
        s@.len() <= max_text_len(),
    ensures
        tree_res_view(r) == g_text(s@),
        r matches Ok(pf) ==> {
            &&& formula_ok(&pf)
            &&& pf.quantifier@ == forall_chars()
            &&& pf.vars@.len() == 0
            &&& pf.conjunct@.len() == 0
            &&& pf.commands@.len() == 0
        },
{
    let pflines = string_to_pflines(s);
    pflines_to_plainformula(pflines)
}

} // verus!
