use vstd::prelude::*;
use crate::misc::Position;
use crate::plain::{PTermV, PFormulaV, leaf_v, infix_v};
use crate::text::is_ws;

verus! {

// The grammar of one formula line, written as functions from a text and a
// position to what is read there and the position after it.
//
//   line       ::= ws ('!' | '?') vars? terms? ('$' terms?)? ws
//   vars       ::= ident (',' ident)* ':'
//   terms      ::= term (',' term)*
//   term       ::= sum (cmp sum)?        cmp ::= '==' | '!=' | '<=' | '>=' | '<' | '>'
//                                               | 'in' | 'notin' | 'subseteq'
//   sum        ::= product (('++' | '+' | '-') product)*       (to the left)
//   product    ::= primary ('*' primary)*                      (to the left)
//   primary    ::= number | string | '(' term ')' | ident '(' ')'
//                | ident '(' term (',' term)* ')' | ident
//
// White space may stand between any two tokens. A reader that loops or
// recurses goes on only from a position past the one it started from,
// which is what makes these definitions terminate.

/// The kinds of characters that make up runs.
#[derive(Copy, Clone, PartialEq, Eq, Structural)]
pub enum CharClass {
    Space,
    IdentChar,
    Digit,
    NotQuote,
}

pub open spec fn ident_start(c: char) -> bool {
    ('a' <= c && c <= 'z') || ('A' <= c && c <= 'Z') || c == '_'
}

pub open spec fn ident_char(c: char) -> bool {
    ident_start(c) || ('0' <= c && c <= '9')
}

pub open spec fn in_class(c: char, k: CharClass) -> bool {
    match k {
        CharClass::Space => is_ws(c),
        CharClass::IdentChar => ident_char(c),
        CharClass::Digit => '0' <= c && c <= '9',
        CharClass::NotQuote => c != '"',
    }
}

/// The end of the run of characters of class `k` that starts at `pos`.
pub open spec fn run_end(s: Seq<char>, pos: int, k: CharClass) -> int
    decreases s.len() - pos,
{
    if 0 <= pos < s.len() && in_class(s[pos], k) {
        run_end(s, pos + 1, k)
    } else {
        pos
    }
}

pub proof fn lemma_run_end(s: Seq<char>, pos: int, k: CharClass)
    ensures
        pos <= run_end(s, pos, k),
        0 <= pos <= s.len() ==> run_end(s, pos, k) <= s.len(),
        forall|i: int| pos <= i < run_end(s, pos, k) ==> in_class(#[trigger] s[i], k),
        0 <= pos <= s.len() && run_end(s, pos, k) < s.len() ==> !in_class(s[run_end(s, pos, k)], k),
    decreases s.len() - pos,
{
    if 0 <= pos < s.len() && in_class(s[pos], k) {
        lemma_run_end(s, pos + 1, k);
    }
}

/// The first position from `pos` on that is not white space.
pub open spec fn ws_end(s: Seq<char>, pos: int) -> int {
    run_end(s, pos, CharClass::Space)
}

/// The identifier at `pos` and the position after it.
pub open spec fn g_ident(s: Seq<char>, pos: int) -> Option<(Seq<char>, int)> {
    if 0 <= pos < s.len() && ident_start(s[pos]) {
        let e = run_end(s, pos + 1, CharClass::IdentChar);
        Some((s.subrange(pos, e), e))
    } else {
        None
    }
}

/// The string literal at `pos`, quotes included, and the position after it.
pub open spec fn g_string(s: Seq<char>, pos: int) -> Option<(Seq<char>, int)> {
    if 0 <= pos < s.len() && s[pos] == '"' {
        let q = run_end(s, pos + 1, CharClass::NotQuote);
        if q < s.len() {
            Some((s.subrange(pos, q + 1), q + 1))
        } else {
            None
        }
    } else {
        None
    }
}

/// The decimal number, with an optional leading `-`, at `pos`, and the
/// position after it.
pub open spec fn g_number(s: Seq<char>, pos: int) -> Option<(Seq<char>, int)> {
    let i = if 0 <= pos < s.len() && s[pos] == '-' {
        pos + 1
    } else {
        pos
    };
    if 0 <= i < s.len() && '0' <= s[i] && s[i] <= '9' {
        let e = run_end(s, i, CharClass::Digit);
        Some((s.subrange(pos, e), e))
    } else {
        None
    }
}

/// A term written `symbol(args)`.
pub open spec fn call_v(symbol: Seq<char>, args: Seq<PTermV>) -> PTermV {
    PTermV { symbol: symbol, args: args, position: Position::Classic, complex: true }
}

/// The primary at `pos` and the position after it, or the position of the
/// problem.
pub open spec fn g_primary(s: Seq<char>, pos: int) -> Result<(PTermV, int), int>
    decreases s.len() - pos, 0int,
{
    let p0 = ws_end(s, pos);
    if p0 >= s.len() {
        Err(p0)
    } else {
        match g_number(s, p0) {
            Some((num, p)) => Ok((leaf_v(num), p)),
            None => match g_string(s, p0) {
                Some((lit, p)) => Ok((leaf_v(lit), p)),
                None => {
                    proof {
                        lemma_run_end(s, pos, CharClass::Space);
                    }
                    if s[p0] == '(' {
                        match g_term(s, p0 + 1) {
                            Ok((t, p1)) => {
                                let p2 = ws_end(s, p1);
                                if p2 < s.len() && s[p2] == ')' {
                                    Ok((t, p2 + 1))
                                } else {
                                    Err(p2)
                                }
                            },
                            Err(e) => Err(e),
                        }
                    } else {
                        match g_ident(s, p0) {
                            None => Err(p0),
                            Some((id, p1)) => {
                                let p2 = ws_end(s, p1);
                                proof {
                                    lemma_run_end(s, p0 + 1, CharClass::IdentChar);
                                    lemma_run_end(s, p1, CharClass::Space);
                                }
                                if p2 < s.len() && s[p2] == '(' {
                                    let p3 = ws_end(s, p2 + 1);
                                    if p3 < s.len() && s[p3] == ')' {
                                        Ok((call_v(id, Seq::empty()), p3 + 1))
                                    } else {
                                        match g_args(s, p2 + 1, Seq::empty()) {
                                            Ok((args, q)) => Ok((call_v(id, args), q)),
                                            Err(e) => Err(e),
                                        }
                                    }
                                } else {
                                    Ok((leaf_v(id), p1))
                                }
                            },
                        }
                    }
                },
            },
        }
    }
}

/// The arguments of a call from `q` on, after those in `acc`, up to and
/// including the closing `)`.
pub open spec fn g_args(s: Seq<char>, q: int, acc: Seq<PTermV>) -> Result<(Seq<PTermV>, int), int>
    decreases s.len() - q, 4int,
{
    match g_term(s, q) {
        Err(e) => Err(e),
        Ok((a, q1)) => {
            let q2 = ws_end(s, q1);
            if q2 < s.len() && s[q2] == ',' {
                if q < q2 + 1 {
                    g_args(s, q2 + 1, acc.push(a))
                } else {
                    Err(q2)
                }
            } else if q2 < s.len() && s[q2] == ')' {
                Ok((acc.push(a), q2 + 1))
            } else {
                Err(q2)
            }
        },
    }
}

/// The product at `pos`.
pub open spec fn g_mul(s: Seq<char>, pos: int) -> Result<(PTermV, int), int>
    decreases s.len() - pos, 1int,
{
    match g_primary(s, pos) {
        Err(e) => Err(e),
        Ok((t, p)) => if pos < p <= s.len() {
            g_mul_rest(s, p, t)
        } else {
            Err(p)
        },
    }
}

/// The rest of a product whose factors so far make `t`, from `p` on.
pub open spec fn g_mul_rest(s: Seq<char>, p: int, t: PTermV) -> Result<(PTermV, int), int>
    decreases s.len() - p, 1int,
{
    let q = ws_end(s, p);
    if q < s.len() && s[q] == '*' {
        proof {
            lemma_run_end(s, p, CharClass::Space);
        }
        match g_primary(s, q + 1) {
            Err(e) => Err(e),
            Ok((b, q1)) => if p < q1 <= s.len() {
                g_mul_rest(s, q1, infix_v(seq!['*'], t, b))
            } else {
                Err(q1)
            },
        }
    } else {
        Ok((t, p))
    }
}

/// The sum at `pos`.
pub open spec fn g_add(s: Seq<char>, pos: int) -> Result<(PTermV, int), int>
    decreases s.len() - pos, 2int,
{
    match g_mul(s, pos) {
        Err(e) => Err(e),
        Ok((t, p)) => if pos < p <= s.len() {
            g_add_rest(s, p, t)
        } else {
            Err(p)
        },
    }
}

/// The rest of a sum whose terms so far make `t`, from `p` on.
pub open spec fn g_add_rest(s: Seq<char>, p: int, t: PTermV) -> Result<(PTermV, int), int>
    decreases s.len() - p, 2int,
{
    let q = ws_end(s, p);
    proof {
        lemma_run_end(s, p, CharClass::Space);
    }
    if q < s.len() && q + 1 < s.len() && s[q] == '+' && s[q + 1] == '+' {
        match g_mul(s, q + 2) {
            Err(e) => Err(e),
            Ok((b, q1)) => if p < q1 <= s.len() {
                g_add_rest(s, q1, infix_v(seq!['+', '+'], t, b))
            } else {
                Err(q1)
            },
        }
    } else if q < s.len() && (s[q] == '+' || s[q] == '-') {
        match g_mul(s, q + 1) {
            Err(e) => Err(e),
            Ok((b, q1)) => if p < q1 <= s.len() {
                g_add_rest(s, q1, infix_v(seq![s[q]], t, b))
            } else {
                Err(q1)
            },
        }
    } else {
        Ok((t, p))
    }
}

/// The comparison operator at `q` and the position after it.
pub open spec fn g_comparison(s: Seq<char>, q: int) -> Option<(Seq<char>, int)> {
    if 0 <= q && q + 1 < s.len() && s[q + 1] == '=' && (s[q] == '=' || s[q] == '!' || s[q] == '<'
        || s[q] == '>') {
        Some((seq![s[q], '='], q + 2))
    } else if 0 <= q < s.len() && (s[q] == '<' || s[q] == '>') {
        Some((seq![s[q]], q + 1))
    } else {
        match g_ident(s, q) {
            Some((id, p)) => if id == seq!['i', 'n'] || id == seq!['n', 'o', 't', 'i', 'n'] || id
                == seq!['s', 'u', 'b', 's', 'e', 't', 'e', 'q'] {
                Some((id, p))
            } else {
                None
            },
            None => None,
        }
    }
}

/// A comparison operator is read as exactly the text it takes up: the
/// operator is the characters from `q` to the position after it, so a
/// two-character operator such as `>=` is never taken for a shorter one.
pub proof fn lemma_comparison_is_its_text(s: Seq<char>, q: int)
    ensures
        g_comparison(s, q) matches Some((op, p)) ==> q < p <= s.len() && op == s.subrange(q, p),
{
    if 0 <= q && q + 1 < s.len() && s[q + 1] == '=' && (s[q] == '=' || s[q] == '!' || s[q] == '<'
        || s[q] == '>') {
        assert(seq![s[q], '='] =~= s.subrange(q, q + 2));
    } else if 0 <= q < s.len() && (s[q] == '<' || s[q] == '>') {
        assert(seq![s[q]] =~= s.subrange(q, q + 1));
    } else if 0 <= q < s.len() && ident_start(s[q]) {
        lemma_run_end(s, q + 1, CharClass::IdentChar);
    }
}

/// The term at `pos`: a sum, or two sums joined by a comparison.
pub open spec fn g_term(s: Seq<char>, pos: int) -> Result<(PTermV, int), int>
    decreases s.len() - pos, 3int,
{
    match g_add(s, pos) {
        Err(e) => Err(e),
        Ok((t, p)) => {
            let q = ws_end(s, p);
            match g_comparison(s, q) {
                Some((op, q1)) => {
                    proof {
                        lemma_run_end(s, p, CharClass::Space);
                    }
                    if pos < p && q < q1 <= s.len() {
                        match g_add(s, q1) {
                            Ok((b, q2)) => Ok((infix_v(op, t, b), q2)),
                            Err(e) => Err(e),
                        }
                    } else {
                        Err(q)
                    }
                },
                None => Ok((t, p)),
            }
        },
    }
}

/// Terms separated by commas from `q` on, after those in `acc`; the
/// position after the last term.
pub open spec fn g_terms(s: Seq<char>, q: int, acc: Seq<PTermV>) -> Result<(Seq<PTermV>, int), int>
    decreases s.len() - q,
{
    match g_term(s, q) {
        Err(e) => Err(e),
        Ok((t, q1)) => {
            let q2 = ws_end(s, q1);
            if q2 < s.len() && s[q2] == ',' {
                if q < q2 + 1 {
                    g_terms(s, q2 + 1, acc.push(t))
                } else {
                    Err(q2)
                }
            } else {
                Ok((acc.push(t), q1))
            }
        },
    }
}

/// Names separated by commas and ended by `:` from `q` on, after those in
/// `acc`; the position after the `:`.
pub open spec fn g_vars(s: Seq<char>, q: int, acc: Seq<PTermV>) -> Option<(Seq<PTermV>, int)>
    decreases s.len() - q,
{
    let q0 = ws_end(s, q);
    match g_ident(s, q0) {
        None => None,
        Some((id, q1)) => {
            let q2 = ws_end(s, q1);
            proof {
                lemma_run_end(s, q, CharClass::Space);
                lemma_run_end(s, q0 + 1, CharClass::IdentChar);
                lemma_run_end(s, q1, CharClass::Space);
            }
            if q2 < s.len() && s[q2] == ',' {
                g_vars(s, q2 + 1, acc.push(leaf_v(id)))
            } else if q2 < s.len() && s[q2] == ':' {
                Some((acc.push(leaf_v(id)), q2 + 1))
            } else {
                None
            }
        },
    }
}

/// The conjunct of a line from `p` on: none where the text ends or `$`
/// follows, else terms separated by commas.
pub open spec fn g_conjunct(s: Seq<char>, p: int) -> Result<(Seq<PTermV>, int), int> {
    let q = ws_end(s, p);
    if q < s.len() && s[q] != '$' {
        g_terms(s, q, Seq::empty())
    } else {
        Ok((Seq::empty(), p))
    }
}

/// The commands of a line from `p` on: those after a `$`, if one follows.
pub open spec fn g_commands(s: Seq<char>, p: int) -> Result<(Seq<PTermV>, int), int> {
    let q = ws_end(s, p);
    if q < s.len() && s[q] == '$' {
        let q1 = ws_end(s, q + 1);
        if q1 < s.len() {
            g_terms(s, q1, Seq::empty())
        } else {
            Ok((Seq::empty(), q1))
        }
    } else {
        Ok((Seq::empty(), p))
    }
}

/// The formula of one line (without following formulas), or the position of
/// the problem.
pub open spec fn g_line(s: Seq<char>) -> Result<PFormulaV, int> {
    let p0 = ws_end(s, 0);
    if p0 >= s.len() || (s[p0] != '!' && s[p0] != '?') {
        Err(p0)
    } else {
        let (vars, p1) = match g_vars(s, p0 + 1, Seq::empty()) {
            Some((vs, p)) => (vs, p),
            None => (Seq::empty(), p0 + 1),
        };
        match g_conjunct(s, p1) {
            Err(e) => Err(e),
            Ok((conj, p2)) => match g_commands(s, p2) {
                Err(e) => Err(e),
                Ok((cmds, p3)) => {
                    let q = ws_end(s, p3);
                    if q < s.len() {
                        Err(q)
                    } else {
                        Ok(
                            PFormulaV {
                                quantifier: seq![s[p0]],
                                vars: vars,
                                conjunct: conj,
                                commands: cmds,
                                next: Seq::empty(),
                            },
                        )
                    }
                },
            },
        }
    }
}

} // verus!
