use vstd::prelude::*;
use crate::plain::{PlainTerm, PlainFormula};
use crate::render::push_all;
use crate::text::{chars_of_string, string_of};

verus! {

/// How a plain term is shown: its symbol, and when it has arguments, each
/// of them followed by a comma, in parentheses.
pub open spec fn plain_term_chars(pt: &PlainTerm) -> Seq<char>
    decreases pt,
{
    if pt.args@.len() == 0 {
        pt.symbol@
    } else {
        pt.symbol@ + seq!['('] + plain_args_chars(pt, pt.args@.len() as int) + seq![')']
    }
}

/// The first `n` arguments of `pt`, each shown and followed by a comma.
pub open spec fn plain_args_chars(pt: &PlainTerm, n: int) -> Seq<char>
    decreases pt, n,
{
    if n <= 0 || n > pt.args@.len() {
        Seq::empty()
    } else {
        plain_args_chars(pt, n - 1) + plain_term_chars(&pt.args@[n - 1]) + seq![',']
    }
}

/// Plain terms, each shown and followed by `after`.
pub open spec fn plain_list_chars(list: Seq<PlainTerm>, after: Seq<char>) -> Seq<char>
    decreases list.len(),
{
    if list.len() == 0 {
        Seq::empty()
    } else {
        plain_list_chars(list.drop_last(), after) + plain_term_chars(&list.last()) + after
    }
}

/// How a plain formula tree is shown: one line per formula (quantifier,
/// variables, two spaces, the conjunct, and `  $  ` with the commands when
/// there are any), the formulas following it indented four more spaces.
pub open spec fn plain_formula_chars(pf: &PlainFormula, tab: Seq<char>) -> Seq<char>
    decreases pf,
{
    tab + pf.quantifier@ + plain_list_chars(pf.vars@, Seq::empty()) + seq![' ', ' '] + plain_list_chars(
        pf.conjunct@,
        seq![','],
    ) + (if pf.commands@.len() > 0 {
        seq![' ', ' ', '$', ' ', ' '] + plain_list_chars(pf.commands@, seq![','])
    } else {
        Seq::empty()
    }) + seq!['\n'] + plain_next_chars(pf, tab + seq![' ', ' ', ' ', ' '], pf.next@.len() as int)
}

/// The first `n` formulas following `pf`, shown with indentation `tab`.
pub open spec fn plain_next_chars(pf: &PlainFormula, tab: Seq<char>, n: int) -> Seq<char>
    decreases pf, n,
{
    if n <= 0 || n > pf.next@.len() {
        Seq::empty()
    } else {
        plain_next_chars(pf, tab, n - 1) + plain_formula_chars(&pf.next@[n - 1], tab)
    }
}

fn push_plain_term(out: &mut Vec<char>, pt: &PlainTerm)
    ensures
        final(out)@ == old(out)@ + plain_term_chars(pt),
    decreases pt,
{
    let sym = chars_of_string(&pt.symbol);
    push_all(out, &sym);
    if pt.args.len() > 0 {
        out.push('(');
        let ghost start = out@;
        let mut i: usize = 0;
        while i < pt.args.len()
            invariant
                i <= pt.args@.len(),
                out@ == start + plain_args_chars(pt, i as int),
            decreases pt.args@.len() - i,
        {
            proof {
                assert(decreases_to!(pt => pt.args@[i as int]));
            }
            push_plain_term(out, &pt.args[i]);
            out.push(',');
            i = i + 1;
            proof {
                assert(out@ =~= start + plain_args_chars(pt, i as int));
            }
        }
        out.push(')');
    }
    proof {
        assert(final(out)@ =~= old(out)@ + plain_term_chars(pt));
    }
}

fn push_plain_list(out: &mut Vec<char>, list: &Vec<PlainTerm>, after: &Vec<char>)
    ensures
        final(out)@ == old(out)@ + plain_list_chars(list@, after@),
{
    let mut i: usize = 0;
    while i < list.len()
        invariant
            i <= list@.len(),
            out@ == old(out)@ + plain_list_chars(list@.take(i as int), after@),
        decreases list@.len() - i,
    {
        push_plain_term(out, &list[i]);
        push_all(out, after);
        proof {
            assert(list@.take(i + 1).drop_last() =~= list@.take(i as int));
            assert(list@.take(i + 1).last() == list@[i as int]);
        }
        i = i + 1;
        proof {
            assert(out@ =~= old(out)@ + plain_list_chars(list@.take(i as int), after@));
        }
    }
    proof {
        assert(list@.take(i as int) =~= list@);
    }
}

/// The first line of `pf`, as [`plain_formula_chars`] shows it.
pub open spec fn plain_line_chars(pf: &PlainFormula, tab: Seq<char>) -> Seq<char> {
    tab + pf.quantifier@ + plain_list_chars(pf.vars@, Seq::empty()) + seq![' ', ' '] + plain_list_chars(
        pf.conjunct@,
        seq![','],
    ) + (if pf.commands@.len() > 0 {
        seq![' ', ' ', '$', ' ', ' '] + plain_list_chars(pf.commands@, seq![','])
    } else {
        Seq::empty()
    }) + seq!['\n']
}

fn push_plain_line(out: &mut Vec<char>, pf: &PlainFormula, tab: &Vec<char>)
    ensures
        final(out)@ == old(out)@ + plain_line_chars(pf, tab@),
{
    push_all(out, tab);
    let q = chars_of_string(&pf.quantifier);
    push_all(out, &q);
    let nothing: Vec<char> = Vec::new();
    let comma = vec![','];
    push_plain_list(out, &pf.vars, &nothing);
    out.push(' ');
    out.push(' ');
    push_plain_list(out, &pf.conjunct, &comma);
    if pf.commands.len() > 0 {
        out.push(' ');
        out.push(' ');
        out.push('$');
        out.push(' ');
        out.push(' ');
        push_plain_list(out, &pf.commands, &comma);
    }
    out.push('\n');
    proof {
        assert(nothing@ =~= Seq::<char>::empty());
        assert(comma@ =~= seq![',']);
        assert(final(out)@ =~= old(out)@ + plain_line_chars(pf, tab@));
    }
}

fn push_plain_formula(out: &mut Vec<char>, pf: &PlainFormula, tab: &Vec<char>)
    ensures
        final(out)@ == old(out)@ + plain_formula_chars(pf, tab@),
    decreases pf,
{
    push_plain_line(out, pf, tab);
    let ghost line_end = out@;
    let mut tab2: Vec<char> = Vec::new();
    push_all(&mut tab2, tab);
    tab2.push(' ');
    tab2.push(' ');
    tab2.push(' ');
    tab2.push(' ');
    proof {
        assert(tab2@ =~= tab@ + seq![' ', ' ', ' ', ' ']);
        assert(out@ =~= line_end + plain_next_chars(pf, tab2@, 0));
    }
    let mut i: usize = 0;
    while i < pf.next.len()
        invariant
            i <= pf.next@.len(),
            out@ == line_end + plain_next_chars(pf, tab2@, i as int),
        decreases pf.next@.len() - i,
    {
        proof {
            assert(decreases_to!(pf => pf.next@[i as int]));
            assert(plain_next_chars(pf, tab2@, i + 1) == plain_next_chars(pf, tab2@, i as int) + plain_formula_chars(
                &pf.next@[i as int],
                tab2@,
            ));
        }
        push_plain_formula(out, &pf.next[i], &tab2);
        i = i + 1;
        proof {
            assert(out@ =~= line_end + plain_next_chars(pf, tab2@, i as int));
        }
    }
    proof {
        assert(plain_formula_chars(pf, tab@) == plain_line_chars(pf, tab@) + plain_next_chars(pf, tab2@, pf.next@.len() as int));
        assert(final(out)@ =~= old(out)@ + plain_formula_chars(pf, tab@));
    }
}

impl PlainTerm {
    /// The text of the term (see [`plain_term_chars`]).
    pub fn text(&self) -> (s: String)
        ensures
            s@ == plain_term_chars(self),
    {
        let mut out: Vec<char> = Vec::new();
        push_plain_term(&mut out, self);
        proof {
            assert(out@ =~= plain_term_chars(self));
        }
        string_of(&out)
    }
}

impl PlainFormula {
    /// The text of the formula tree, each line indented by `tab` (see
    /// [`plain_formula_chars`]).
    pub fn text(&self, tab: &String) -> (s: String)
        ensures
            s@ == plain_formula_chars(self, tab@),
    {
        let mut out: Vec<char> = Vec::new();
        let t = chars_of_string(tab);
        push_plain_formula(&mut out, self, &t);
        proof {
            assert(out@ =~= plain_formula_chars(self, tab@));
        }
        string_of(&out)
    }
}

} // verus!
