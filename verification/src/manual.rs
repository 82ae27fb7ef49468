use vstd::prelude::*;
use crate::text::{is_ws, is_whitespace, is_digit, all_digits, digits_value, string_of};

verus! {

/// `s` without its leading white space.
pub open spec fn ltrim(s: Seq<char>) -> Seq<char>
    decreases s.len(),
{
    if s.len() > 0 && is_ws(s[0]) {
        ltrim(s.drop_first())
    } else {
        s
    }
}

/// `s` without its trailing white space.
pub open spec fn rtrim(s: Seq<char>) -> Seq<char>
    decreases s.len(),
{
    if s.len() > 0 && is_ws(s.last()) {
        rtrim(s.drop_last())
    } else {
        s
    }
}

/// `s` without leading and trailing white space, as std's `str::trim` gives it.
pub open spec fn trimmed(s: Seq<char>) -> Seq<char> {
    rtrim(ltrim(s))
}

proof fn lemma_ltrim_skip(s: Seq<char>, i: int)
    requires
        0 <= i <= s.len(),
        forall|j: int| 0 <= j < i ==> is_ws(#[trigger] s[j]),
    ensures
        ltrim(s) == ltrim(s.skip(i)),
    decreases i,
{
    if i > 0 {
        assert(s.drop_first().skip(i - 1) =~= s.skip(i));
        assert forall|j: int| 0 <= j < i - 1 implies is_ws(#[trigger] s.drop_first()[j]) by {
            assert(s.drop_first()[j] == s[j + 1]);
        }
        lemma_ltrim_skip(s.drop_first(), i - 1);
    } else {
        assert(s.skip(0) =~= s);
    }
}

proof fn lemma_rtrim_take(s: Seq<char>, k: int)
    requires
        0 <= k <= s.len(),
        forall|j: int| k <= j < s.len() ==> is_ws(#[trigger] s[j]),
    ensures
        rtrim(s) == rtrim(s.take(k)),
    decreases s.len() - k,
{
    if k < s.len() {
        assert(s.drop_last().take(k) =~= s.take(k));
        assert(is_ws(s[s.len() - 1]));
        lemma_rtrim_take(s.drop_last(), k);
    } else {
        assert(s.take(k) =~= s);
    }
}

/// The characters of `s` without leading and trailing white space.
pub fn trim_chars(s: &Vec<char>) -> (r: Vec<char>)
    ensures
        r@ == trimmed(s@),
{
    let n = s.len();
    let mut a: usize = 0;
    while a < n && is_whitespace(s[a])
        invariant
            n == s@.len(),
            a <= n,
            forall|j: int| 0 <= j < a ==> is_ws(#[trigger] s@[j]),
        decreases n - a,
    {
        a = a + 1;
    }
    proof {
        lemma_ltrim_skip(s@, a as int);
        assert(ltrim(s@.skip(a as int)) == s@.skip(a as int));
    }
    let mut b: usize = n;
    while b > a && is_whitespace(s[b - 1])
        invariant
            n == s@.len(),
            a <= b <= n,
            forall|j: int| b <= j < n ==> is_ws(#[trigger] s@[j]),
        decreases b,
    {
        b = b - 1;
    }
    let mut r: Vec<char> = Vec::new();
    let mut i: usize = a;
    while i < b
        invariant
            a <= i <= b,
            b <= s@.len(),
            r@ == s@.subrange(a as int, i as int),
        decreases b - i,
    {
        r.push(s[i]);
        i = i + 1;
        proof {
            assert(r@ =~= s@.subrange(a as int, i as int));
        }
    }
    proof {
        let t = s@.skip(a as int);
        assert forall|j: int| b - a <= j < t.len() implies is_ws(#[trigger] t[j]) by {
            assert(t[j] == s@[a + j]);
        }
        lemma_rtrim_take(t, b - a);
        assert(t.take(b - a) =~= r@);
        if b > a {
            assert(r@.last() == s@[b - 1]);
        } else {
            assert(r@.len() == 0);
        }
        assert(rtrim(r@) == r@);
    }
    r
}

/// The pieces of `s` between commas, as std's `str::split(",")` gives them.
pub open spec fn split_commas(s: Seq<char>) -> Seq<Seq<char>>
    decreases s.len(),
{
    if s.len() == 0 {
        seq![Seq::empty()]
    } else {
        let pre = split_commas(s.drop_last());
        if s.last() == ',' {
            pre.push(Seq::empty())
        } else {
            pre.update(pre.len() - 1, pre.last().push(s.last()))
        }
    }
}

proof fn lemma_split_nonempty(s: Seq<char>)
    ensures
        split_commas(s).len() >= 1,
    decreases s.len(),
{
    if s.len() > 0 {
        lemma_split_nonempty(s.drop_last());
    }
}

/// The pieces of `s` between commas.
pub fn split_commas_exec(s: &Vec<char>) -> (r: Vec<Vec<char>>)
    ensures
        r@.len() == split_commas(s@).len(),
        forall|i: int| 0 <= i < r@.len() ==> (#[trigger] r@[i])@ == split_commas(s@)[i],
{
    let mut parts: Vec<Vec<char>> = Vec::new();
    let mut cur: Vec<char> = Vec::new();
    let mut i: usize = 0;
    proof {
        assert(s@.take(0) =~= Seq::<char>::empty());
    }
    while i < s.len()
        invariant
            i <= s@.len(),
            parts@.len() + 1 == split_commas(s@.take(i as int)).len(),
            forall|k: int| 0 <= k < parts@.len() ==> (#[trigger] parts@[k])@ == split_commas(s@.take(i as int))[k],
            cur@ == split_commas(s@.take(i as int)).last(),
        decreases s@.len() - i,
    {
        proof {
            assert(s@.take(i + 1).drop_last() =~= s@.take(i as int));
            assert(s@.take(i + 1).last() == s@[i as int]);
            lemma_split_nonempty(s@.take(i as int));
        }
        if s[i] == ',' {
            parts.push(cur);
            cur = Vec::new();
            proof {
                assert(cur@ =~= Seq::<char>::empty());
            }
        } else {
            cur.push(s[i]);
        }
        i = i + 1;
    }
    proof {
        assert(s@.take(i as int) =~= s@);
    }
    parts.push(cur);
    r_from(parts)
}

fn r_from(parts: Vec<Vec<char>>) -> (r: Vec<Vec<char>>)
    ensures
        r@ == parts@,
{
    parts
}

/// What std's `str::parse::<usize>` gives for `s`: an optional `+`
/// followed by at least one decimal digit, with a value that fits.
pub open spec fn spec_parse_usize(s: Seq<char>) -> Option<usize> {
    let body = if s.len() > 0 && s[0] == '+' {
        s.skip(1)
    } else {
        s
    };
    if body.len() > 0 && all_digits(body) && digits_value(body) <= usize::MAX {
        Some(digits_value(body) as usize)
    } else {
        None
    }
}

proof fn lemma_digits_mono(s: Seq<char>, i: int)
    requires
        all_digits(s),
        0 <= i <= s.len(),
    ensures
        digits_value(s.take(i)) <= digits_value(s),
        digits_value(s.take(i)) >= 0,
    decreases s.len(),
{
    if i < s.len() {
        lemma_digits_mono(s.drop_last(), i);
        assert(s.drop_last().take(i) =~= s.take(i));
        lemma_digits_mono(s.drop_last(), s.len() - 1);
        assert(s.drop_last().take(s.len() - 1) =~= s.drop_last());
        assert(is_digit(s[s.len() - 1]));
    } else {
        assert(s.take(i) =~= s);
        if s.len() > 0 {
            lemma_digits_mono(s.drop_last(), s.len() - 1);
            assert(s.drop_last().take(s.len() - 1) =~= s.drop_last());
            assert(is_digit(s[s.len() - 1]));
        }
    }
}

/// Reads a decimal number as std's `str::parse::<usize>` does.
pub fn parse_usize(s: &Vec<char>) -> (r: Option<usize>)
    ensures
        r == spec_parse_usize(s@),
{
    let n = s.len();
    let start: usize = if n > 0 && s[0] == '+' {
        1
    } else {
        0
    };
    let ghost body = s@.skip(start as int);
    proof {
        assert(s@.skip(0) =~= s@);
    }
    if start >= n {
        return None;
    }
    let mut acc: u128 = 0;
    let mut i: usize = start;
    while i < n
        invariant
            start <= i <= n,
            n == s@.len(),
            start == (if s@.len() > 0 && s@[0] == '+' {
                1usize
            } else {
                0usize
            }),
            s@.skip(0) == s@,
            body == s@.skip(start as int),
            all_digits(body.take(i - start)),
            acc as int == digits_value(body.take(i - start)),
            acc <= usize::MAX,
        decreases n - i,
    {
        let c = s[i];
        if !('0' <= c && c <= '9') {
            proof {
                assert(body[i - start] == c);
                assert(!is_digit(body[i - start]));
                assert(!all_digits(body));
            }
            return None;
        }
        let d = (c as u32 - '0' as u32) as u128;
        proof {
            assert(body.take(i - start + 1).drop_last() =~= body.take(i - start));
            assert(body.take(i - start + 1).last() == c);
        }
        let next = acc * 10 + d;
        proof {
            assert(digits_value(body.take(i - start + 1)) == next as int);
        }
        if next > usize::MAX as u128 {
            proof {
                assert(all_digits(body.take(i - start + 1)));
                if all_digits(body) {
                    lemma_digits_mono(body, i - start + 1);
                }
            }
            return None;
        }
        acc = next;
        i = i + 1;
    }
    proof {
        assert(body.take(i - start) =~= body);
    }
    Some(acc as usize)
}

/// What a line typed to list questions means.
#[derive(Clone, PartialEq, Eq, Debug)]
pub enum QuestionsInput {
    /// `q`: the user quits.
    Quit,
    /// The questions to try, in order.
    List(Vec<usize>),
    /// A question number above the last question.
    OutOfRange(usize),
    /// An item that is not a number (as typed, between commas).
    Invalid(String),
}

/// The numbers `0..=qlen` not in `acc`, ascending.
pub open spec fn missing(acc: Seq<usize>, qlen: usize) -> Seq<usize> {
    Seq::new((qlen + 1) as nat, |r: int| r as usize).filter(|r: usize| !acc.contains(r))
}

/// The meaning of the items from place `i` on, the numbers before them
/// being `acc`: each item, trimmed, is a question number at most `qlen`;
/// a last item `..` adds, ascending, every question not listed yet.
pub open spec fn list_meaning(items: Seq<Seq<char>>, i: int, qlen: usize, acc: Seq<usize>) -> (Seq<usize>, Option<(bool, usize, Seq<char>)>)
    decreases items.len() - i,
{
    if i >= items.len() {
        (acc, None)
    } else if i == items.len() - 1 && trimmed(items[i]) == seq!['.', '.'] {
        (acc + missing(acc, qlen), None)
    } else {
        match spec_parse_usize(trimmed(items[i])) {
            Some(v) => if v > qlen {
                (acc, Some((true, v, items[i])))
            } else {
                list_meaning(items, i + 1, qlen, acc.push(v))
            },
            None => (acc, Some((false, 0, items[i]))),
        }
    }
}

/// The meaning of a typed line listing questions `0..=qlen`: `q` quits;
/// otherwise the comma-separated items of the trimmed line are read as
/// [`list_meaning`] says.
pub open spec fn questions_meaning(line: Seq<char>, qlen: usize) -> QuestionsInputV {
    let t = trimmed(line);
    if t == seq!['q'] {
        QuestionsInputV::Quit
    } else {
        let m = list_meaning(split_commas(t), 0, qlen, Seq::empty());
        match m.1 {
            None => QuestionsInputV::List(m.0),
            Some((true, v, _)) => QuestionsInputV::OutOfRange(v),
            Some((false, _, x)) => QuestionsInputV::Invalid(x),
        }
    }
}

/// [`QuestionsInput`] with sequences.
pub enum QuestionsInputV {
    Quit,
    List(Seq<usize>),
    OutOfRange(usize),
    Invalid(Seq<char>),
}

impl View for QuestionsInput {
    type V = QuestionsInputV;

    open spec fn view(&self) -> QuestionsInputV {
        match self {
            QuestionsInput::Quit => QuestionsInputV::Quit,
            QuestionsInput::List(v) => QuestionsInputV::List(v@),
            QuestionsInput::OutOfRange(n) => QuestionsInputV::OutOfRange(*n),
            QuestionsInput::Invalid(s) => QuestionsInputV::Invalid(s@),
        }
    }
}

fn is_dots(t: &Vec<char>) -> (r: bool)
    ensures
        r == (t@ == seq!['.', '.']),
{
    let r = t.len() == 2 && t[0] == '.' && t[1] == '.';
    proof {
        if t@.len() == 2 && t@[0] == '.' && t@[1] == '.' {
            assert(t@ =~= seq!['.', '.']);
        }
    }
    r
}

fn contains_usize(v: &Vec<usize>, x: usize) -> (r: bool)
    ensures
        r == v@.contains(x),
{
    let mut i: usize = 0;
    while i < v.len()
        invariant
            i <= v@.len(),
            forall|j: int| 0 <= j < i ==> v@[j] != x,
        decreases v@.len() - i,
    {
        if v[i] == x {
            return true;
        }
        i = i + 1;
    }
    false
}

/// Adds, ascending, each of `0..=qlen` that `acc` lacks.
fn add_missing(acc: &mut Vec<usize>, qlen: usize)
    ensures
        final(acc)@ == old(acc)@ + missing(old(acc)@, qlen),
{
    let ghost a0 = acc@;
    let ghost pred = |x: usize| !a0.contains(x);
    let ghost all = Seq::new((qlen + 1) as nat, |x: int| x as usize);
    let mut orig: Vec<usize> = Vec::new();
    let mut j: usize = 0;
    while j < acc.len()
        invariant
            acc@ == a0,
            j <= a0.len(),
            orig@ == a0.take(j as int),
        decreases a0.len() - j,
    {
        orig.push(acc[j]);
        j = j + 1;
        proof {
            assert(orig@ =~= a0.take(j as int));
        }
    }
    proof {
        assert(a0.take(j as int) =~= a0);
        assert(all.take(0) =~= Seq::<usize>::empty());
        assert(Seq::<usize>::empty().filter(pred) =~= Seq::<usize>::empty());
        assert(acc@ =~= a0 + all.take(0).filter(pred));
    }
    let mut r: u128 = 0;
    while r <= qlen as u128
        invariant
            r <= qlen + 1,
            orig@ == a0,
            pred == (|x: usize| !a0.contains(x)),
            all == Seq::new((qlen + 1) as nat, |x: int| x as usize),
            acc@ == a0 + all.take(r as int).filter(pred),
        decreases qlen + 1 - r,
    {
        let v = r as usize;
        proof {
            assert(all[r as int] == v);
            assert(all.take(r + 1) =~= all.take(r as int).push(v));
            all.take(r as int).lemma_filter_push(v, pred);
        }
        if !contains_usize(&orig, v) {
            acc.push(v);
        }
        proof {
            assert(acc@ =~= a0 + all.take(r + 1).filter(pred));
        }
        r = r + 1;
    }
    proof {
        assert(all.take(r as int) =~= all);
    }
}

/// Reads a line typed to list the questions to try among `0..=qlen`.
pub fn parse_questions_list(line: &str, qlen: usize) -> (r: QuestionsInput)
    ensures
        r@ == questions_meaning(line@, qlen),
{
    let cs = crate::text::chars_of(line);
    let t = trim_chars(&cs);
    if t.len() == 1 && t[0] == 'q' {
        proof {
            assert(t@ =~= seq!['q']);
        }
        return QuestionsInput::Quit;
    }
    proof {
        if t@ == seq!['q'] {
            assert(t@.len() == 1);
        }
    }
    let items = split_commas_exec(&t);
    let ghost its = split_commas(t@);
    proof {
        assert(items@.len() == its.len());
    }
    let mut acc: Vec<usize> = Vec::new();
    let mut i: usize = 0;
    while i < items.len()
        invariant
            trimmed(line@) == t@,
            t@ != seq!['q'],
            its == split_commas(t@),
            items@.len() == its.len(),
            forall|k: int| 0 <= k < items@.len() ==> (#[trigger] items@[k])@ == its[k],
            i <= items@.len(),
            list_meaning(its, i as int, qlen, acc@) == list_meaning(its, 0, qlen, Seq::empty()),
        decreases items@.len() - i,
    {
        let x = trim_chars(&items[i]);
        if i == items.len() - 1 && is_dots(&x) {
            add_missing(&mut acc, qlen);
            return QuestionsInput::List(acc);
        }
        match parse_usize(&x) {
            Some(v) => {
                if v > qlen {
                    return QuestionsInput::OutOfRange(v);
                }
                acc.push(v);
            },
            None => {
                return QuestionsInput::Invalid(string_of(&items[i]));
            },
        }
        i = i + 1;
    }
    QuestionsInput::List(acc)
}

/// What a line typed to accept an answer means.
#[derive(Copy, Clone, PartialEq, Eq, Structural, Debug)]
pub enum AcceptInput {
    Yes,
    No,
    Quit,
    Again,
}

/// `y` accepts, `n` rejects, `q` quits (all trimmed); anything else asks again.
pub open spec fn accept_meaning(line: Seq<char>) -> AcceptInput {
    let t = trimmed(line);
    if t == seq!['y'] {
        AcceptInput::Yes
    } else if t == seq!['n'] {
        AcceptInput::No
    } else if t == seq!['q'] {
        AcceptInput::Quit
    } else {
        AcceptInput::Again
    }
}

/// Reads a line typed to accept or reject an answer.
pub fn parse_accept(line: &str) -> (r: AcceptInput)
    ensures
        r == accept_meaning(line@),
{
    let t = trim_chars(&crate::text::chars_of(line));
    if t.len() == 1 {
        proof {
            assert(t@ =~= seq![t@[0]]);
        }
        if t[0] == 'y' {
            return AcceptInput::Yes;
        } else if t[0] == 'n' {
            return AcceptInput::No;
        } else if t[0] == 'q' {
            return AcceptInput::Quit;
        }
    }
    proof {
        if t@ == seq!['y'] || t@ == seq!['n'] || t@ == seq!['q'] {
            assert(t@.len() == 1);
        }
    }
    AcceptInput::Again
}

/// What a line typed to pick an answer among `count` means.
#[derive(Clone, PartialEq, Eq, Debug)]
pub enum PickInput {
    /// The answer at this place.
    Pick(usize),
    /// `n`: none of them.
    Decline,
    /// `q`: the user quits.
    Quit,
    /// A number that is not the place of an answer.
    OutOfRange(usize),
    /// Not a number.
    Invalid,
}

/// `n` declines, `q` quits (trimmed); a number below `count` picks that
/// answer; another number is out of range; anything else is invalid.
pub open spec fn pick_meaning(line: Seq<char>, count: usize) -> PickInput {
    let t = trimmed(line);
    if t == seq!['n'] {
        PickInput::Decline
    } else if t == seq!['q'] {
        PickInput::Quit
    } else {
        match spec_parse_usize(t) {
            Some(v) => if v < count {
                PickInput::Pick(v)
            } else {
                PickInput::OutOfRange(v)
            },
            None => PickInput::Invalid,
        }
    }
}

/// Reads a line typed to pick one of `count` answers.
pub fn parse_pick(line: &str, count: usize) -> (r: PickInput)
    ensures
        r == pick_meaning(line@, count),
{
    let t = trim_chars(&crate::text::chars_of(line));
    if t.len() == 1 {
        proof {
            assert(t@ =~= seq![t@[0]]);
        }
        if t[0] == 'n' {
            return PickInput::Decline;
        } else if t[0] == 'q' {
            return PickInput::Quit;
        }
    }
    proof {
        if t@ == seq!['n'] || t@ == seq!['q'] {
            assert(t@.len() == 1);
        }
    }
    match parse_usize(&t) {
        Some(v) => if v < count {
            PickInput::Pick(v)
        } else {
            PickInput::OutOfRange(v)
        },
        None => PickInput::Invalid,
    }
}

} // verus!
