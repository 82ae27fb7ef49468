use vstd::prelude::*;

verus! {

/// Identifier of a symbol in the symbol table of [`crate::term::PSTerms`].
#[derive(Copy, Clone, PartialEq, Eq, Structural, Hash, Debug)]
pub struct SymbolId(pub usize);

/// Identifier of a term in the term table of [`crate::term::PSTerms`].
#[derive(Copy, Clone, PartialEq, Eq, Structural, Hash, Debug)]
pub struct TermId(pub usize);

/// Identifier of a typed quantifier formula (a node of the formula tree).
#[derive(Copy, Clone, PartialEq, Eq, Structural, Hash, Debug)]
pub struct TqfId(pub usize);

/// Position of an atom inside a conjunct.
pub struct ConjunctIndex(pub usize);

/// Identifier of a question.
#[derive(Copy, Clone, PartialEq, Eq, Structural, Hash, Debug)]
pub struct QuestionId(pub usize);

/// An answer: the question it answers and its position among that question's answers.
#[derive(Copy, Clone, PartialEq, Eq, Structural, Hash, Debug)]
pub struct AnswerId(pub usize, pub usize);

/// Identifier of a branch block of the proof search.
#[derive(Copy, Clone, PartialEq, Eq, Structural, Hash, Debug)]
pub struct BlockId(pub usize);

#[derive(Copy, Clone, PartialEq, Eq, Structural, Debug)]
pub enum Quantifier {
    Forall,
    Exists,
}

#[derive(Copy, Clone, PartialEq, Eq, Structural, Debug)]
pub enum DisplayMode {
    Plain,
    PlainSid,
    PlainSidTid,
}

/// How a functor is written: `f(a, b)` or `a f b`.
#[derive(Copy, Clone, PartialEq, Eq, Structural, Debug)]
pub enum Position {
    Classic,
    Infix,
}

/// Result of rewriting a term: the term was created, was already there,
/// or could not be computed.
#[derive(Copy, Clone, PartialEq, Eq, Structural, Debug)]
pub enum ProcessingResult {
    New(TermId),
    Existing(TermId),
    Error,
}

impl ProcessingResult {
    /// The term identifier carried by a successful result.
    pub fn unwrap(&self) -> (tid: TermId)
        requires
            !(*self is Error),
        ensures
            *self == ProcessingResult::New(tid) || *self == ProcessingResult::Existing(tid),
    {
        match self {
            ProcessingResult::New(tid) => *tid,
            ProcessingResult::Existing(tid) => *tid,
            ProcessingResult::Error => {
                proof {
                    assert(false);
                }
                TermId(0)
            },
        }
    }
}

} // verus!
