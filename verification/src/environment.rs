use vstd::prelude::*;
use crate::misc::BlockId;
use crate::term::PSTerms;
use crate::base::Base;
use crate::attributes::Attributes;

verus! {

/// What interpreted functions read and change: the term tables, the base
/// of facts, the attributes of facts, and the block on whose behalf they
/// run.
pub struct PEnv {
    pub psterms: PSTerms,
    pub base: Base,
    pub attributes: Attributes,
    pub bid: BlockId,
}

/// The environment invariant: the term tables are well formed and hold the
/// two boolean constants, and the base is well formed.
pub open spec fn env_ok(e: &PEnv) -> bool {
    &&& e.psterms@.wf()
    &&& e.psterms@.has_booleans()
    &&& e.base.wf()
}

/// What lies outside the prover: files, and the user who picks questions
/// and answers when the search is manual.  Nothing is assumed of what these
/// methods return; the prover checks every value it gets from them.
pub trait Host {
    /// The contents of the file at `path`, or `None` when it cannot be read.
    fn read_file(&mut self, path: &String) -> Option<String>;

    /// Whether the user accepts the answer shown as `answer`.
    fn accept(&mut self, answer: &String) -> bool;

    /// The place, among `answers`, of the answer the user picks, or `None`.
    fn pick(&mut self, answers: &Vec<String>) -> Option<usize>;

    /// The questions to try, in order, when there are `qlen` of them.
    fn questions(&mut self, qlen: usize) -> Vec<usize>;
}

/// A host with no files that accepts every answer, picks the first one,
/// and tries the questions in their order.
pub struct Unattended;

impl Host for Unattended {
    fn read_file(&mut self, path: &String) -> (r: Option<String>)
        ensures
            r is None,
    {
        None
    }

    fn accept(&mut self, answer: &String) -> (r: bool)
        ensures
            r,
    {
        true
    }

    fn pick(&mut self, answers: &Vec<String>) -> (r: Option<usize>)
        ensures
            r == (if answers@.len() > 0 { Some(0usize) } else { None::<usize> }),
    {
        if answers.len() > 0 {
            Some(0)
        } else {
            None
        }
    }

    fn questions(&mut self, qlen: usize) -> (r: Vec<usize>)
        ensures
            r@.len() == qlen,
            forall|k: int| 0 <= k < qlen ==> r@[k] == k,
    {
        let mut v: Vec<usize> = Vec::new();
        let mut i: usize = 0;
        while i < qlen
            invariant
                i <= qlen,
                v@.len() == i,
                forall|k: int| 0 <= k < i ==> v@[k] == k,
            decreases qlen - i,
        {
            v.push(i);
            i = i + 1;
        }
        v
    }
}

} // verus!
