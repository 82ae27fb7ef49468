use vstd::prelude::*;

verus! {

/// What happened at one step of the prover: the question answered and the
/// answer taken, and whether the step was completed.
pub struct StepItem {
    pub step: usize,
    pub qid: usize,
    pub answer: String,
    pub completed: bool,
}

/// The steps of a run, in order.
pub struct SolverLog {
    pub log: Vec<StepItem>,
    pub curr_step: usize,
}

impl SolverLog {
    /// The log of no steps.
    pub fn new() -> (l: SolverLog)
        ensures
            l.log@.len() == 0,
            l.curr_step == 0,
    {
        SolverLog { log: Vec::new(), curr_step: 0 }
    }

    /// Starts the record of step `n`, with no question or answer yet.
    pub fn new_step(&mut self, n: usize)
        ensures
            final(self).log@.len() == old(self).log@.len() + 1,
            final(self).log@.take(old(self).log@.len() as int) == old(self).log@,
            final(self).log@.last().step == n,
            final(self).log@.last().qid == 0,
            final(self).log@.last().answer@ == Seq::<char>::empty(),
            !final(self).log@.last().completed,
            final(self).curr_step == old(self).curr_step,
    {
        let ghost l0 = self.log@;
        self.log.push(StepItem { step: n, qid: 0, answer: String::new(), completed: false });
        proof {
            assert(self.log@.take(l0.len() as int) =~= l0);
        }
    }

    /// Records the question and the answer of the current step.
    pub fn set_qa(&mut self, q: usize, a: String)
        requires
            old(self).log@.len() > 0,
        ensures
            final(self).log@.len() == old(self).log@.len(),
            final(self).log@.drop_last() == old(self).log@.drop_last(),
            final(self).log@.last().step == old(self).log@.last().step,
            final(self).log@.last().completed == old(self).log@.last().completed,
            final(self).log@.last().qid == q,
            final(self).log@.last().answer == a,
            final(self).curr_step == old(self).curr_step,
    {
        let ghost l0 = self.log@;
        let mut x = match self.log.pop() {
            Some(x) => x,
            None => {
                return;
            },
        };
        x.qid = q;
        x.answer = a;
        self.log.push(x);
        proof {
            assert(self.log@.drop_last() =~= l0.drop_last());
        }
    }
}

} // verus!
