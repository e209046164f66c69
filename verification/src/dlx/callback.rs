//! What the search tells its caller, and a callback that collects the
//! solutions.

use vstd::prelude::*;
use crate::dlx::dlx_m::Matrix;
use crate::dlx::search::{Call, picks};

verus! {

/// An interface of callback objects to pass to the search.
///
/// The search hands the matrix to each hook so that the hook can ask for a
/// stop. A hook leaves the matrix as it is, and does not take back a stop
/// that was asked for.
pub trait Callback {
    /// The calls of the hooks so far, first to last. A callback that keeps
    /// no record of them has to say here what it would hold if it did.
    open spec fn calls(&self) -> Seq<Call> {
        arbitrary()
    }

    /// The callback asks for no stop, now or later.
    open spec fn quiet(&self) -> bool {
        false
    }

    /// Takes a solution: a copy of the numbers of the chosen rows, in the
    /// order in which the search chose them. No stop is asked for when it
    /// is called.
    fn on_solution(&mut self, sol: Vec<usize>, mat: &mut Matrix)
        requires
            sol@ == old(mat)@.sol,
            old(mat)@.is_cover(sol@),
            !old(mat).aborted(),
        ensures
            final(mat)@ == old(mat)@,
            final(self).calls() == old(self).calls().push(Call::Solution(sol@, final(mat).aborted())),
            old(self).quiet() ==> final(self).quiet() && !final(mat).aborted(),
    ;

    /// Called at every step of the search.
    fn on_iteration(&mut self, mat: &mut Matrix)
        ensures
            final(mat)@ == old(mat)@,
            old(mat).aborted() ==> final(mat).aborted(),
            final(self).calls() == old(self).calls().push(Call::Iteration(old(mat).aborted(), final(mat).aborted())),
            old(self).quiet() ==> final(self).quiet() && final(mat).aborted() == old(mat).aborted(),
    ;

    /// Called when the search has seen that a stop was asked for.
    fn on_abort(&mut self, mat: &mut Matrix)
        requires
            old(mat).aborted(),
        ensures
            final(mat)@ == old(mat)@,
            final(mat).aborted(),
            final(self).calls() == old(self).calls().push(Call::Abort),
            old(self).quiet() ==> final(self).quiet(),
    ;

    /// Called when the search has come to its end without a stop.
    fn on_finish(&mut self)
        ensures
            final(self).calls() == old(self).calls().push(Call::Finish),
            old(self).quiet() ==> final(self).quiet(),
    ;
}

/// Calls with the solutions of `sols`, one after the other.
pub open spec fn told(sols: Seq<Seq<usize>>) -> Seq<Call> {
    Seq::new(sols.len(), |i: int| Call::Solution(sols[i], false))
}

/// The solutions among calls with solutions are those solutions.
pub proof fn lemma_told(sols: Seq<Seq<usize>>)
    ensures
        picks(told(sols)) == sols,
    decreases sols.len(),
{
    if sols.len() > 0 {
        lemma_told(sols.drop_last());
        assert(told(sols).drop_last() =~= told(sols.drop_last()));
        assert(picks(told(sols)) =~= sols);
    } else {
        assert(picks(told(sols)) =~= sols);
    }
}

/// A simple callback that just collects solutions into a vector.
pub struct SolutionCallback {
    pub solutions: Vec<Vec<usize>>,
    /// The calls of the hooks so far.
    pub record: Ghost<Seq<Call>>,
}

impl SolutionCallback {
    /// The solutions that were collected.
    pub open spec fn collected(&self) -> Seq<Seq<usize>> {
        Seq::new(self.solutions@.len(), |i: int| self.solutions@[i]@)
    }

    /// The solutions that were collected are the solutions that the hooks
    /// were called with.
    pub proof fn lemma_collected(&self)
        ensures
            picks(self.calls()) == self.collected(),
    {
        lemma_told(self.collected());
    }
}

impl Default for SolutionCallback {
    fn default() -> (cb: SolutionCallback)
        ensures
            cb.solutions@.len() == 0,
            cb.calls().len() == 0,
    {
        let cb = SolutionCallback { solutions: Vec::new(), record: Ghost(Seq::empty()) };
        assert(cb.collected() =~= picks(cb.record@));
        cb
    }
}

impl Callback for SolutionCallback {
    /// A callback that collects solutions asks for no stop.
    open spec fn quiet(&self) -> bool {
        true
    }

    /// The calls on record, as long as the solutions among them are the
    /// collected ones; if the collected solutions were changed from
    /// outside, calls with those.
    open spec fn calls(&self) -> Seq<Call> {
        if picks(self.record@) == self.collected() {
            self.record@
        } else {
            told(self.collected())
        }
    }

    fn on_solution(&mut self, sol: Vec<usize>, mat: &mut Matrix)
        ensures
            final(self).collected() == old(self).collected().push(sol@),
    {
        proof {
            self.lemma_collected();
            crate::dlx::search::lemma_picks_push(self.calls(), Call::Solution(sol@, mat.aborted()));
            self.record@ = self.calls().push(Call::Solution(sol@, mat.aborted()));
        }
        self.solutions.push(sol);
        assert(self.collected() =~= old(self).collected().push(sol@));
    }

    fn on_iteration(&mut self, mat: &mut Matrix)
        ensures
            final(self).solutions == old(self).solutions,
    {
        proof {
            self.lemma_collected();
            crate::dlx::search::lemma_picks_push(self.calls(), Call::Iteration(mat.aborted(), mat.aborted()));
            self.record@ = self.calls().push(Call::Iteration(mat.aborted(), mat.aborted()));
        }
    }

    fn on_abort(&mut self, mat: &mut Matrix)
        ensures
            final(self).solutions == old(self).solutions,
    {
        proof {
            self.lemma_collected();
            crate::dlx::search::lemma_picks_push(self.calls(), Call::Abort);
            self.record@ = self.calls().push(Call::Abort);
        }
    }

    fn on_finish(&mut self)
        ensures
            final(self).solutions == old(self).solutions,
    {
        proof {
            self.lemma_collected();
            crate::dlx::search::lemma_picks_push(self.calls(), Call::Finish);
            self.record@ = self.calls().push(Call::Finish);
        }
    }
}

} // verus!
