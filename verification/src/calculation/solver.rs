//! A solver that is made once for a rule and keeps its last solution.

use vstd::prelude::*;
use crate::calculation::counter::Counter;
use crate::calculation::functional::{calculate, solvable, SolveError};
use crate::calculation::solution::Solution;
use crate::Rule;

verus! {

/// Solves compositions under one rule.
#[derive(Debug, Clone)]
pub struct Solver<'a> {
    rule: &'a Rule,
    solution: Solution,
    counter: Counter,
}

impl<'a> Solver<'a> {
    /// The rule that the solver was made for.
    pub closed spec fn rule(&self) -> Rule {
        *self.rule
    }

    /// The solution of the last composition that was solved.
    pub closed spec fn solution(&self) -> Solution {
        self.solution
    }

    /// A solver for the rule, with the solution that holds no deal.
    pub fn new(rule: &'a Rule) -> (solver: Self)
        ensures
            solver.rule() == *rule,
            solver.solution().wf(),
            solver.solution().denominator == 1,
    {
        Self { rule, solution: Solution::default(), counter: Counter::new(0) }
    }

    /// Solves the composition of `counter` and hands out the solution. A
    /// composition that is refused leaves the last solution in place.
    pub fn solve(&mut self, counter: &Counter) -> (r: Result<&Solution, SolveError>)
        ensures
            final(self).rule() == old(self).rule(),
            r is Ok <==> solvable(counter.count()) is Ok,
            r matches Err(e) ==> solvable(counter.count()) == Err::<(), SolveError>(e)
                && final(self).solution() == old(self).solution(),
            r matches Ok(s) ==> *s == final(self).solution() && s.wf() && s.holds(
                counter.cards(),
                counter.ranks(),
                counter.values(),
            ) && s.expectations_follow(final(self).rule().payouts),
            r matches Ok(s) ==> counter.count() >= 6 ==> s.sol_main.total() == s.denominator,
    {
        self.counter = *counter;
        match calculate(self.rule, &mut self.counter, &mut self.solution) {
            Ok(()) => Ok(&self.solution),
            Err(e) => Err(e),
        }
    }
}

} // verus!
