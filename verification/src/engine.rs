//! Exhaustive depth-first search with backtracking.

use crate::assignment::Assingment;
use crate::model::Problem;
use crate::model::Solution;
use crate::model::solution_views;
use crate::names::clone_is_exact;
use crate::search::all_tests_answered;
use crate::search::Binding;
use crate::search::bound_before;
use crate::search::complete;
use crate::search::completions_from;
use crate::search::completions_upto;
use crate::search::consistent;
use crate::search::decided;
use crate::search::decided_below;
use crate::search::first_unbound;
use crate::search::lemma_bound_before_step;
use crate::search::lemma_complete_iff_none_unbound;
use crate::search::lemma_completions_skip_bound;
use crate::search::lemma_first_unbound;
use crate::search::lemma_first_unbound_of_part;
use crate::search::lemma_first_unbound_skips;
use crate::search::reached;
use crate::search::tried;
use vstd::prelude::*;

verus! {

/// Solves the problem from the empty assignment: the solutions in the order
/// in which the search finds them.
pub fn basic_recursive_backtracking<T: Clone, U: Fn(&T) -> bool, B: Fn(&T, &T) -> bool>(
    problem: &Problem<T, U, B>,
) -> (r: Vec<Solution<T>>)
    requires
        problem.wf(),
        clone_is_exact::<T>(),
    ensures
        solution_views(r@) == problem.solutions(),
        forall|i: int| 0 <= i < r@.len() ==> (#[trigger] r@[i]).wf(),
        all_tests_answered(problem.vars(), problem.cons()),
{
    let mut assignment = Assingment::new();
    let mut solutions: Vec<Solution<T>> = Vec::new();
    assert(solution_views(solutions@) =~= Seq::empty());
    recursive_backtracking(&mut solutions, &mut assignment, problem);
    assert(solution_views(solutions@) =~= problem.solutions());
    proof {
        let vars = problem.vars();
        let cons = problem.cons();
        let none = Map::<Seq<char>, T>::empty();
        assert forall|s: Binding<T>, t: int| #[trigger]
            reached(vars, cons, s, 0, t) implies decided(cons, bound_before(vars, s, t)) by {
            lemma_first_unbound_of_part(vars, s, 0);
            assert(bound_before(vars, s, 0) =~= none);
            assert(reached(vars, cons, s, first_unbound(vars, none, 0), t));
        }
    }
    solutions
}

/// Appends to `solutions` every solution that extends the assignment, in the
/// order of the search, and leaves the assignment as it was. Each value of
/// the first unbound variable is bound in turn, explored if the constraints
/// still hold, and unbound again. Returns whether the assignment was complete
/// on entry, in which case it is itself the one solution appended.
pub fn recursive_backtracking<T: Clone, U: Fn(&T) -> bool, B: Fn(&T, &T) -> bool>(
    solutions: &mut Vec<Solution<T>>,
    assignment: &mut Assingment<T>,
    problem: &Problem<T, U, B>,
) -> (r: bool)
    requires
        old(assignment).wf(),
        problem.wf(),
        clone_is_exact::<T>(),
        forall|i: int| 0 <= i < old(solutions)@.len() ==> (#[trigger] old(solutions)@[i]).wf(),
    ensures
        final(assignment).wf(),
        final(assignment)@ == old(assignment)@,
        solution_views(final(solutions)@) == solution_views(old(solutions)@) + completions_from(
            problem.vars(),
            problem.cons(),
            old(assignment)@,
            0,
        ),
        forall|i: int| 0 <= i < final(solutions)@.len() ==> (#[trigger] final(solutions)@[i]).wf(),
        r == complete(problem.vars(), old(assignment)@),
        decided_below(problem.vars(), problem.cons(), old(assignment)@),
    decreases problem.vars().len() - first_unbound(problem.vars(), old(assignment)@, 0),
{
    let ghost vars = problem.vars();
    let ghost cons = problem.cons();
    let ghost start = assignment@;
    let ghost found = solution_views(solutions@);
    proof {
        lemma_first_unbound(vars, start, 0);
        lemma_complete_iff_none_unbound(vars, start);
        lemma_completions_skip_bound(vars, cons, start, 0);
    }
    let i = match assignment.select_position(problem) {
        Some(i) => i,
        None => {
            let snapshot = assignment.clone().solution();
            assert(snapshot@ =~= start);
            solutions.push(snapshot);
            assert(solution_views(solutions@) =~= found + seq![start]);
            return true;
        },
    };
    let var = problem.variable_at(i);
    let domain = var.domains();
    let mut k: usize = 0;
    assert(solution_views(solutions@) =~= found + completions_upto(vars, cons, start, i as int, 0));
    while k < domain.len()
        invariant
            k <= domain@.len(),
            i < vars.len(),
            i == first_unbound(vars, start, 0),
            !start.contains_key(vars[i as int].0),
            vars == problem.vars(),
            cons == problem.cons(),
            var.declared() == vars[i as int],
            domain@ == vars[i as int].1,
            problem.wf(),
            clone_is_exact::<T>(),
            assignment.wf(),
            assignment@ == start,
            start == old(assignment)@,
            solution_views(solutions@) == found + completions_upto(
                vars,
                cons,
                start,
                i as int,
                k as int,
            ),
            forall|j: int| 0 <= j < solutions@.len() ==> (#[trigger] solutions@[j]).wf(),
            forall|s: Binding<T>, t: int|
                start == bound_before(vars, s, i as int) && #[trigger] reached(
                    vars,
                    cons,
                    s,
                    i as int,
                    t,
                ) && tried(vars, s, i as int, k as int) ==> decided(
                    cons,
                    bound_before(vars, s, t),
                ),
        decreases domain@.len() - k,
    {
        assignment.insert(var.name(), &domain[k]);
        let ghost bound = assignment@;
        assert(bound == start.insert(vars[i as int].0, vars[i as int].1[k as int]));
        let passes = assignment.is_consistent(problem);
        if passes {
            proof {
                lemma_first_unbound(vars, start, 0);
                lemma_first_unbound_skips(vars, bound, 0, i + 1);
                lemma_first_unbound(vars, bound, i + 1);
            }
            recursive_backtracking(solutions, assignment, problem);
            proof {
                lemma_first_unbound_skips(vars, bound, 0, i + 1);
                lemma_completions_skip_bound(vars, cons, bound, 0);
                lemma_completions_skip_bound(vars, cons, bound, i + 1);
            }
        }
        assignment.remove(var.name());
        assert(assignment@ =~= start);
        proof {
            assert(passes ==> decided_below(vars, cons, bound));
            assert forall|s: Binding<T>, t: int|
                start == bound_before(vars, s, i as int) && #[trigger] reached(
                    vars,
                    cons,
                    s,
                    i as int,
                    t,
                ) && tried(vars, s, i as int, k + 1) implies decided(
                    cons,
                    bound_before(vars, s, t),
                ) by {
                if !tried(vars, s, i as int, k as int) {
                    assert(s[vars[i as int].0] == vars[i as int].1[k as int]);
                    lemma_bound_before_step(vars, s, i as int);
                    assert(bound == bound_before(vars, s, i + 1));
                    if t > i + 1 {
                        assert(consistent(cons, bound_before(vars, s, i + 1)));
                        lemma_first_unbound_of_part(vars, s, i + 1);
                        assert(reached(vars, cons, s, i + 1, t));
                    }
                }
            }
        }
        k += 1;
        assert(solution_views(solutions@) =~= found + completions_upto(
            vars,
            cons,
            start,
            i as int,
            k as int,
        ));
    }
    proof {
        assert forall|s: Binding<T>, t: int|
            start == bound_before(vars, s, i as int) && #[trigger] reached(
                vars,
                cons,
                s,
                i as int,
                t,
            ) implies decided(cons, bound_before(vars, s, t)) by {
            let q = choose|q: int|
                0 <= q < vars[i as int].1.len() && vars[i as int].1[q] == s[vars[i as int].0];
            assert(tried(vars, s, i as int, k as int));
        }
    }
    false
}

} // verus!
