//! The partial assignment that the search builds and undoes, and the checks
//! that read a problem against it.

use crate::model::cloned_values;
use crate::model::Constraint;
use crate::model::Problem;
use crate::model::Solution;
use crate::model::Variable;
use crate::names::NameMap;
use crate::search::Binding;
use crate::search::complete;
use crate::search::consistent;
use crate::search::constraint_answers;
use crate::search::constraint_holds;
use crate::search::constraint_pure;
use crate::search::first_unbound;
use crate::search::lemma_complete_iff_none_unbound;
use crate::search::lemma_first_unbound_skips;
use crate::search::refuted;
use vstd::prelude::*;

verus! {

/// A partial assignment of values to variable names. Viewed as the map from
/// the bound names to their values.
pub struct Assingment<T> {
    values: NameMap<T>,
}

impl<T> View for Assingment<T> {
    type V = Binding<T>;

    closed spec fn view(&self) -> Binding<T> {
        self.values@
    }
}

impl<T: Clone> Clone for Assingment<T> {
    /// An assignment of the same names, each bound to a clone of its value.
    fn clone(&self) -> (r: Self)
        ensures
            self.wf() ==> r.wf() && r@.dom() == self@.dom() && forall|k: Seq<char>|
                #[trigger] self@.contains_key(k) ==> vstd::pervasive::cloned::<T>(self@[k], r@[k]),
    {
        Assingment { values: self.values.clone() }
    }
}

impl<T: Clone> Assingment<T> {
    /// The underlying map is well formed.
    pub closed spec fn wf(&self) -> bool {
        self.values.wf()
    }

    /// The assignment that binds nothing.
    pub fn new() -> (r: Self)
        ensures
            r.wf(),
            r@ == Map::<Seq<char>, T>::empty(),
    {
        Assingment { values: NameMap::new() }
    }

    /// Whether one constraint holds of the assignment.
    pub fn satisfies<U: Fn(&T) -> bool, B: Fn(&T, &T) -> bool>(
        &self,
        constraint: &Constraint<U, B>,
    ) -> (r: bool)
        requires
            self.wf(),
            constraint_pure::<T, U, B>(*constraint),
        ensures
            r == constraint_holds(*constraint, self@),
            constraint_answers(*constraint, self@, r),
    {
        match constraint {
            Constraint::Unary(a, test) => {
                match self.values.get(a.as_str()) {
                    None => true,
                    Some(x) => {
                        let r = test(x);
                        assert(call_ensures(*test, (&self@[a@],), r));
                        r
                    },
                }
            },
            Constraint::Binary(a, b, test) => {
                match self.values.get(a.as_str()) {
                    None => true,
                    Some(x) => {
                        match self.values.get(b.as_str()) {
                            None => true,
                            Some(y) => {
                                let r = test(x, y);
                                assert(call_ensures(*test, (&self@[a@], &self@[b@]), r));
                                r
                            },
                        }
                    },
                }
            },
        }
    }

    /// Whether every constraint of the problem holds of the assignment. A
    /// constraint on a variable that is not bound holds.
    pub fn is_consistent<U: Fn(&T) -> bool, B: Fn(&T, &T) -> bool>(
        &self,
        problem: &Problem<T, U, B>,
    ) -> (r: bool)
        requires
            self.wf(),
            problem.wf(),
        ensures
            r == consistent(problem.cons(), self@),
            !r ==> refuted(problem.cons(), self@),
    {
        let n = problem.constraint_count();
        let mut i: usize = 0;
        while i < n
            invariant
                i <= n,
                n == problem.cons().len(),
                self.wf(),
                problem.wf(),
                forall|j: int| 0 <= j < i ==> constraint_holds(#[trigger] problem.cons()[j], self@),
            decreases n - i,
        {
            if !self.satisfies(problem.constraint_at(i)) {
                return false;
            }
            i += 1;
        }
        true
    }

    /// Whether every variable of the problem is bound.
    pub fn is_complete<U: Fn(&T) -> bool, B: Fn(&T, &T) -> bool>(
        &self,
        problem: &Problem<T, U, B>,
    ) -> (r: bool)
        requires
            self.wf(),
        ensures
            r == complete(problem.vars(), self@),
    {
        let found = self.select_position(problem);
        proof {
            lemma_complete_iff_none_unbound(problem.vars(), self@);
        }
        found.is_none()
    }

    /// The position of the first variable, in declaration order, that is not
    /// bound.
    pub fn select_position<U: Fn(&T) -> bool, B: Fn(&T, &T) -> bool>(
        &self,
        problem: &Problem<T, U, B>,
    ) -> (r: Option<usize>)
        requires
            self.wf(),
        ensures
            match r {
                Some(i) => i < problem.vars().len() && i == first_unbound(
                    problem.vars(),
                    self@,
                    0,
                ),
                None => first_unbound(problem.vars(), self@, 0) == problem.vars().len(),
            },
    {
        let n = problem.variable_count();
        let mut i: usize = 0;
        while i < n
            invariant
                i <= n,
                n == problem.vars().len(),
                self.wf(),
                forall|j: int| 0 <= j < i ==> self@.contains_key(#[trigger] problem.vars()[j].0),
            decreases n - i,
        {
            let var = problem.variable_at(i);
            if !self.values.contains_key(var.name()) {
                proof {
                    lemma_first_unbound_skips(problem.vars(), self@, 0, i as int);
                }
                return Some(i);
            }
            i += 1;
        }
        proof {
            lemma_first_unbound_skips(problem.vars(), self@, 0, n as int);
        }
        None
    }

    /// The first variable, in declaration order, that is not bound, with a
    /// clone of each value of its domain.
    pub fn select_variable<U: Fn(&T) -> bool, B: Fn(&T, &T) -> bool>(
        &self,
        problem: &Problem<T, U, B>,
    ) -> (r: Option<Variable<T>>)
        requires
            self.wf(),
        ensures
            r.is_none() <==> complete(problem.vars(), self@),
            match r {
                Some(v) => {
                    let i = first_unbound(problem.vars(), self@, 0);
                    &&& 0 <= i < problem.vars().len()
                    &&& v.name_view() == problem.vars()[i].0
                    &&& cloned_values(problem.vars()[i].1, v.domain_view())
                },
                None => true,
            },
    {
        proof {
            lemma_complete_iff_none_unbound(problem.vars(), self@);
        }
        match self.select_position(problem) {
            Some(i) => Some(problem.variable_at(i).clone()),
            None => None,
        }
    }

    /// Binds `name` to a clone of `value`, in place of an earlier binding.
    pub fn insert(&mut self, name: &str, value: &T)
        requires
            old(self).wf(),
        ensures
            final(self).wf(),
            final(self)@.contains_key(name@),
            vstd::pervasive::cloned::<T>(*value, final(self)@[name@]),
            final(self)@ == old(self)@.insert(name@, final(self)@[name@]),
    {
        let copy = value.clone();
        self.values.insert(name, copy);
    }

    /// Unbinds `name`.
    pub fn remove(&mut self, name: &str)
        requires
            old(self).wf(),
        ensures
            final(self).wf(),
            final(self)@ == old(self)@.remove(name@),
    {
        self.values.remove(name);
    }

    /// The assignment as a solution.
    pub fn solution(self) -> (r: Solution<T>)
        requires
            self.wf(),
        ensures
            r.wf(),
            r@ == self@,
    {
        Solution::from_map(self.values)
    }
}

} // verus!
