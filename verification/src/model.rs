//! The description of a problem: variables with their domains, constraints
//! over them, and the strategy that solves it.

use crate::engine::basic_recursive_backtracking;
use crate::names::clone_is_exact;
use crate::names::NameMap;
use crate::search::all_solutions;
use crate::search::all_tests_answered;
use crate::search::Binding;
use crate::search::constraint_pure;
use crate::search::Declared;
use vstd::prelude::*;

verus! {

/// How a problem is solved.
#[derive(Clone, Copy, Debug, PartialEq, Eq, Structural)]
pub enum Solver {
    /// Exhaustive depth-first search that undoes each binding after it has
    /// been explored.
    RecursiveBacktracking,
}

impl Default for Solver {
    fn default() -> (r: Self)
        ensures
            r == Solver::RecursiveBacktracking,
    {
        Solver::RecursiveBacktracking
    }
}

/// Each value of `b` is a clone of the value of `a` at the same position.
pub open spec fn cloned_values<T: Clone>(a: Seq<T>, b: Seq<T>) -> bool {
    &&& a.len() == b.len()
    &&& forall|i: int| 0 <= i < a.len() ==> vstd::pervasive::cloned::<T>(a[i], #[trigger] b[i])
}

/// A named variable and the values it may take, in the order in which they
/// are tried.
pub struct Variable<T: Clone = String> {
    name: String,
    domains: Vec<T>,
}

impl<T: Clone> Variable<T> {
    /// The characters of the name.
    pub closed spec fn name_view(&self) -> Seq<char> {
        self.name@
    }

    /// The domain as a sequence.
    pub closed spec fn domain_view(&self) -> Seq<T> {
        self.domains@
    }

    /// The variable as the search sees it.
    pub open spec fn declared(&self) -> Declared<T> {
        (self.name_view(), self.domain_view())
    }

    /// The variable with the given name and domain.
    pub fn new(name: String, domains: Vec<T>) -> (r: Self)
        ensures
            r.name_view() == name@,
            r.domain_view() == domains@,
    {
        Variable { name, domains }
    }

    /// The name.
    pub fn name(&self) -> (r: &str)
        ensures
            r@ == self.name_view(),
    {
        self.name.as_str()
    }

    /// The domain, in the order in which its values are tried.
    pub fn domains(&self) -> (r: &Vec<T>)
        ensures
            r@ == self.domain_view(),
    {
        &self.domains
    }
}

impl<T: Clone> Clone for Variable<T> {
    /// A variable of the same name whose domain holds a clone of each value.
    fn clone(&self) -> (r: Self)
        ensures
            r.name_view() == self.name_view(),
            cloned_values(self.domain_view(), r.domain_view()),
    {
        Variable { name: self.name.clone(), domains: self.domains.clone() }
    }
}

impl From<(String, Vec<String>)> for Variable<String> {
    /// The variable with the given name and domain.
    fn from(value: (String, Vec<String>)) -> (r: Self)
        ensures
            r.name_view() == value.0@,
            r.domain_view() == value.1@,
    {
        Variable { name: value.0, domains: value.1 }
    }
}

impl vstd::std_specs::convert::FromSpecImpl<(String, Vec<String>)> for Variable<String> {
    open spec fn obeys_from_spec() -> bool {
        true
    }

    closed spec fn from_spec(v: (String, Vec<String>)) -> Self {
        Variable { name: v.0, domains: v.1 }
    }
}

impl<'a> From<(&'a str, Vec<&'a str>)> for Variable<String> {
    /// The variable with the given name, whose domain holds each of the
    /// given texts as an owned string, in the same order.
    fn from(value: (&'a str, Vec<&'a str>)) -> (r: Self)
        ensures
            r.name_view() == value.0@,
            r.domain_view().len() == value.1@.len(),
            forall|i: int| 0 <= i < value.1@.len() ==> (#[trigger] r.domain_view()[i])@ == value.1@[i]@,
    {
        let mut domains: Vec<String> = Vec::new();
        let mut i: usize = 0;
        while i < value.1.len()
            invariant
                i <= value.1@.len(),
                domains@.len() == i,
                forall|j: int| 0 <= j < i ==> (#[trigger] domains@[j])@ == value.1@[j]@,
            decreases value.1@.len() - i,
        {
            domains.push(value.1[i].to_owned());
            i += 1;
        }
        Variable::new(value.0.to_owned(), domains)
    }
}

impl<'a> vstd::std_specs::convert::FromSpecImpl<(&'a str, Vec<&'a str>)> for Variable<String> {
    open spec fn obeys_from_spec() -> bool {
        false
    }

    closed spec fn from_spec(v: (&'a str, Vec<&'a str>)) -> Self {
        arbitrary()
    }
}

/// A test that the values bound to one or two named variables must pass.
pub enum Constraint<U, B> {
    /// The named variable and the test on its value.
    Unary(String, U),
    /// The two named variables and the test on their values, in that order.
    Binary(String, String, B),
}

/// A complete assignment that satisfies every constraint of the problem it
/// was found for. Viewed as the map from names to values.
#[derive(Debug)]
pub struct Solution<T>(pub(crate) NameMap<T>);

impl<T> View for Solution<T> {
    type V = Binding<T>;

    closed spec fn view(&self) -> Binding<T> {
        self.0@
    }
}

impl<T> Solution<T> {
    /// The underlying map is well formed.
    pub closed spec fn wf(&self) -> bool {
        self.0.wf()
    }

    pub(crate) fn from_map(values: NameMap<T>) -> (r: Self)
        requires
            values.wf(),
        ensures
            r.wf(),
            r@ == values@,
    {
        Solution(values)
    }

    /// The bindings of the solution.
    pub fn get_map(&self) -> (r: &NameMap<T>)
        ensures
            r@ == self@,
            r.wf() == self.wf(),
    {
        &self.0
    }
}

/// The views of a sequence of solutions.
pub open spec fn solution_views<T>(s: Seq<Solution<T>>) -> Seq<Binding<T>> {
    s.map_values(|x: Solution<T>| x@)
}

/// Variables and constraints in the order of their registration, and the
/// strategy chosen to solve them. The order of the variables is the order in
/// which the search binds them. Nothing is validated: names may repeat, and
/// constraints may name variables that are not declared.
pub struct Problem<T: Clone, U, B> {
    variables: Vec<Variable<T>>,
    constraints: Vec<Constraint<U, B>>,
    solver: Solver,
}

impl<T: Clone, U: Fn(&T) -> bool, B: Fn(&T, &T) -> bool> Problem<T, U, B> {
    /// The variables in declaration order.
    pub closed spec fn vars(&self) -> Seq<Declared<T>> {
        self.variables@.map_values(|v: Variable<T>| v.declared())
    }

    /// The constraints in declaration order.
    pub closed spec fn cons(&self) -> Seq<Constraint<U, B>> {
        self.constraints@
    }

    /// The chosen strategy.
    pub closed spec fn strategy(&self) -> Solver {
        self.solver
    }

    /// Every constraint's test is pure.
    pub open spec fn wf(&self) -> bool {
        forall|i: int|
            0 <= i < self.cons().len() ==> constraint_pure::<T, U, B>(#[trigger] self.cons()[i])
    }

    /// The solutions of the problem, in the order in which they are found.
    pub open spec fn solutions(&self) -> Seq<Binding<T>> {
        all_solutions(self.vars(), self.cons())
    }

    /// A problem without variables or constraints, solved by the default
    /// strategy.
    pub fn new() -> (r: Self)
        ensures
            r.vars() == Seq::<Declared<T>>::empty(),
            r.cons() == Seq::<Constraint<U, B>>::empty(),
            r.strategy() == Solver::RecursiveBacktracking,
            r.wf(),
    {
        let r = Problem { variables: Vec::new(), constraints: Vec::new(), solver: Solver::default() };
        assert(r.vars() =~= Seq::<Declared<T>>::empty());
        r
    }

    /// The same problem, solved by `solver`.
    pub fn solver(self, solver: Solver) -> (r: Self)
        ensures
            r.vars() == self.vars(),
            r.cons() == self.cons(),
            r.strategy() == solver,
    {
        let mut p = self;
        p.set_solver(solver);
        p
    }

    /// Chooses the strategy.
    pub fn set_solver(&mut self, solver: Solver)
        ensures
            final(self).vars() == old(self).vars(),
            final(self).cons() == old(self).cons(),
            final(self).strategy() == solver,
    {
        self.solver = solver
    }

    /// Declares one variable for each name, each with a clone of `domains`.
    pub fn variables(self, var_names: Vec<&str>, domains: Vec<T>) -> (r: Self)
        ensures
            r.cons() == self.cons(),
            r.strategy() == self.strategy(),
            r.vars().len() == self.vars().len() + var_names@.len(),
            r.vars().subrange(0, self.vars().len() as int) == self.vars(),
            forall|i: int|
                0 <= i < var_names@.len() ==> {
                    &&& (#[trigger] r.vars()[self.vars().len() + i]).0 == var_names@[i]@
                    &&& cloned_values(domains@, r.vars()[self.vars().len() + i].1)
                },
            clone_is_exact::<T>() ==> r.vars() == self.vars() + Seq::new(
                var_names@.len(),
                |i: int| (var_names@[i]@, domains@),
            ),
    {
        let mut p = self;
        p.add_variables(var_names, domains);
        p
    }

    /// Declares one variable for each name, each with a clone of `domains`.
    pub fn add_variables(&mut self, var_names: Vec<&str>, domains: Vec<T>)
        ensures
            final(self).cons() == old(self).cons(),
            final(self).strategy() == old(self).strategy(),
            final(self).vars().len() == old(self).vars().len() + var_names@.len(),
            final(self).vars().subrange(0, old(self).vars().len() as int) == old(self).vars(),
            forall|i: int|
                0 <= i < var_names@.len() ==> {
                    &&& (#[trigger] final(self).vars()[old(self).vars().len() + i]).0
                        == var_names@[i]@
                    &&& cloned_values(domains@, final(self).vars()[old(self).vars().len() + i].1)
                },
            clone_is_exact::<T>() ==> final(self).vars() == old(self).vars() + Seq::new(
                var_names@.len(),
                |i: int| (var_names@[i]@, domains@),
            ),
    {
        let ghost before = old(self).vars();
        let mut i: usize = 0;
        while i < var_names.len()
            invariant
                i <= var_names@.len(),
                self.cons() == old(self).cons(),
                self.strategy() == old(self).strategy(),
                before == old(self).vars(),
                self.vars().len() == before.len() + i,
                self.vars().subrange(0, before.len() as int) == before,
                forall|j: int|
                    0 <= j < i ==> {
                        &&& (#[trigger] self.vars()[before.len() + j]).0 == var_names@[j]@
                        &&& cloned_values(domains@, self.vars()[before.len() + j].1)
                    },
            decreases var_names@.len() - i,
        {
            let ghost prev = self.vars();
            let copy = domains.clone();
            self.add_variable(var_names[i], copy);
            proof {
                assert(self.vars().subrange(0, before.len() as int) =~= prev.subrange(
                    0,
                    before.len() as int,
                ));
                assert forall|j: int| 0 <= j < i + 1 implies {
                    &&& (#[trigger] self.vars()[before.len() + j]).0 == var_names@[j]@
                    &&& cloned_values(domains@, self.vars()[before.len() + j].1)
                } by {
                    if j < i {
                        assert(self.vars()[before.len() + j] == prev[before.len() + j]);
                    }
                }
            }
            i += 1;
        }
        proof {
            if clone_is_exact::<T>() {
                let added = Seq::new(var_names@.len(), |i: int| (var_names@[i]@, domains@));
                assert forall|j: int| 0 <= j < self.vars().len() implies self.vars()[j] == (before
                    + added)[j] by {
                    if j < before.len() {
                        assert(self.vars().subrange(0, before.len() as int)[j] == self.vars()[j]);
                    } else {
                        let t = j - before.len();
                        let d = self.vars()[before.len() + t].1;
                        assert(cloned_values(domains@, d));
                        assert(d =~= domains@);
                    }
                }
                assert(self.vars() =~= before + added);
            }
        }
    }

    /// The same problem with one more variable, declared last.
    pub fn variable(self, var_name: &str, domains: Vec<T>) -> (r: Self)
        ensures
            r.vars() == self.vars().push((var_name@, domains@)),
            r.cons() == self.cons(),
            r.strategy() == self.strategy(),
    {
        let mut p = self;
        p.add_variable(var_name, domains);
        p
    }

    /// Declares a variable after those that are there. A name that is declared
    /// already is accepted: the search binds a name once, to a value of the
    /// domain of its first declaration.
    pub fn add_variable(&mut self, var_name: &str, domains: Vec<T>)
        ensures
            final(self).vars() == old(self).vars().push((var_name@, domains@)),
            final(self).cons() == old(self).cons(),
            final(self).strategy() == old(self).strategy(),
    {
        self.variables.push(Variable::new(var_name.to_owned(), domains));
        assert(self.vars() =~= old(self).vars().push((var_name@, domains@)));
    }

    /// The same problem with one more constraint, declared last.
    pub fn constraint(self, constraint: Constraint<U, B>) -> (r: Self)
        ensures
            r.vars() == self.vars(),
            r.cons() == self.cons().push(constraint),
            r.strategy() == self.strategy(),
    {
        let mut p = self;
        p.add_constraint(constraint);
        p
    }

    /// Declares a constraint after those that are there. A constraint may name
    /// a variable that is not declared: such a constraint holds of every
    /// assignment that the search builds, since that name is never bound.
    pub fn add_constraint(&mut self, constraint: Constraint<U, B>)
        ensures
            final(self).vars() == old(self).vars(),
            final(self).cons() == old(self).cons().push(constraint),
            final(self).strategy() == old(self).strategy(),
    {
        self.constraints.push(constraint);
    }

    /// The same problem with one more constraint, on the value of one variable.
    pub fn constraint_unary(self, var_name: &str, test: U) -> (r: Self)
        ensures
            r.vars() == self.vars(),
            r.strategy() == self.strategy(),
            r.cons().len() == self.cons().len() + 1,
            r.cons().drop_last() == self.cons(),
            r.cons().last() matches Constraint::Unary(a, f) && a@ == var_name@ && f == test,
    {
        let mut p = self;
        p.add_constraint_unary(var_name, test);
        p
    }

    /// Declares a constraint on the value of one variable.
    pub fn add_constraint_unary(&mut self, var_name: &str, test: U)
        ensures
            final(self).vars() == old(self).vars(),
            final(self).strategy() == old(self).strategy(),
            final(self).cons().len() == old(self).cons().len() + 1,
            final(self).cons().drop_last() == old(self).cons(),
            final(self).cons().last() matches Constraint::Unary(a, f) && a@ == var_name@ && f
                == test,
    {
        self.add_constraint(Constraint::Unary(var_name.to_owned(), test));
        assert(self.cons().drop_last() =~= old(self).cons());
    }

    /// The same problem with one more constraint, on the values of two
    /// variables.
    pub fn constraint_binary(self, var_a: &str, var_b: &str, test: B) -> (r: Self)
        ensures
            r.vars() == self.vars(),
            r.strategy() == self.strategy(),
            r.cons().len() == self.cons().len() + 1,
            r.cons().drop_last() == self.cons(),
            r.cons().last() matches Constraint::Binary(a, b, f) && a@ == var_a@ && b@ == var_b@
                && f == test,
    {
        let mut p = self;
        p.add_constraint_binary(var_a, var_b, test);
        p
    }

    /// Declares a constraint on the values of two variables.
    pub fn add_constraint_binary(&mut self, var_a: &str, var_b: &str, test: B)
        ensures
            final(self).vars() == old(self).vars(),
            final(self).strategy() == old(self).strategy(),
            final(self).cons().len() == old(self).cons().len() + 1,
            final(self).cons().drop_last() == old(self).cons(),
            final(self).cons().last() matches Constraint::Binary(a, b, f) && a@ == var_a@ && b@
                == var_b@ && f == test,
    {
        self.add_constraint(Constraint::Binary(var_a.to_owned(), var_b.to_owned(), test));
        assert(self.cons().drop_last() =~= old(self).cons());
    }

    /// The number of declared variables.
    pub fn variable_count(&self) -> (r: usize)
        ensures
            r == self.vars().len(),
    {
        self.variables.len()
    }

    /// The variable declared at position `i`.
    pub fn variable_at(&self, i: usize) -> (r: &Variable<T>)
        requires
            i < self.vars().len(),
        ensures
            r.declared() == self.vars()[i as int],
    {
        &self.variables[i]
    }

    /// The number of declared constraints.
    pub fn constraint_count(&self) -> (r: usize)
        ensures
            r == self.cons().len(),
    {
        self.constraints.len()
    }

    /// The constraint declared at position `i`.
    pub fn constraint_at(&self, i: usize) -> (r: &Constraint<U, B>)
        requires
            i < self.cons().len(),
        ensures
            *r == self.cons()[i as int],
    {
        &self.constraints[i]
    }

    /// Every solution of the problem, found by the chosen strategy. A problem
    /// that cannot be satisfied has the empty sequence of solutions. On return
    /// the tests have answered on every partial assignment that the search
    /// came to test, so that a caller who knows what the tests answer can say
    /// which branches were followed.
    pub fn get_solutions(&self) -> (r: Vec<Solution<T>>)
        requires
            self.wf(),
            clone_is_exact::<T>(),
        ensures
            solution_views(r@) == self.solutions(),
            forall|i: int| 0 <= i < r@.len() ==> (#[trigger] r@[i]).wf(),
            all_tests_answered(self.vars(), self.cons()),
    {
        match self.solver {
            Solver::RecursiveBacktracking => basic_recursive_backtracking(self),
        }
    }
}

} // verus!
