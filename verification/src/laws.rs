//! What holds of the solutions of every problem.

use crate::model::Constraint;
use crate::model::Problem;
use crate::search::all_tests_answered;
use crate::search::Binding;
use crate::search::bound_before;
use crate::search::complete;
use crate::search::completions_from;
use crate::search::completions_upto;
use crate::search::consistent;
use crate::search::constraint_holds;
use crate::search::decided;
use crate::search::Declared;
use crate::search::declared_before;
use crate::search::distinct_names;
use crate::search::drawn_from_domains;
use crate::search::lemma_bound_before_step;
use crate::search::lemma_completions_from_step;
use crate::search::lemma_completions_upto_step;
use crate::search::reached;
use crate::search::refuted;
use vstd::prelude::*;

verus! {

/// The product of the sizes of the domains from position `i` on.
pub open spec fn domain_product<T>(vars: Seq<Declared<T>>, i: int) -> nat
    decreases vars.len() - i,
{
    if i < 0 || i >= vars.len() {
        1
    } else {
        vars[i].1.len() * domain_product(vars, i + 1)
    }
}

/// The product of the sizes of the domains from position `i` on, counting
/// only the first variable of each name and none whose name is in `taken`.
pub open spec fn free_product<T>(vars: Seq<Declared<T>>, taken: Set<Seq<char>>, i: int) -> nat
    decreases vars.len() - i,
{
    if i < 0 || i >= vars.len() {
        1
    } else if taken.contains(vars[i].0) {
        free_product(vars, taken, i + 1)
    } else {
        vars[i].1.len() * free_product(vars, taken.insert(vars[i].0), i + 1)
    }
}

proof fn lemma_sound_from<T, U: Fn(&T) -> bool, B: Fn(&T, &T) -> bool>(
    vars: Seq<Declared<T>>,
    cons: Seq<Constraint<U, B>>,
    m: Binding<T>,
    i: int,
)
    requires
        0 <= i <= vars.len(),
        consistent(cons, m),
        forall|j: int| 0 <= j < i ==> m.contains_key(#[trigger] vars[j].0),
    ensures
        forall|t: int|
            0 <= t < completions_from(vars, cons, m, i).len() ==> {
                &&& complete(vars, #[trigger] completions_from(vars, cons, m, i)[t])
                &&& consistent(cons, completions_from(vars, cons, m, i)[t])
            },
    decreases vars.len() - i, 1int, 0int,
{
    if i >= vars.len() {
        lemma_completions_from_step(vars, cons, m, i);
        assert(complete(vars, m));
    } else if m.contains_key(vars[i].0) {
        lemma_sound_from(vars, cons, m, i + 1);
        lemma_completions_from_step(vars, cons, m, i);
    } else {
        lemma_sound_upto(vars, cons, m, i, vars[i].1.len() as int);
        lemma_completions_from_step(vars, cons, m, i);
    }
}

proof fn lemma_sound_upto<T, U: Fn(&T) -> bool, B: Fn(&T, &T) -> bool>(
    vars: Seq<Declared<T>>,
    cons: Seq<Constraint<U, B>>,
    m: Binding<T>,
    i: int,
    k: int,
)
    requires
        0 <= i < vars.len(),
        0 <= k <= vars[i].1.len(),
        forall|j: int| 0 <= j < i ==> m.contains_key(#[trigger] vars[j].0),
    ensures
        forall|t: int|
            0 <= t < completions_upto(vars, cons, m, i, k).len() ==> {
                &&& complete(vars, #[trigger] completions_upto(vars, cons, m, i, k)[t])
                &&& consistent(cons, completions_upto(vars, cons, m, i, k)[t])
            },
    decreases vars.len() - i, 0int, k,
{
    if k > 0 {
        let bound = m.insert(vars[i].0, vars[i].1[k - 1]);
        lemma_sound_upto(vars, cons, m, i, k - 1);
        if consistent(cons, bound) {
            assert forall|j: int| 0 <= j < i + 1 implies bound.contains_key(
                #[trigger] vars[j].0,
            ) by {
                if j < i {
                    assert(m.contains_key(vars[j].0));
                }
            }
            lemma_sound_from(vars, cons, bound, i + 1);
        }
        let earlier = completions_upto(vars, cons, m, i, k - 1);
        let branch = if consistent(cons, bound) {
            completions_from(vars, cons, bound, i + 1)
        } else {
            Seq::empty()
        };
        let all = completions_upto(vars, cons, m, i, k);
        lemma_completions_upto_step(vars, cons, m, i, k);
        assert(all == earlier + branch);
        assert forall|t: int| 0 <= t < all.len() implies complete(vars, #[trigger] all[t])
            && consistent(cons, all[t]) by {
            if t < earlier.len() {
                assert(all[t] == earlier[t]);
            } else {
                assert(all[t] == branch[t - earlier.len()]);
            }
        }
    }
}

proof fn lemma_count_from<T, U: Fn(&T) -> bool, B: Fn(&T, &T) -> bool>(
    vars: Seq<Declared<T>>,
    cons: Seq<Constraint<U, B>>,
    m: Binding<T>,
    i: int,
)
    requires
        0 <= i <= vars.len(),
        cons.len() == 0,
    ensures
        completions_from(vars, cons, m, i).len() == free_product(vars, m.dom(), i),
    decreases vars.len() - i, 1int, 0int,
{
    if i >= vars.len() {
    } else if m.contains_key(vars[i].0) {
        lemma_count_from(vars, cons, m, i + 1);
    } else {
        lemma_count_upto(vars, cons, m, i, vars[i].1.len() as int);
    }
}

proof fn lemma_count_upto<T, U: Fn(&T) -> bool, B: Fn(&T, &T) -> bool>(
    vars: Seq<Declared<T>>,
    cons: Seq<Constraint<U, B>>,
    m: Binding<T>,
    i: int,
    k: int,
)
    requires
        0 <= i < vars.len(),
        0 <= k <= vars[i].1.len(),
        cons.len() == 0,
    ensures
        completions_upto(vars, cons, m, i, k).len() == k * free_product(
            vars,
            m.dom().insert(vars[i].0),
            i + 1,
        ),
    decreases vars.len() - i, 0int, k,
{
    let rest = free_product(vars, m.dom().insert(vars[i].0), i + 1);
    if k > 0 {
        let bound = m.insert(vars[i].0, vars[i].1[k - 1]);
        lemma_count_upto(vars, cons, m, i, k - 1);
        lemma_count_from(vars, cons, bound, i + 1);
        assert(bound.dom() =~= m.dom().insert(vars[i].0));
        assert(consistent(cons, bound));
        assert((k - 1) * rest + rest == k * rest) by (nonlinear_arith);
    } else {
        assert(0 * rest == 0) by (nonlinear_arith);
    }
}

proof fn lemma_free_product_of_distinct<T>(vars: Seq<Declared<T>>, taken: Set<Seq<char>>, i: int)
    requires
        0 <= i <= vars.len(),
        distinct_names(vars),
        forall|j: int| i <= j < vars.len() ==> !taken.contains(#[trigger] vars[j].0),
    ensures
        free_product(vars, taken, i) == domain_product(vars, i),
    decreases vars.len() - i,
{
    if i < vars.len() {
        assert(!taken.contains(vars[i].0));
        lemma_free_product_of_distinct(vars, taken.insert(vars[i].0), i + 1);
    }
}

proof fn lemma_empty_from<T, U: Fn(&T) -> bool, B: Fn(&T, &T) -> bool>(
    vars: Seq<Declared<T>>,
    cons: Seq<Constraint<U, B>>,
    m: Binding<T>,
    i: int,
    e: int,
)
    requires
        0 <= i <= e < vars.len(),
        vars[e].1.len() == 0,
        !m.contains_key(vars[e].0),
        forall|j: int| i <= j < e ==> (#[trigger] vars[j]).0 != vars[e].0,
    ensures
        completions_from(vars, cons, m, i).len() == 0,
    decreases vars.len() - i, 1int, 0int,
{
    if i == e {
        lemma_completions_upto_step(vars, cons, m, e, 0);
    } else if m.contains_key(vars[i].0) {
        lemma_empty_from(vars, cons, m, i + 1, e);
    } else {
        lemma_empty_upto(vars, cons, m, i, vars[i].1.len() as int, e);
    }
}

proof fn lemma_empty_upto<T, U: Fn(&T) -> bool, B: Fn(&T, &T) -> bool>(
    vars: Seq<Declared<T>>,
    cons: Seq<Constraint<U, B>>,
    m: Binding<T>,
    i: int,
    k: int,
    e: int,
)
    requires
        0 <= i < e < vars.len(),
        0 <= k <= vars[i].1.len(),
        vars[e].1.len() == 0,
        !m.contains_key(vars[e].0),
        forall|j: int| i <= j < e ==> (#[trigger] vars[j]).0 != vars[e].0,
    ensures
        completions_upto(vars, cons, m, i, k).len() == 0,
    decreases vars.len() - i, 0int, k,
{
    if k > 0 {
        let bound = m.insert(vars[i].0, vars[i].1[k - 1]);
        lemma_empty_upto(vars, cons, m, i, k - 1, e);
        assert(vars[i].0 != vars[e].0);
        lemma_empty_from(vars, cons, bound, i + 1, e);
    }
}

proof fn lemma_part_consistent<T, U: Fn(&T) -> bool, B: Fn(&T, &T) -> bool>(
    vars: Seq<Declared<T>>,
    cons: Seq<Constraint<U, B>>,
    s: Binding<T>,
    i: int,
)
    requires
        drawn_from_domains(vars, s),
        consistent(cons, s),
    ensures
        consistent(cons, bound_before(vars, s, i)),
{
    let part = bound_before(vars, s, i);
    assert forall|k: Seq<char>| part.contains_key(k) implies s.contains_key(k) && part[k]
        == s[k] by {
        let j = choose|j: int| 0 <= j < i && j < vars.len() && (#[trigger] vars[j]).0 == k;
        assert(declared_before(vars, k, vars.len() as int));
    }
    assert forall|t: int| 0 <= t < cons.len() implies constraint_holds(
        #[trigger] cons[t],
        part,
    ) by {
        assert(constraint_holds(cons[t], s));
    }
}

proof fn lemma_upto_keeps<T, U: Fn(&T) -> bool, B: Fn(&T, &T) -> bool>(
    vars: Seq<Declared<T>>,
    cons: Seq<Constraint<U, B>>,
    m: Binding<T>,
    i: int,
    at: int,
    k: int,
    x: Binding<T>,
)
    requires
        0 <= i < vars.len(),
        0 <= at < k <= vars[i].1.len(),
        consistent(cons, m.insert(vars[i].0, vars[i].1[at])),
        completions_from(vars, cons, m.insert(vars[i].0, vars[i].1[at]), i + 1).contains(x),
    ensures
        completions_upto(vars, cons, m, i, k).contains(x),
    decreases k,
{
    lemma_completions_upto_step(vars, cons, m, i, k);
    let earlier = completions_upto(vars, cons, m, i, k - 1);
    let bound = m.insert(vars[i].0, vars[i].1[k - 1]);
    let branch = if consistent(cons, bound) {
        completions_from(vars, cons, bound, i + 1)
    } else {
        Seq::empty()
    };
    let all = completions_upto(vars, cons, m, i, k);
    assert(all == earlier + branch);
    if at == k - 1 {
        let t = choose|t: int| 0 <= t < branch.len() && branch[t] == x;
        assert(all[earlier.len() + t] == x);
    } else {
        lemma_upto_keeps(vars, cons, m, i, at, k - 1, x);
        let t = choose|t: int| 0 <= t < earlier.len() && earlier[t] == x;
        assert(all[t] == x);
    }
}

proof fn lemma_found_from<T, U: Fn(&T) -> bool, B: Fn(&T, &T) -> bool>(
    vars: Seq<Declared<T>>,
    cons: Seq<Constraint<U, B>>,
    s: Binding<T>,
    i: int,
)
    requires
        0 <= i <= vars.len(),
        distinct_names(vars),
        drawn_from_domains(vars, s),
        consistent(cons, s),
    ensures
        completions_from(vars, cons, bound_before(vars, s, i), i).contains(s),
    decreases vars.len() - i,
{
    let m = bound_before(vars, s, i);
    lemma_completions_from_step(vars, cons, m, i);
    if i == vars.len() {
        assert(m =~= s);
        assert(seq![m][0] == s);
    } else {
        if m.contains_key(vars[i].0) {
            let j = choose|j: int| 0 <= j < i && j < vars.len() && (#[trigger] vars[j]).0 == vars[i].0;
            assert(false);
        }
        let domain = vars[i].1;
        let value = s[vars[i].0];
        assert(domain.contains(value));
        let at = choose|at: int| 0 <= at < domain.len() && domain[at] == value;
        let bound = m.insert(vars[i].0, domain[at]);
        lemma_bound_before_step(vars, s, i);
        lemma_part_consistent(vars, cons, s, i + 1);
        lemma_found_from(vars, cons, s, i + 1);
        lemma_upto_keeps(vars, cons, m, i, at, domain.len() as int, s);
    }
}

proof fn lemma_drawn_from<T, U: Fn(&T) -> bool, B: Fn(&T, &T) -> bool>(
    vars: Seq<Declared<T>>,
    cons: Seq<Constraint<U, B>>,
    m: Binding<T>,
    i: int,
)
    requires
        0 <= i <= vars.len(),
        distinct_names(vars),
        forall|k: Seq<char>| m.contains_key(k) <==> declared_before(vars, k, i),
        forall|j: int| 0 <= j < i ==> (#[trigger] vars[j]).1.contains(m[vars[j].0]),
    ensures
        forall|t: int|
            0 <= t < completions_from(vars, cons, m, i).len() ==> drawn_from_domains(
                vars,
                #[trigger] completions_from(vars, cons, m, i)[t],
            ),
    decreases vars.len() - i, 1int, 0int,
{
    lemma_completions_from_step(vars, cons, m, i);
    if i >= vars.len() {
        assert(drawn_from_domains(vars, m));
    } else {
        if m.contains_key(vars[i].0) {
            let j = choose|j: int| 0 <= j < i && j < vars.len() && (#[trigger] vars[j]).0 == vars[i].0;
            assert(false);
        }
        lemma_drawn_upto(vars, cons, m, i, vars[i].1.len() as int);
    }
}

proof fn lemma_drawn_upto<T, U: Fn(&T) -> bool, B: Fn(&T, &T) -> bool>(
    vars: Seq<Declared<T>>,
    cons: Seq<Constraint<U, B>>,
    m: Binding<T>,
    i: int,
    k: int,
)
    requires
        0 <= i < vars.len(),
        0 <= k <= vars[i].1.len(),
        distinct_names(vars),
        forall|k: Seq<char>| m.contains_key(k) <==> declared_before(vars, k, i),
        forall|j: int| 0 <= j < i ==> (#[trigger] vars[j]).1.contains(m[vars[j].0]),
    ensures
        forall|t: int|
            0 <= t < completions_upto(vars, cons, m, i, k).len() ==> drawn_from_domains(
                vars,
                #[trigger] completions_upto(vars, cons, m, i, k)[t],
            ),
    decreases vars.len() - i, 0int, k,
{
    lemma_completions_upto_step(vars, cons, m, i, k);
    if k > 0 {
        let bound = m.insert(vars[i].0, vars[i].1[k - 1]);
        lemma_drawn_upto(vars, cons, m, i, k - 1);
        assert forall|n: Seq<char>| bound.contains_key(n) <==> declared_before(
            vars,
            n,
            i + 1,
        ) by {
            if declared_before(vars, n, i) {
                let j = choose|j: int| 0 <= j < i && j < vars.len() && (#[trigger] vars[j]).0 == n;
                assert(0 <= j < i + 1 && vars[j].0 == n);
            }
            if n == vars[i].0 {
                assert(0 <= i < i + 1 && vars[i].0 == n);
            }
            if declared_before(vars, n, i + 1) {
                let j = choose|j: int|
                    0 <= j < i + 1 && j < vars.len() && (#[trigger] vars[j]).0 == n;
                if j < i {
                    assert(declared_before(vars, n, i));
                }
            }
        }
        assert forall|j: int| 0 <= j < i + 1 implies (#[trigger] vars[j]).1.contains(
            bound[vars[j].0],
        ) by {
            if j < i {
                assert(vars[j].0 != vars[i].0);
                assert(vars[j].1.contains(m[vars[j].0]));
            } else {
                assert(vars[i].1[k - 1] == bound[vars[i].0]);
            }
        }
        lemma_drawn_from(vars, cons, bound, i + 1);
        let earlier = completions_upto(vars, cons, m, i, k - 1);
        let branch = if consistent(cons, bound) {
            completions_from(vars, cons, bound, i + 1)
        } else {
            Seq::empty()
        };
        let all = completions_upto(vars, cons, m, i, k);
        assert(all == earlier + branch);
        assert forall|t: int| 0 <= t < all.len() implies drawn_from_domains(
            vars,
            #[trigger] all[t],
        ) by {
            if t < earlier.len() {
                assert(all[t] == earlier[t]);
            } else {
                assert(all[t] == branch[t - earlier.len()]);
            }
        }
    }
}

/// Where no two variables share a name, every solution binds the declared
/// names and no others, each to a value of the domain of its variable.
pub proof fn law_solutions_are_drawn_from_domains<
    T: Clone,
    U: Fn(&T) -> bool,
    B: Fn(&T, &T) -> bool,
>(p: &Problem<T, U, B>)
    requires
        distinct_names(p.vars()),
    ensures
        forall|t: int|
            0 <= t < p.solutions().len() ==> drawn_from_domains(
                p.vars(),
                #[trigger] p.solutions()[t],
            ),
{
    lemma_drawn_from(p.vars(), p.cons(), Map::<Seq<char>, T>::empty(), 0);
}

/// The search passes over nothing: an assignment that binds exactly the
/// variables of the problem, each to a value of its domain, and satisfies
/// every constraint is among the solutions, provided that no two variables
/// share a name.
pub proof fn law_every_valid_assignment_is_found<
    T: Clone,
    U: Fn(&T) -> bool,
    B: Fn(&T, &T) -> bool,
>(p: &Problem<T, U, B>, s: Binding<T>)
    requires
        distinct_names(p.vars()),
        drawn_from_domains(p.vars(), s),
        consistent(p.cons(), s),
    ensures
        p.solutions().contains(s),
{
    lemma_found_from(p.vars(), p.cons(), s, 0);
    assert(bound_before(p.vars(), s, 0) =~= Map::<Seq<char>, T>::empty());
}

proof fn lemma_parts_consistent<T, U: Fn(&T) -> bool, B: Fn(&T, &T) -> bool>(
    vars: Seq<Declared<T>>,
    cons: Seq<Constraint<U, B>>,
    s: Binding<T>,
    t: int,
)
    requires
        0 <= t <= vars.len(),
        distinct_names(vars),
        drawn_from_domains(vars, s),
        all_tests_answered(vars, cons),
        forall|j: int| 0 < j <= vars.len() ==> !refuted(cons, #[trigger] bound_before(vars, s, j)),
    ensures
        forall|j: int| 0 < j <= t ==> consistent(cons, #[trigger] bound_before(vars, s, j)),
    decreases t,
{
    if t > 0 {
        lemma_parts_consistent(vars, cons, s, t - 1);
        assert(reached(vars, cons, s, 0, t));
        assert(decided(cons, bound_before(vars, s, t)));
    }
}

/// Once the search has run, a candidate is among the solutions if no test
/// can answer false on any part of it: a caller need not show that the tests
/// answer true, only that they cannot answer false.
pub proof fn law_candidate_never_refuted_is_found<
    T: Clone,
    U: Fn(&T) -> bool,
    B: Fn(&T, &T) -> bool,
>(p: &Problem<T, U, B>, s: Binding<T>)
    requires
        all_tests_answered(p.vars(), p.cons()),
        distinct_names(p.vars()),
        drawn_from_domains(p.vars(), s),
        forall|j: int|
            0 < j <= p.vars().len() ==> !refuted(p.cons(), #[trigger] bound_before(p.vars(), s, j)),
    ensures
        p.solutions().contains(s),
{
    let vars = p.vars();
    lemma_parts_consistent(vars, p.cons(), s, vars.len() as int);
    assert(bound_before(vars, s, vars.len() as int) =~= s);
    if vars.len() > 0 {
        assert(consistent(p.cons(), bound_before(vars, s, vars.len() as int)));
    } else {
        assert forall|k: Seq<char>| !s.contains_key(k) by {
            assert(!declared_before(vars, k, 0));
        }
    }
    law_every_valid_assignment_is_found(p, s);
}

/// Every solution of a problem binds every variable of the problem and
/// satisfies every one of its constraints.
pub proof fn law_solutions_are_complete_and_consistent<
    T: Clone,
    U: Fn(&T) -> bool,
    B: Fn(&T, &T) -> bool,
>(p: &Problem<T, U, B>)
    ensures
        forall|t: int|
            0 <= t < p.solutions().len() ==> {
                &&& complete(p.vars(), #[trigger] p.solutions()[t])
                &&& consistent(p.cons(), p.solutions()[t])
            },
{
    lemma_sound_from(p.vars(), p.cons(), Map::<Seq<char>, T>::empty(), 0);
}

/// A problem without constraints has as many solutions as the product of the
/// domain sizes of its variables, a name that is declared again counting
/// once, with the domain of its first declaration.
pub proof fn law_unconstrained_count<T: Clone, U: Fn(&T) -> bool, B: Fn(&T, &T) -> bool>(
    p: &Problem<T, U, B>,
)
    requires
        p.cons().len() == 0,
    ensures
        p.solutions().len() == free_product(p.vars(), Set::<Seq<char>>::empty(), 0),
        distinct_names(p.vars()) ==> p.solutions().len() == domain_product(p.vars(), 0),
{
    lemma_count_from(p.vars(), p.cons(), Map::<Seq<char>, T>::empty(), 0);
    assert(Map::<Seq<char>, T>::empty().dom() =~= Set::<Seq<char>>::empty());
    if distinct_names(p.vars()) {
        lemma_free_product_of_distinct(p.vars(), Set::<Seq<char>>::empty(), 0);
    }
}

/// A problem has no solution if the domain of one of its variables is empty
/// and no variable declared before that one has its name.
pub proof fn law_empty_domain_has_no_solution<
    T: Clone,
    U: Fn(&T) -> bool,
    B: Fn(&T, &T) -> bool,
>(p: &Problem<T, U, B>, e: int)
    requires
        0 <= e < p.vars().len(),
        p.vars()[e].1.len() == 0,
        forall|j: int| 0 <= j < e ==> (#[trigger] p.vars()[j]).0 != p.vars()[e].0,
    ensures
        p.solutions() == Seq::<Binding<T>>::empty(),
{
    lemma_empty_from(p.vars(), p.cons(), Map::<Seq<char>, T>::empty(), 0, e);
    assert(p.solutions() =~= Seq::<Binding<T>>::empty());
}

/// Unbinding a name that was bound a moment ago, and was not bound before,
/// gives back the assignment as it was.
pub proof fn law_unbind_undoes_bind<T>(m: Binding<T>, name: Seq<char>, value: T)
    requires
        !m.contains_key(name),
    ensures
        m.insert(name, value).remove(name) == m,
{
    assert(m.insert(name, value).remove(name) =~= m);
}

/// The solutions of a problem, and their order, are fixed by its variables
/// and constraints in the order of their declaration: two problems that agree
/// on these have the same solutions.
pub proof fn law_solutions_are_determined<T: Clone, U: Fn(&T) -> bool, B: Fn(&T, &T) -> bool>(
    p: &Problem<T, U, B>,
    q: &Problem<T, U, B>,
)
    requires
        p.vars() == q.vars(),
        p.cons() == q.cons(),
    ensures
        p.solutions() == q.solutions(),
{
}

} // verus!
