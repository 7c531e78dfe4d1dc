//! The mathematical model of the search: what it means for a partial
//! assignment to satisfy the constraints, and the sequence of solutions that
//! exhaustive backtracking yields.

use crate::model::Constraint;
use vstd::prelude::*;

verus! {

/// A partial assignment: the names that are bound, each with its value.
pub type Binding<T> = Map<Seq<char>, T>;

/// A declared variable: its name and its domain, in the order in which the
/// values are tried.
pub type Declared<T> = (Seq<char>, Seq<T>);

/// A unary test may be called on every value and never gives two different
/// answers for one value.
pub open spec fn unary_pure<T, U: Fn(&T) -> bool>(f: U) -> bool {
    &&& forall|x: T| #[trigger] call_requires(f, (&x,))
    &&& forall|x: T|
        #![trigger call_ensures(f, (&x,), true)]
        #![trigger call_ensures(f, (&x,), false)]
        !(call_ensures(f, (&x,), true) && call_ensures(f, (&x,), false))
}

/// A binary test may be called on every pair of values and never gives two
/// different answers for one pair.
pub open spec fn binary_pure<T, B: Fn(&T, &T) -> bool>(f: B) -> bool {
    &&& forall|x: T, y: T| #[trigger] call_requires(f, (&x, &y))
    &&& forall|x: T, y: T|
        #![trigger call_ensures(f, (&x, &y), true)]
        #![trigger call_ensures(f, (&x, &y), false)]
        !(call_ensures(f, (&x, &y), true) && call_ensures(f, (&x, &y), false))
}

/// The test of the constraint is pure.
pub open spec fn constraint_pure<T, U: Fn(&T) -> bool, B: Fn(&T, &T) -> bool>(
    c: Constraint<U, B>,
) -> bool {
    match c {
        Constraint::Unary(_, f) => unary_pure::<T, U>(f),
        Constraint::Binary(_, _, f) => binary_pure::<T, B>(f),
    }
}

/// The constraint holds of `m`: a variable that it names is unbound, or its
/// test answers true on the bound values.
pub open spec fn constraint_holds<T, U: Fn(&T) -> bool, B: Fn(&T, &T) -> bool>(
    c: Constraint<U, B>,
    m: Binding<T>,
) -> bool {
    match c {
        Constraint::Unary(a, f) => m.contains_key(a@) ==> call_ensures(f, (&m[a@],), true),
        Constraint::Binary(a, b, f) => m.contains_key(a@) && m.contains_key(b@) ==> call_ensures(
            f,
            (&m[a@], &m[b@]),
            true,
        ),
    }
}

/// Every constraint holds of `m`.
pub open spec fn consistent<T, U: Fn(&T) -> bool, B: Fn(&T, &T) -> bool>(
    cons: Seq<Constraint<U, B>>,
    m: Binding<T>,
) -> bool {
    forall|i: int| 0 <= i < cons.len() ==> constraint_holds(#[trigger] cons[i], m)
}

/// Every declared variable is bound in `m`.
pub open spec fn complete<T>(vars: Seq<Declared<T>>, m: Binding<T>) -> bool {
    forall|i: int| 0 <= i < vars.len() ==> m.contains_key(#[trigger] vars[i].0)
}

/// No two variables have the same name.
pub open spec fn distinct_names<T>(vars: Seq<Declared<T>>) -> bool {
    forall|a: int, b: int|
        0 <= a < b < vars.len() ==> (#[trigger] vars[a]).0 != (#[trigger] vars[b]).0
}

/// Some variable before position `i` has the name `k`.
pub open spec fn declared_before<T>(vars: Seq<Declared<T>>, k: Seq<char>, i: int) -> bool {
    exists|j: int| 0 <= j < i && j < vars.len() && (#[trigger] vars[j]).0 == k
}

/// The part of `s` that binds the variables before position `i`.
pub open spec fn bound_before<T>(vars: Seq<Declared<T>>, s: Binding<T>, i: int) -> Binding<T> {
    Map::new(|k: Seq<char>| declared_before(vars, k, i), |k: Seq<char>| s[k])
}

/// `s` binds the declared names and no others, each to a value of the
/// domain of the variable of that name.
pub open spec fn drawn_from_domains<T>(vars: Seq<Declared<T>>, s: Binding<T>) -> bool {
    &&& forall|k: Seq<char>| s.contains_key(k) <==> declared_before(vars, k, vars.len() as int)
    &&& forall|j: int| 0 <= j < vars.len() ==> (#[trigger] vars[j]).1.contains(s[vars[j].0])
}

/// `r` is an answer that the test of the constraint can give on the values
/// bound in `m`; where a variable that the constraint names is unbound, the
/// test is not asked and the answer is true.
pub open spec fn constraint_answers<T, U: Fn(&T) -> bool, B: Fn(&T, &T) -> bool>(
    c: Constraint<U, B>,
    m: Binding<T>,
    r: bool,
) -> bool {
    match c {
        Constraint::Unary(a, f) => if m.contains_key(a@) {
            call_ensures(f, (&m[a@],), r)
        } else {
            r
        },
        Constraint::Binary(a, b, f) => if m.contains_key(a@) && m.contains_key(b@) {
            call_ensures(f, (&m[a@], &m[b@]), r)
        } else {
            r
        },
    }
}

/// Some constraint's test can answer false on the values bound in `m`.
pub open spec fn refuted<T, U: Fn(&T) -> bool, B: Fn(&T, &T) -> bool>(
    cons: Seq<Constraint<U, B>>,
    m: Binding<T>,
) -> bool {
    exists|i: int| 0 <= i < cons.len() && constraint_answers(#[trigger] cons[i], m, false)
}

/// The tests have answered on `m`: all of them true, or one of them false.
pub open spec fn decided<T, U: Fn(&T) -> bool, B: Fn(&T, &T) -> bool>(
    cons: Seq<Constraint<U, B>>,
    m: Binding<T>,
) -> bool {
    consistent(cons, m) || refuted(cons, m)
}

/// `s` is a candidate whose parts before each position between `from` and
/// `to` satisfy the constraints, so that the search, once it stands at the
/// part before `from`, comes to test the part before `to`.
pub open spec fn reached<T, U: Fn(&T) -> bool, B: Fn(&T, &T) -> bool>(
    vars: Seq<Declared<T>>,
    cons: Seq<Constraint<U, B>>,
    s: Binding<T>,
    from: int,
    to: int,
) -> bool {
    &&& distinct_names(vars)
    &&& drawn_from_domains(vars, s)
    &&& 0 <= from < to <= vars.len()
    &&& forall|j: int| from < j < to ==> consistent(cons, #[trigger] bound_before(vars, s, j))
}

/// One of the first `k` values of the domain of variable `i` is the value
/// that `s` gives to that variable.
pub open spec fn tried<T>(vars: Seq<Declared<T>>, s: Binding<T>, i: int, k: int) -> bool {
    exists|q: int| 0 <= q < k && q < vars[i].1.len() && #[trigger] vars[i].1[q] == s[vars[i].0]
}

/// Below `m` the tests have answered on every part of a candidate that the
/// search from `m` comes to test.
pub open spec fn decided_below<T, U: Fn(&T) -> bool, B: Fn(&T, &T) -> bool>(
    vars: Seq<Declared<T>>,
    cons: Seq<Constraint<U, B>>,
    m: Binding<T>,
) -> bool {
    forall|s: Binding<T>, t: int|
        m == bound_before(vars, s, first_unbound(vars, m, 0)) && #[trigger] reached(
            vars,
            cons,
            s,
            first_unbound(vars, m, 0),
            t,
        ) ==> decided(cons, bound_before(vars, s, t))
}

/// The tests have answered on every part of a candidate that the search
/// comes to test.
pub open spec fn all_tests_answered<T, U: Fn(&T) -> bool, B: Fn(&T, &T) -> bool>(
    vars: Seq<Declared<T>>,
    cons: Seq<Constraint<U, B>>,
) -> bool {
    forall|s: Binding<T>, t: int| #[trigger]
        reached(vars, cons, s, 0, t) ==> decided(cons, bound_before(vars, s, t))
}

/// The position of the first variable at or after `from` that is unbound in
/// `m`, or the number of variables if there is none.
pub open spec fn first_unbound<T>(vars: Seq<Declared<T>>, m: Binding<T>, from: int) -> int
    decreases vars.len() - from,
{
    if from < 0 || from >= vars.len() {
        vars.len() as int
    } else if !m.contains_key(vars[from].0) {
        from
    } else {
        first_unbound(vars, m, from + 1)
    }
}

/// The solutions found below `m` when the variables before position `i` have
/// been dealt with: `m` itself when no variable is left, and otherwise what
/// the domain of the next unbound variable yields, value by value.
pub open spec fn completions_from<T, U: Fn(&T) -> bool, B: Fn(&T, &T) -> bool>(
    vars: Seq<Declared<T>>,
    cons: Seq<Constraint<U, B>>,
    m: Binding<T>,
    i: int,
) -> Seq<Binding<T>>
    decreases vars.len() - i, 1int, 0int,
{
    if i < 0 || i >= vars.len() {
        seq![m]
    } else if m.contains_key(vars[i].0) {
        completions_from(vars, cons, m, i + 1)
    } else {
        completions_upto(vars, cons, m, i, vars[i].1.len() as int)
    }
}

/// The solutions found by binding variable `i` to each of the first `k`
/// values of its domain in turn. A value under which some constraint fails is
/// passed over.
pub open spec fn completions_upto<T, U: Fn(&T) -> bool, B: Fn(&T, &T) -> bool>(
    vars: Seq<Declared<T>>,
    cons: Seq<Constraint<U, B>>,
    m: Binding<T>,
    i: int,
    k: int,
) -> Seq<Binding<T>>
    decreases vars.len() - i, 0int, k,
{
    if i < 0 || i >= vars.len() || k <= 0 || k > vars[i].1.len() {
        Seq::empty()
    } else {
        let bound = m.insert(vars[i].0, vars[i].1[k - 1]);
        completions_upto(vars, cons, m, i, k - 1) + (if consistent(cons, bound) {
            completions_from(vars, cons, bound, i + 1)
        } else {
            Seq::empty()
        })
    }
}

/// All solutions, in the order in which the search finds them.
pub open spec fn all_solutions<T, U: Fn(&T) -> bool, B: Fn(&T, &T) -> bool>(
    vars: Seq<Declared<T>>,
    cons: Seq<Constraint<U, B>>,
) -> Seq<Binding<T>> {
    completions_from(vars, cons, Map::empty(), 0)
}


/// The first unbound position at or after `from` lies between `from` and the
/// number of variables, every variable between the two is bound, and the one
/// found is not.
pub proof fn lemma_first_unbound<T>(vars: Seq<Declared<T>>, m: Binding<T>, from: int)
    requires
        0 <= from <= vars.len(),
    ensures
        from <= first_unbound(vars, m, from) <= vars.len(),
        forall|j: int|
            from <= j < first_unbound(vars, m, from) ==> m.contains_key(#[trigger] vars[j].0),
        first_unbound(vars, m, from) < vars.len() ==> !m.contains_key(
            vars[first_unbound(vars, m, from)].0,
        ),
    decreases vars.len() - from,
{
    if from < vars.len() && m.contains_key(vars[from].0) {
        lemma_first_unbound(vars, m, from + 1);
    }
}

/// Where every variable from `from` up to `to` is bound, the first unbound
/// position after `from` is the first after `to`.
pub proof fn lemma_first_unbound_skips<T>(
    vars: Seq<Declared<T>>,
    m: Binding<T>,
    from: int,
    to: int,
)
    requires
        0 <= from <= to <= vars.len(),
        forall|j: int| from <= j < to ==> m.contains_key(#[trigger] vars[j].0),
    ensures
        first_unbound(vars, m, from) == first_unbound(vars, m, to),
    decreases to - from,
{
    if from < to {
        lemma_first_unbound_skips(vars, m, from + 1, to);
    }
}

/// No variable is unbound exactly when the assignment is complete.
pub proof fn lemma_complete_iff_none_unbound<T>(vars: Seq<Declared<T>>, m: Binding<T>)
    ensures
        complete(vars, m) <==> first_unbound(vars, m, 0) == vars.len(),
{
    lemma_first_unbound(vars, m, 0);
    if complete(vars, m) && first_unbound(vars, m, 0) < vars.len() {
        assert(m.contains_key(vars[first_unbound(vars, m, 0)].0));
    }
}

/// The search from position `from` is the search from the first unbound
/// position after it.
pub proof fn lemma_completions_skip_bound<T, U: Fn(&T) -> bool, B: Fn(&T, &T) -> bool>(
    vars: Seq<Declared<T>>,
    cons: Seq<Constraint<U, B>>,
    m: Binding<T>,
    from: int,
)
    requires
        0 <= from <= vars.len(),
    ensures
        completions_from(vars, cons, m, from) == completions_from(
            vars,
            cons,
            m,
            first_unbound(vars, m, from),
        ),
    decreases vars.len() - from,
{
    if from < vars.len() && m.contains_key(vars[from].0) {
        lemma_completions_skip_bound(vars, cons, m, from + 1);
    }
}


/// One step of the search from position `i`, written out.
pub proof fn lemma_completions_from_step<T, U: Fn(&T) -> bool, B: Fn(&T, &T) -> bool>(
    vars: Seq<Declared<T>>,
    cons: Seq<Constraint<U, B>>,
    m: Binding<T>,
    i: int,
)
    ensures
        completions_from(vars, cons, m, i) == (if i < 0 || i >= vars.len() {
            seq![m]
        } else if m.contains_key(vars[i].0) {
            completions_from(vars, cons, m, i + 1)
        } else {
            completions_upto(vars, cons, m, i, vars[i].1.len() as int)
        }),
{
}

/// One step of the walk through the domain of variable `i`, written out.
pub proof fn lemma_completions_upto_step<T, U: Fn(&T) -> bool, B: Fn(&T, &T) -> bool>(
    vars: Seq<Declared<T>>,
    cons: Seq<Constraint<U, B>>,
    m: Binding<T>,
    i: int,
    k: int,
)
    ensures
        completions_upto(vars, cons, m, i, k) == (if i < 0 || i >= vars.len() || k <= 0 || k
            > vars[i].1.len() {
            Seq::empty()
        } else {
            completions_upto(vars, cons, m, i, k - 1) + (if consistent(
                cons,
                m.insert(vars[i].0, vars[i].1[k - 1]),
            ) {
                completions_from(vars, cons, m.insert(vars[i].0, vars[i].1[k - 1]), i + 1)
            } else {
                Seq::empty()
            })
        }),
{
}


/// The part of a candidate before position `i + 1` is its part before `i`
/// with variable `i` bound as the candidate binds it.
pub proof fn lemma_bound_before_step<T>(vars: Seq<Declared<T>>, s: Binding<T>, i: int)
    requires
        0 <= i < vars.len(),
    ensures
        bound_before(vars, s, i + 1) == bound_before(vars, s, i).insert(vars[i].0, s[vars[i].0]),
{
    let m = bound_before(vars, s, i);
    let bound = m.insert(vars[i].0, s[vars[i].0]);
    let next = bound_before(vars, s, i + 1);
    assert forall|k: Seq<char>| bound.contains_key(k) == next.contains_key(k) by {
        if declared_before(vars, k, i) {
            let j = choose|j: int| 0 <= j < i && j < vars.len() && (#[trigger] vars[j]).0 == k;
            assert(0 <= j < i + 1 && vars[j].0 == k);
        }
        if k == vars[i].0 {
            assert(0 <= i < i + 1 && vars[i].0 == k);
        }
        if declared_before(vars, k, i + 1) {
            let j = choose|j: int| 0 <= j < i + 1 && j < vars.len() && (#[trigger] vars[j]).0 == k;
            if j < i {
                assert(declared_before(vars, k, i));
            }
        }
    }
    assert(bound =~= next);
}

/// Where no two variables share a name, the first variable left unbound by
/// the part of a candidate before position `i` is variable `i`.
pub proof fn lemma_first_unbound_of_part<T>(vars: Seq<Declared<T>>, s: Binding<T>, i: int)
    requires
        0 <= i <= vars.len(),
        distinct_names(vars),
    ensures
        first_unbound(vars, bound_before(vars, s, i), 0) == i,
{
    let m = bound_before(vars, s, i);
    assert forall|j: int| 0 <= j < i implies m.contains_key(#[trigger] vars[j].0) by {
        assert(0 <= j < i && j < vars.len() && vars[j].0 == vars[j].0);
        assert(declared_before(vars, vars[j].0, i));
    }
    lemma_first_unbound_skips(vars, m, 0, i);
    if i < vars.len() {
        if m.contains_key(vars[i].0) {
            let j = choose|j: int| 0 <= j < i && j < vars.len() && (#[trigger] vars[j]).0 == vars[i].0;
            assert(false);
        }
    }
}

} // verus!
