use csp_solver::assignment::Assingment;
use csp_solver::engine::{basic_recursive_backtracking, recursive_backtracking};
use csp_solver::model::{Constraint, Problem, Solution, Solver, Variable};
use csp_solver::names::NameMap;

type Unary = fn(&i32) -> bool;
type Binary = fn(&i32, &i32) -> bool;
type Numbers = Problem<i32, Unary, Binary>;

fn pairs(solutions: &Vec<Solution<i32>>, names: &[&str]) -> Vec<Vec<Option<i32>>> {
    solutions
        .iter()
        .map(|s| names.iter().map(|n| s.get_map().get(n).copied()).collect())
        .collect()
}

fn two_variable_problem() -> Numbers {
    Numbers::new()
        .variable("a", vec![1, 2, 3])
        .variable("b", vec![3, 4, 5, 6])
        .constraint_unary("a", |a| *a != 1)
        .constraint_unary("a", |a| *a != 2)
        .constraint_binary("a", "b", |a, b| a != b)
}

#[test]
fn three_solutions_with_a_fixed() {
    let found = two_variable_problem().get_solutions();
    assert_eq!(
        pairs(&found, &["a", "b"]),
        vec![
            vec![Some(3), Some(4)],
            vec![Some(3), Some(5)],
            vec![Some(3), Some(6)]
        ]
    );
}

#[test]
fn unconstrained_pairs_in_search_order() {
    let p = Numbers::new().variable("x", vec![1, 2]).variable("y", vec![1, 2]);
    let found = p.get_solutions();
    assert_eq!(
        pairs(&found, &["x", "y"]),
        vec![
            vec![Some(1), Some(1)],
            vec![Some(1), Some(2)],
            vec![Some(2), Some(1)],
            vec![Some(2), Some(2)]
        ]
    );
}

#[test]
fn single_value_ruled_out() {
    let p = Numbers::new().variable("z", vec![1]).constraint_unary("z", |z| *z != 1);
    assert!(p.get_solutions().is_empty());
}

#[test]
fn unconstrained_count_is_product_of_domain_sizes() {
    let p = Numbers::new()
        .variable("a", vec![1, 2, 3])
        .variable("b", vec![10, 20])
        .variable("c", vec![7, 8, 9, 10, 11]);
    assert_eq!(p.get_solutions().len(), 30);
}

#[test]
fn empty_domain_gives_no_solution() {
    let p = Numbers::new()
        .variable("a", vec![1, 2, 3])
        .variable("b", vec![])
        .variable("c", vec![1]);
    assert!(p.get_solutions().is_empty());
}

#[test]
fn no_variables_gives_the_empty_solution() {
    let p = Numbers::new().constraint_unary("a", |a| *a > 100);
    let found = p.get_solutions();
    assert_eq!(found.len(), 1);
    assert!(found[0].get_map().get("a").is_none());
}

#[test]
fn repeated_solving_gives_the_same_solutions() {
    let p = two_variable_problem();
    let first = p.get_solutions();
    let second = p.get_solutions();
    assert_eq!(pairs(&first, &["a", "b"]), pairs(&second, &["a", "b"]));
}

#[test]
fn every_solution_is_complete_and_consistent() {
    let p = Numbers::new()
        .variables(vec!["p", "q", "r"], vec![0, 1, 2, 3])
        .constraint_binary("p", "q", |p, q| p < q)
        .constraint_binary("q", "r", |q, r| q < r)
        .constraint_unary("r", |r| *r != 2);
    let found = p.get_solutions();
    assert_eq!(
        pairs(&found, &["p", "q", "r"]),
        vec![
            vec![Some(0), Some(1), Some(3)],
            vec![Some(0), Some(2), Some(3)],
            vec![Some(1), Some(2), Some(3)]
        ]
    );
}

#[test]
fn constraint_on_undeclared_variable_is_passed_over() {
    let p = Numbers::new()
        .variable("a", vec![1, 2])
        .constraint_unary("missing", |_| false)
        .constraint_binary("a", "missing", |_, _| false);
    assert_eq!(pairs(&p.get_solutions(), &["a"]), vec![vec![Some(1)], vec![Some(2)]]);
}

#[test]
fn repeated_name_is_bound_once() {
    let p = Numbers::new().variable("x", vec![1, 2]).variable("x", vec![5, 6, 7]);
    assert_eq!(pairs(&p.get_solutions(), &["x"]), vec![vec![Some(1)], vec![Some(2)]]);
}

#[test]
fn solver_can_be_chosen() {
    assert!(Solver::default() == Solver::RecursiveBacktracking);
    let mut p = Numbers::new().solver(Solver::RecursiveBacktracking).variable("a", vec![4]);
    p.set_solver(Solver::RecursiveBacktracking);
    assert_eq!(pairs(&p.get_solutions(), &["a"]), vec![vec![Some(4)]]);
    assert_eq!(pairs(&basic_recursive_backtracking(&p), &["a"]), vec![vec![Some(4)]]);
}

#[test]
fn constraints_can_be_added_whole() {
    let mut p = Numbers::new().variable("a", vec![1, 2, 3]);
    p.add_constraint(Constraint::Unary("a".to_string(), |a| *a > 1));
    let p = p.constraint(Constraint::Binary("a".to_string(), "a".to_string(), |a, b| a + b < 6));
    assert_eq!(pairs(&p.get_solutions(), &["a"]), vec![vec![Some(2)]]);
    assert_eq!(p.constraint_count(), 2);
    assert!(matches!(p.constraint_at(0), Constraint::Unary(n, _) if n == "a"));
}

#[test]
fn variables_are_kept_in_declaration_order() {
    let mut p = Numbers::new();
    p.add_variable("first", vec![1]);
    p.add_variables(vec!["second", "third"], vec![2, 3]);
    p.add_constraint_unary("first", |a| *a == 1);
    p.add_constraint_binary("second", "third", |a, b| a == b);
    assert_eq!(p.variable_count(), 3);
    assert_eq!(p.variable_at(0).name(), "first");
    assert_eq!(p.variable_at(1).name(), "second");
    assert_eq!(p.variable_at(2).name(), "third");
    assert_eq!(p.variable_at(2).domains(), &vec![2, 3]);
    assert_eq!(
        pairs(&p.get_solutions(), &["first", "second", "third"]),
        vec![vec![Some(1), Some(2), Some(2)], vec![Some(1), Some(3), Some(3)]]
    );
}

#[test]
fn variable_keeps_name_and_domain() {
    let v = Variable::new("v".to_string(), vec![3, 1, 2]);
    assert_eq!(v.name(), "v");
    assert_eq!(v.domains(), &vec![3, 1, 2]);
    let w = v.clone();
    assert_eq!(w.name(), "v");
    assert_eq!(w.domains(), &vec![3, 1, 2]);
}

#[test]
fn assignment_checks_follow_the_bindings() {
    let p = two_variable_problem();
    let mut a: Assingment<i32> = Assingment::new();
    assert!(a.is_consistent(&p));
    assert!(!a.is_complete(&p));
    assert_eq!(a.select_position(&p), Some(0));
    assert_eq!(a.select_variable(&p).unwrap().name(), "a");

    a.insert("a", &1);
    assert!(!a.is_consistent(&p));
    a.insert("a", &3);
    assert!(a.is_consistent(&p));
    assert!(!a.is_complete(&p));
    assert_eq!(a.select_variable(&p).unwrap().name(), "b");
    assert_eq!(a.select_variable(&p).unwrap().domains(), &vec![3, 4, 5, 6]);

    a.insert("b", &3);
    assert!(a.is_complete(&p));
    assert!(!a.is_consistent(&p));
    assert!(a.select_variable(&p).is_none());
    assert_eq!(a.select_position(&p), None);
    a.remove("b");
    assert!(!a.is_complete(&p));
    a.insert("b", &6);
    assert!(a.is_consistent(&p));
    assert!(a.satisfies(&Constraint::<Unary, Binary>::Unary("a".to_string(), |a| *a == 3)));
    assert!(!a.satisfies(&Constraint::<Unary, Binary>::Binary(
        "b".to_string(),
        "a".to_string(),
        |b, a| b < a
    )));

    let s = a.clone().solution();
    assert_eq!(s.get_map().get("a"), Some(&3));
    assert_eq!(s.get_map().get("b"), Some(&6));
    a.remove("a");
    assert_eq!(s.get_map().get("a"), Some(&3));
}

#[test]
fn search_restores_the_assignment_and_appends() {
    let p = two_variable_problem();
    let mut a: Assingment<i32> = Assingment::new();
    a.insert("b", &5);
    let mut found: Vec<Solution<i32>> = Vec::new();
    assert!(!recursive_backtracking(&mut found, &mut a, &p));
    assert_eq!(pairs(&found, &["a", "b"]), vec![vec![Some(3), Some(5)]]);
    assert!(!a.is_complete(&p));
    a.insert("a", &3);
    assert!(recursive_backtracking(&mut found, &mut a, &p));
    assert_eq!(
        pairs(&found, &["a", "b"]),
        vec![vec![Some(3), Some(5)], vec![Some(3), Some(5)]]
    );
    assert!(a.is_complete(&p));
}

#[test]
fn name_map_binds_replaces_and_unbinds() {
    let mut m: NameMap<i32> = NameMap::new();
    assert!(!m.contains_key("k"));
    assert_eq!(m.get("k"), None);
    m.insert("k", 1);
    m.insert("l", 2);
    assert!(m.contains_key("k"));
    assert_eq!(m.get("k"), Some(&1));
    m.insert("k", 7);
    assert_eq!(m.get("k"), Some(&7));
    assert_eq!(m.get("l"), Some(&2));
    m.remove("k");
    assert_eq!(m.get("k"), None);
    assert_eq!(m.get("l"), Some(&2));
    m.remove("absent");
    assert_eq!(m.get("l"), Some(&2));
    let c = m.clone();
    m.remove("l");
    assert_eq!(c.get("l"), Some(&2));
    assert!(!m.contains_key("l"));
}

#[test]
fn name_map_keeps_each_name_once() {
    let mut m: NameMap<i32> = NameMap::new();
    assert_eq!(m.len(), 0);
    m.insert("k", 1);
    m.insert("l", 2);
    m.insert("k", 3);
    assert_eq!(m.len(), 2);
    assert_eq!(m.key_at(0), "k");
    assert_eq!(*m.value_at(0), 3);
    assert_eq!(m.key_at(1), "l");
    assert_eq!(*m.value_at(1), 2);
    m.remove("k");
    assert_eq!(m.len(), 1);
    assert_eq!(m.key_at(0), "l");
}

#[test]
fn variable_from_name_and_domain() {
    let v: Variable = Variable::from(("day".to_string(), vec!["Mon".to_string(), "Tue".to_string()]));
    assert_eq!(v.name(), "day");
    assert_eq!(v.domains(), &vec!["Mon".to_string(), "Tue".to_string()]);
    let w: Variable = Variable::from(("day", vec!["Mon", "Tue"]));
    assert_eq!(w.name(), "day");
    assert_eq!(w.domains(), &vec!["Mon".to_string(), "Tue".to_string()]);
}

#[test]
fn solutions_hold_owned_strings() {
    let p = Problem::<String, fn(&String) -> bool, fn(&String, &String) -> bool>::new()
        .variables(vec!["u", "v"], vec!["red".to_string(), "blue".to_string()])
        .constraint_binary("u", "v", |u, v| u != v)
        .constraint_unary("u", |u| u.len() == 3);
    let found = p.get_solutions();
    assert_eq!(found.len(), 1);
    assert_eq!(found[0].get_map().get("u"), Some(&"red".to_string()));
    assert_eq!(found[0].get_map().get("v"), Some(&"blue".to_string()));
    assert_eq!(found[0].get_map().len(), 2);
}
