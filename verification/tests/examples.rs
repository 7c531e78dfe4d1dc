use csp_solver::prelude::{Problem, Solution};

type Unary<T> = fn(&T) -> bool;
type Binary<T> = fn(&T, &T) -> bool;

fn show_numbers(solution: &Solution<i32>, names: &[&str]) -> String {
    let pairs: Vec<String> = names
        .iter()
        .map(|k| format!("{k}: {}", solution.get_map().get(k).unwrap()))
        .collect();
    format!("{{{}}}", pairs.join(", "))
}

fn show_days(solution: &Solution<&str>, names: &[&str]) -> String {
    let pairs: Vec<String> = names
        .iter()
        .map(|k| format!("{k}: {}", solution.get_map().get(k).unwrap()))
        .collect();
    format!("{{{}}}", pairs.join(", "))
}

#[test]
fn test() {
    let p = Problem::<i32, Unary<i32>, Binary<i32>>::new()
        .variable("a", vec![1, 2, 3])
        .variable("b", vec![3, 4, 5, 6])
        .constraint_unary("a", |a| *a != 1)
        .constraint_unary("a", |a| *a != 2)
        .constraint_binary("a", "b", |a, b| a != b);

    println!("{:?}", p.get_solutions());
    println!("{}", show_numbers(&p.get_solutions()[0], &["a", "b"]));
    assert_eq!(p.get_solutions().len(), 3);
    assert_eq!(show_numbers(&p.get_solutions()[0], &["a", "b"]), "{a: 3, b: 4}");

    let p = Problem::<i32, Unary<i32>, Binary<i32>>::new()
        .variable("a", (0..100).into_iter().collect())
        .variable("b", (0..100).into_iter().collect())
        .constraint_binary("a", "b", |a, b| 5 * a + 2 * b <= 20)
        .constraint_binary("a", "b", |a, b| 10 * a + 12 * b >= 90);

    println!("{:?}", p.get_solutions());
    println!("{}", show_numbers(&p.get_solutions()[0], &["a", "b"]));
    let found = p.get_solutions();
    assert!(!found.is_empty());
    for s in found.iter() {
        let a = *s.get_map().get("a").unwrap();
        let b = *s.get_map().get("b").unwrap();
        assert!(5 * a + 2 * b <= 20);
        assert!(10 * a + 12 * b >= 90);
    }
    let mut expected = 0;
    for a in 0..100 {
        for b in 0..100 {
            if 5 * a + 2 * b <= 20 && 10 * a + 12 * b >= 90 {
                expected += 1;
            }
        }
    }
    assert_eq!(found.len(), expected);
    assert_eq!(show_numbers(&found[0], &["a", "b"]), "{a: 0, b: 8}");
}

#[test]
fn cs50_example() {
    let mut problem = Problem::<&str, Unary<&str>, Binary<&str>>::new().variables(
        vec!["A", "B", "C", "D", "E", "F", "G"],
        vec!["Monday", "Tuesday", "Wednesday"],
    );

    let constraints = vec![
        ("A", "B"),
        ("A", "C"),
        ("B", "C"),
        ("B", "D"),
        ("B", "E"),
        ("C", "E"),
        ("C", "F"),
        ("D", "E"),
        ("E", "F"),
        ("E", "G"),
        ("F", "G"),
    ];

    for (x, y) in constraints.iter() {
        problem.add_constraint_binary(x, y, |x, y| x != y)
    }

    let solutions = problem.get_solutions();
    for solution in solutions.iter() {
        println!("{}", show_days(solution, &["A", "B", "C", "D", "E", "F", "G"]))
    }
    assert!(solutions.len() > 0);
    for solution in solutions.iter() {
        for (x, y) in constraints.iter() {
            assert_ne!(solution.get_map().get(x).unwrap(), solution.get_map().get(y).unwrap());
        }
        for day in ["A", "B", "C", "D", "E", "F", "G"] {
            let value = *solution.get_map().get(day).unwrap();
            assert!(value == "Monday" || value == "Tuesday" || value == "Wednesday");
        }
    }
}
