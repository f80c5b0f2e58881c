use sudoku::field::Cell::{Digit, Empty};
use sudoku::field::{parse_field, Field};
use sudoku::search::{find_solution, try_extend_field};
use sudoku::tasks::{solve_unit, spawn_tasks, Work, SPAWN_DEPTH};

const CANONICAL: &str = r#"
123456789
456789123
789123456
214365897
365897214
897214365
531642978
642978531
978531642
"#;

fn canonical() -> Field {
    parse_field(
        &CANONICAL
            .split("\n")
            .skip(1)
            .map(|x| x.to_string())
            .collect(),
    )
    .unwrap()
}

/// Splits the search and runs every unit in turn, as the worker pool would.
fn solve_by_units(mut f: Field) -> Option<Field> {
    let mut tasks = Vec::new();
    spawn_tasks(&mut f, SPAWN_DEPTH, &mut tasks);
    tasks.into_iter().find_map(solve_unit)
}

#[test]
fn test_try_extend_field_all_steps() {
    let mut f: Field = Field::empty();
    f.set(0, 0, Digit(1));

    let f_initial = f.clone();
    let mut called_with = Vec::new();

    assert!(try_extend_field(
        &mut f,
        |_| panic!("Field is not solved"),
        |f_next| {
            called_with.push(f_next.clone());
            None
        }
    )
    .is_none());
    assert_eq!(f, f_initial);
    assert_eq!(called_with.len(), 9);

    let mut f = Field::empty();
    f.set(0, 0, Digit(1));

    f.set(0, 1, Digit(1));
    assert_eq!(f, called_with[0]);
    f.set(0, 1, Digit(2));
    assert_eq!(f, called_with[1]);
    f.set(0, 1, Digit(9));
    assert_eq!(f, called_with[8]);
}

#[test]
fn test_try_extend_field_first_steps() {
    let mut f: Field = Field::empty();
    f.set(0, 0, Digit(1));

    let mut called_with = Vec::new();

    assert_eq!(
        try_extend_field(
            &mut f,
            |_| panic!("Field is not solved"),
            |f_next| {
                called_with.push(f_next.clone());
                if called_with.len() < 3 {
                    None
                } else {
                    Some(12345)
                }
            }
        ),
        Some(12345)
    );
    assert_eq!(called_with.len(), 3);
    assert_eq!(f, called_with[2]);

    let mut f = Field::empty();
    f.set(0, 0, Digit(1));

    f.set(0, 1, Digit(1));
    assert_eq!(f, called_with[0]);
    f.set(0, 1, Digit(2));
    assert_eq!(f, called_with[1]);
    f.set(0, 1, Digit(3));
    assert_eq!(f, called_with[2]);
}

#[test]
fn test_find_solution_empty() {
    let expected = canonical();
    assert!(expected.full());
    assert!(!expected.contradictory());

    let found = find_solution(&mut Field::empty()).unwrap();
    assert!(found.full());
    assert!(!found.contradictory());
    assert_eq!(found, expected);
}

#[test]
fn test_find_solution_no_solution() {
    let mut f = Field::empty();
    f.set(0, 0, Digit(1));
    f.set(0, 1, Digit(1));
    assert!(find_solution(&mut f).is_none());
}

#[test]
fn test_find_solution_one_step_solution() {
    let mut f = Field::empty();
    assert!(find_solution(&mut f).is_some());
    assert!(f.full());

    f.set(3, 3, Empty);
    assert!(find_solution(&mut f).is_some());
}

#[test]
fn no_solution_leaves_grid_unchanged() {
    let mut f = Field::empty();
    f.set(0, 0, Digit(1));
    f.set(0, 1, Digit(1));
    let before = f.clone();
    assert!(f.contradictory());
    assert!(find_solution(&mut f).is_none());
    assert_eq!(f, before);
}

#[test]
fn contradictory_grid_is_never_extended() {
    let mut f = Field::empty();
    f.set(4, 0, Digit(7));
    f.set(4, 8, Digit(7));
    let before = f.clone();
    let mut calls = 0;
    let r: Option<u8> = try_extend_field(&mut f, |_| 1, |_| {
        calls += 1;
        Some(2)
    });
    assert_eq!(r, None);
    assert_eq!(calls, 0);
    assert_eq!(f, before);
}

#[test]
fn full_grid_goes_to_solved_continuation() {
    let mut f = canonical();
    let r: Option<u8> = try_extend_field(&mut f, |_| 7, |_| panic!("Field is full"));
    assert_eq!(r, Some(7));
    assert_eq!(f, canonical());
}

#[test]
fn one_empty_cell_tries_every_digit_in_order() {
    let mut f = canonical();
    f.set(8, 8, Empty);
    let before = f.clone();
    let mut digits = Vec::new();
    let r: Option<u8> = try_extend_field(&mut f, |_| 0, |g| {
        digits.push(g.get(8, 8));
        None
    });
    assert_eq!(r, None);
    assert_eq!(f, before);
    assert_eq!(digits, (1..=9).map(Digit).collect::<Vec<_>>());
}

#[test]
fn short_circuit_keeps_winning_candidate() {
    let mut f = Field::empty();
    let mut calls = 0;
    let r = try_extend_field(&mut f, |_| 0, |_| {
        calls += 1;
        if calls == 5 {
            Some(calls)
        } else {
            None
        }
    });
    assert_eq!(r, Some(5));
    assert_eq!(calls, 5);
    assert_eq!(f.get(0, 0), Digit(5));
    assert_eq!(f.get(0, 1), Empty);
}

#[test]
fn sequential_solve_is_deterministic() {
    let a = find_solution(&mut Field::empty()).unwrap();
    let b = find_solution(&mut Field::empty()).unwrap();
    assert_eq!(a, b);
    assert_eq!(a, canonical());
}

#[test]
fn solve_leaves_solution_in_grid() {
    let mut f = canonical();
    f.set(0, 0, Empty);
    f.set(5, 7, Empty);
    let s = find_solution(&mut f).unwrap();
    assert_eq!(f, s);
    assert_eq!(s, canonical());
}

#[test]
fn near_complete_solve_restores_cleared_cell() {
    for (row, col) in [(0, 0), (3, 3), (8, 8), (4, 7)] {
        let mut f = canonical();
        let digit = f.get(row, col);
        f.set(row, col, Empty);
        let s = find_solution(&mut f).unwrap();
        assert!(s.full());
        assert!(!s.contradictory());
        assert_eq!(s.get(row, col), digit);
    }
}

#[test]
fn split_search_finds_valid_solution_of_empty_grid() {
    let s = solve_by_units(Field::empty()).unwrap();
    assert!(s.full());
    assert!(!s.contradictory());
}

#[test]
fn split_search_reports_no_solution() {
    let mut f = Field::empty();
    f.set(0, 0, Digit(1));
    f.set(0, 1, Digit(1));
    assert!(solve_by_units(f).is_none());
}

#[test]
fn split_search_near_complete() {
    let mut f = canonical();
    f.set(3, 3, Empty);
    let s = solve_by_units(f).unwrap();
    assert_eq!(s, canonical());
}

#[test]
fn split_of_empty_grid_makes_all_depth_two_units() {
    let mut f = Field::empty();
    let mut tasks = Vec::new();
    spawn_tasks(&mut f, SPAWN_DEPTH, &mut tasks);
    assert_eq!(f, Field::empty());
    // Every digit at (0,0), then every digit at (0,1); the clashes are left
    // for the units themselves to reject.
    assert_eq!(tasks.len(), 9 * 9);
    match &tasks[1] {
        Work::Solve(g) => {
            assert_eq!(g.get(0, 0), Digit(1));
            assert_eq!(g.get(0, 1), Digit(2));
            assert_eq!(g.get(0, 2), Empty);
        }
        Work::Found(_) => panic!("not full"),
    }
}

#[test]
fn split_of_full_grid_reports_it_found() {
    let mut f = canonical();
    let mut tasks = Vec::new();
    spawn_tasks(&mut f, SPAWN_DEPTH, &mut tasks);
    assert_eq!(tasks.len(), 1);
    assert!(matches!(&tasks[0], Work::Found(g) if *g == canonical()));
}

#[test]
fn split_at_depth_zero_is_one_unit() {
    let mut f = Field::empty();
    f.set(0, 0, Digit(1));
    f.set(0, 1, Digit(1));
    let mut tasks = Vec::new();
    spawn_tasks(&mut f, 0, &mut tasks);
    assert_eq!(tasks.len(), 1);
    assert!(matches!(solve_unit(tasks.pop().unwrap()), None));
}

#[test]
fn clone_compares_equal_cell_by_cell() {
    let mut f = canonical();
    f.set(2, 2, Empty);
    let g = f.clone();
    assert_eq!(f, g);
    assert_eq!(f, f.snapshot());
    let mut h = g.clone();
    h.set(2, 2, Digit(9));
    assert_ne!(f, h);
}

#[test]
fn parse_reads_digits_and_blanks() {
    let lines: Vec<String> = vec![
        "1........".to_string(),
        ".........".to_string(),
        ".........".to_string(),
        ".........".to_string(),
        "....5....".to_string(),
        ".........".to_string(),
        ".........".to_string(),
        ".........".to_string(),
        "000000009".to_string(),
    ];
    let f = parse_field(&lines).unwrap();
    assert_eq!(f.get(0, 0), Digit(1));
    assert_eq!(f.get(4, 4), Digit(5));
    assert_eq!(f.get(8, 8), Digit(9));
    assert_eq!(f.get(8, 0), Empty);
    assert!(!f.full());
}

#[test]
fn parse_rejects_bad_input() {
    let short: Vec<String> = vec![".........".to_string(); 8];
    assert!(parse_field(&short).is_none());
    let mut wide: Vec<String> = vec![".........".to_string(); 9];
    wide[3] = "..........".to_string();
    assert!(parse_field(&wide).is_none());
    let mut bad: Vec<String> = vec![".........".to_string(); 9];
    bad[5] = "....x....".to_string();
    assert!(parse_field(&bad).is_none());
}

#[test]
fn solved_continuation_may_change_the_grid() {
    let mut f = canonical();
    let r: Option<u8> = try_extend_field(
        &mut f,
        |g| {
            g.set(0, 0, Empty);
            3
        },
        |_| panic!("Field is full"),
    );
    assert_eq!(r, Some(3));
    assert_eq!(f.get(0, 0), Empty);
    assert_eq!(f.get(0, 1), Digit(2));
}
