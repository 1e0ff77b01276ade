use machine_solver::counters::{affecting_buttons, check_presses, counter_equations, solve_part2};

#[test]
fn example_two_counters_total_five() {
    let buttons = vec![vec![0], vec![1], vec![0, 1]];
    let targets = vec![3, 5];
    assert_eq!(solve_part2(&buttons, &targets, Some(vec![0, 2, 3])), Some(5));
}

#[test]
fn answer_that_misses_a_target_is_refused() {
    let buttons = vec![vec![0], vec![1], vec![0, 1]];
    let targets = vec![3, 5];
    assert_eq!(solve_part2(&buttons, &targets, Some(vec![1, 1, 1])), None);
    assert_eq!(solve_part2(&buttons, &targets, Some(vec![0, 2])), None);
    assert_eq!(solve_part2(&buttons, &targets, None), None);
}

#[test]
fn no_buttons_zero_targets() {
    let buttons: Vec<Vec<usize>> = vec![];
    assert_eq!(solve_part2(&buttons, &vec![0, 0], None), Some(0));
    assert_eq!(solve_part2(&buttons, &vec![], None), Some(0));
}

#[test]
fn no_buttons_nonzero_target_is_unsatisfiable() {
    let buttons: Vec<Vec<usize>> = vec![];
    assert_eq!(solve_part2(&buttons, &vec![0, 4], Some(vec![])), None);
}

#[test]
fn equations_list_buttons_per_counter() {
    let buttons = vec![vec![3], vec![1, 3], vec![2], vec![2, 3], vec![0, 2], vec![0, 1]];
    assert_eq!(
        counter_equations(&buttons, 4),
        vec![vec![4, 5], vec![1, 5], vec![2, 3, 4], vec![0, 1, 3]]
    );
    assert_eq!(affecting_buttons(&buttons, 7), Vec::<usize>::new());
}

#[test]
fn check_presses_totals() {
    let buttons = vec![vec![3], vec![1, 3], vec![2], vec![2, 3], vec![0, 2], vec![0, 1]];
    let targets = vec![3, 5, 4, 7];
    assert_eq!(check_presses(&buttons, &targets, &vec![1, 3, 0, 3, 1, 2]), Some(10));
    assert_eq!(check_presses(&buttons, &targets, &vec![1, 3, 0, 3, 1, 1]), None);
}

#[test]
fn check_presses_overflow() {
    let buttons = vec![vec![0], vec![0], vec![]];
    let big = u64::MAX;
    assert_eq!(check_presses(&buttons, &vec![big], &vec![big, 1, 0]), None);
    assert_eq!(check_presses(&buttons, &vec![big], &vec![big, 0, 0]), Some(big));
    assert_eq!(check_presses(&buttons, &vec![big], &vec![big, 0, 1]), None);
}

#[test]
fn accepted_answer_meets_every_counter() {
    let buttons = vec![vec![0, 2, 3, 4], vec![2, 3], vec![0, 4], vec![0, 1, 2], vec![1, 2, 3, 4]];
    let targets = vec![7, 5, 12, 7, 2];
    let answer = vec![2, 5, 0, 5, 0];
    let total = solve_part2(&buttons, &targets, Some(answer.clone())).unwrap();
    assert_eq!(total, 12);
    for (t, &target) in targets.iter().enumerate() {
        let sum: u64 = buttons
            .iter()
            .zip(&answer)
            .filter(|(b, _)| b.contains(&t))
            .map(|(_, &p)| p)
            .sum();
        assert_eq!(sum, target);
    }
}
