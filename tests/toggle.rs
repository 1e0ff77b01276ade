use machine_solver::toggle::{min_toggle_presses, press_buttons, solve_part1};

fn lights(p: &str) -> Vec<bool> {
    p.chars().map(|c| c == '#').collect()
}

#[test]
fn example_three_lights_one_press() {
    let buttons = vec![vec![0, 1], vec![1, 2], vec![0, 2]];
    assert_eq!(solve_part1(&lights("#.#"), &buttons), Some(1));
}

#[test]
fn no_buttons_lit_target_is_unsatisfiable() {
    let buttons: Vec<Vec<usize>> = vec![];
    assert_eq!(solve_part1(&lights("###"), &buttons), None);
}

#[test]
fn no_buttons_dark_target_needs_no_press() {
    let buttons: Vec<Vec<usize>> = vec![];
    assert_eq!(solve_part1(&lights("..."), &buttons), Some(0));
    assert_eq!(solve_part1(&lights(""), &buttons), Some(0));
}

#[test]
fn dark_target_needs_no_press() {
    let buttons = vec![vec![0, 1], vec![1]];
    assert_eq!(solve_part1(&lights(".."), &buttons), Some(0));
}

#[test]
fn unreachable_pattern() {
    // both buttons flip lights 0 and 1 together
    let buttons = vec![vec![0, 1], vec![1, 0]];
    assert_eq!(solve_part1(&lights("#."), &buttons), None);
    assert_eq!(min_toggle_presses(&lights("#."), &buttons), None);
}

#[test]
fn out_of_range_index_is_ignored() {
    let buttons = vec![vec![0, 7], vec![5]];
    assert_eq!(solve_part1(&lights("#"), &buttons), Some(1));
    assert_eq!(solve_part1(&lights("##"), &buttons), None);
}

#[test]
fn repeated_index_counts_once() {
    let buttons = vec![vec![0, 0, 1]];
    assert_eq!(solve_part1(&lights("##"), &buttons), Some(1));
}

#[test]
fn free_variables_give_lighter_solution() {
    // button 3 alone does what buttons 0, 1 and 2 do together
    let buttons = vec![vec![0], vec![1], vec![2], vec![0, 1, 2], vec![3]];
    assert_eq!(solve_part1(&lights("###."), &buttons), Some(1));
    assert_eq!(solve_part1(&lights("####"), &buttons), Some(2));
    assert_eq!(solve_part1(&lights("#.#."), &buttons), Some(2));
}

#[test]
fn larger_machine() {
    let buttons = vec![
        vec![3],
        vec![1, 3],
        vec![2],
        vec![2, 3],
        vec![0, 2],
        vec![0, 1],
    ];
    assert_eq!(solve_part1(&lights(".##."), &buttons), Some(2));
    let buttons = vec![
        vec![0, 2, 3, 4],
        vec![2, 3],
        vec![0, 4],
        vec![0, 1, 2],
        vec![1, 2, 3, 4],
    ];
    assert_eq!(solve_part1(&lights("...#."), &buttons), Some(3));
}

#[test]
fn returned_presses_reproduce_the_pattern() {
    let target = lights(".###.#");
    let buttons = vec![
        vec![0, 1, 2, 3, 4],
        vec![0, 3, 4],
        vec![0, 1, 2, 4, 5],
        vec![1, 2],
    ];
    let presses = min_toggle_presses(&target, &buttons).unwrap();
    assert_eq!(presses.len(), buttons.len());
    assert_eq!(press_buttons(target.len(), &buttons, &presses), target);
    let weight = presses.iter().filter(|&&p| p).count() as u64;
    assert_eq!(solve_part1(&target, &buttons), Some(weight));
    assert_eq!(weight, 2);
}

#[test]
fn press_buttons_toggles() {
    let buttons = vec![vec![0, 1], vec![1, 2], vec![9]];
    assert_eq!(
        press_buttons(3, &buttons, &vec![true, true, true]),
        vec![true, false, true]
    );
    assert_eq!(
        press_buttons(3, &buttons, &vec![false, false, false]),
        vec![false, false, false]
    );
}

#[test]
fn minimum_at_most_free_variables_off() {
    // Columns 0, 1, 2 and 4 take pivots; with column 3 off the solution
    // presses buttons 0, 1 and 2.
    let buttons = vec![vec![0], vec![1], vec![2], vec![0, 1, 2], vec![3]];
    let target = lights("###.");
    let free_off = vec![true, true, true, false, false];
    assert_eq!(press_buttons(4, &buttons, &free_off), target);
    let best = solve_part1(&target, &buttons).unwrap();
    assert!(best <= 3);
    assert_eq!(best, 1);
}
