use machine_solver::machine::{solve_machine, sum_results, MachineSpec};

#[test]
fn totals_add_up() {
    assert_eq!(sum_results(&vec![Some(1), Some(2), Some(4)]), Some(7));
    assert_eq!(sum_results(&vec![]), Some(0));
}

#[test]
fn total_missing_when_a_machine_has_no_answer() {
    assert_eq!(sum_results(&vec![Some(1), None, Some(4)]), None);
}

#[test]
fn total_missing_on_overflow() {
    assert_eq!(sum_results(&vec![Some(u64::MAX), Some(1)]), None);
    assert_eq!(sum_results(&vec![Some(u64::MAX), Some(0)]), Some(u64::MAX));
}

#[test]
fn machine_both_parts() {
    let m = MachineSpec {
        lights: vec![false, true, true, false],
        buttons: vec![vec![3], vec![1, 3], vec![2], vec![2, 3], vec![0, 2], vec![0, 1]],
        targets: vec![3, 5, 4, 7],
    };
    assert_eq!(solve_machine(&m, Some(vec![1, 3, 0, 3, 1, 2])), (Some(2), Some(10)));
}
