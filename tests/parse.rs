use machine_solver::machine::MachineSpec;
use machine_solver::parse::parse_line;

#[test]
fn parses_a_machine() {
    let m = parse_line("[.##.] (3) (1,3) (2) (2,3) (0,2) (0,1) {3,5,4,7}").unwrap();
    assert_eq!(
        m,
        MachineSpec {
            lights: vec![false, true, true, false],
            buttons: vec![vec![3], vec![1, 3], vec![2], vec![2, 3], vec![0, 2], vec![0, 1]],
            targets: vec![3, 5, 4, 7],
        }
    );
}

#[test]
fn parsing_twice_gives_the_same_machine() {
    let line = "[#.#](0,1)(1,2)(0,2){1,2,3}";
    assert_eq!(parse_line(line), parse_line(line));
    assert!(parse_line(line).is_some());
}

#[test]
fn blanks_and_empty_entries() {
    let m = parse_line("[#]( 0 , 1 )(){ 4 ,, 2 }").unwrap();
    assert_eq!(m.lights, vec![true]);
    assert_eq!(m.buttons, vec![vec![0, 1], vec![]]);
    assert_eq!(m.targets, vec![4, 2]);
}

#[test]
fn no_buttons() {
    let m = parse_line("[###]{0}").unwrap();
    assert_eq!(m.lights, vec![true, true, true]);
    assert!(m.buttons.is_empty());
    assert_eq!(m.targets, vec![0]);
}

#[test]
fn malformed_lines() {
    assert_eq!(parse_line(".##.] (3) {1}"), None);
    assert_eq!(parse_line("[.##. (3) {1}"), None);
    assert_eq!(parse_line("[.##.] (3)"), None);
    assert_eq!(parse_line("[.##.] (3) {1"), None);
    assert_eq!(parse_line("[.##.] (3 {1}"), None);
    assert_eq!(parse_line("[.##.] (x) {1}"), None);
    assert_eq!(parse_line("[.##.] (1 2) {1}"), None);
    assert_eq!(parse_line("[.##.] (1) {99999999999999999999}"), None);
}
