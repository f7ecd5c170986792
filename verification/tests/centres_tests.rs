use solver::centres::{count_center_cube_rot, resolve_center_and_inversion};
use solver::perm::ActionTable;

fn idle_table(names: &[&str]) -> ActionTable {
    let names: Vec<String> = names.iter().map(|s| s.to_string()).collect();
    let actions = names.iter().map(|_| Vec::new()).collect();
    ActionTable { names, actions }
}

fn moves(v: &[&str]) -> Vec<String> {
    v.iter().map(|s| s.to_string()).collect()
}

#[test]
fn centre_turns_are_counted_per_piece() {
    let dim = 3;
    let state: Vec<usize> = (0..6 * dim * dim).collect();
    let t = idle_table(&["f0", "r0", "-d2", "-f0"]);
    assert_eq!(count_center_cube_rot(&state, &moves(&["f0", "r0", "-d2"]), &t, dim), vec![0, 1, 1, 0, 0, 1]);
    assert_eq!(count_center_cube_rot(&state, &moves(&["-f0", "f0"]), &t, dim), vec![0, 4, 0, 0, 0, 0]);
}

#[test]
fn even_cubes_have_no_centre_turns() {
    let dim = 4;
    let state: Vec<usize> = (0..6 * dim * dim).collect();
    let t = idle_table(&["f0"]);
    assert_eq!(count_center_cube_rot(&state, &moves(&["f0"]), &t, dim), vec![0; 6]);
}

#[test]
fn solved_cube_needs_no_parity_fix() {
    let dim = 5;
    let sol: Vec<usize> = (0..6 * dim * dim).collect();
    let t = idle_table(&["f1", "f2", "r0"]);
    let (state, m) = resolve_center_and_inversion(&sol, &sol, &t, dim).unwrap();
    assert_eq!(state, sol);
    assert!(m.is_empty());
}

#[test]
fn odd_orbit_is_turned_even() {
    let dim = 5;
    let sol: Vec<usize> = (0..6 * dim * dim).collect();
    // the orbit at row 1, column 2 of face 0 is 7, 13, 17, 11
    let mut cur = sol.clone();
    cur.swap(7, 13);
    let t = idle_table(&["f1", "f2", "r0"]);
    let (_, m) = resolve_center_and_inversion(&cur, &sol, &t, dim).unwrap();
    assert_eq!(m, moves(&["f1"]));
}

#[test]
fn middle_centre_is_turned_into_place() {
    let dim = 5;
    let sol: Vec<usize> = (0..6 * dim * dim).collect();
    // face 0's centre (12) sits on face 4's centre (112)
    let mut cur = sol.clone();
    cur.swap(12, 112);
    let t = idle_table(&["f1", "f2", "-f2", "r0"]);
    let (_, m) = resolve_center_and_inversion(&cur, &sol, &t, dim).unwrap();
    assert_eq!(m, moves(&["f2"]));
}

#[test]
fn unknown_fix_move_gives_up() {
    let dim = 5;
    let sol: Vec<usize> = (0..6 * dim * dim).collect();
    let mut cur = sol.clone();
    cur.swap(12, 112);
    let t = idle_table(&["f1"]);
    assert!(resolve_center_and_inversion(&cur, &sol, &t, dim).is_none());
}
