use solver::cube_finish::{finish_cube_solution, manipulation_list, translate_moves};
use solver::globe::Puzzle;
use solver::notation::move_translation;
use solver::perm::MoveTable;

fn swap_moves() -> MoveTable {
    let names: Vec<String> = vec!["r0", "-r0", "d0", "-d0", "f0", "-f0"].iter().map(|s| s.to_string()).collect();
    let perms = vec![
        vec![1, 0, 2, 3, 4, 5],
        vec![1, 0, 2, 3, 4, 5],
        vec![0, 1, 3, 2, 4, 5],
        vec![0, 1, 3, 2, 4, 5],
        vec![0, 1, 2, 3, 5, 4],
        vec![0, 1, 2, 3, 5, 4],
    ];
    MoveTable { names, perms }
}

fn puzzle(initial: &str) -> Puzzle {
    Puzzle {
        puzzle_type: "cube_1/1/1".to_string(),
        solution_state: "A;B;C;D;E;F".to_string(),
        initial_state: initial.to_string(),
        num_wildcards: 0,
    }
}

#[test]
fn solver_moves_are_translated() {
    let t = move_translation(4);
    assert_eq!(translate_moves("R U' Fw2", &t), Some("r0.d3.f0.f1.f0.f1".to_string()));
    assert_eq!(translate_moves("R X", &t), None);
}

#[test]
fn manipulations_in_order() {
    let m = manipulation_list(2);
    assert_eq!(m.len(), 1555);
    assert!(m[0].is_empty());
    assert_eq!(m[1].iter().collect::<String>(), "r0.r1");
    assert_eq!(m[6].iter().collect::<String>(), "-f0.-f1");
    assert_eq!(m[7].iter().collect::<String>(), "r0.r1.r0.r1");
    assert_eq!(m[1554].iter().collect::<String>(), "-f0.-f1.-f0.-f1.-f0.-f1.-f0.-f1");
}

#[test]
fn answer_that_solves_is_kept() {
    assert_eq!(finish_cube_solution(&puzzle("B;A;C;D;E;F"), &swap_moves(), "R", 1), Some("r0".to_string()));
}

#[test]
fn a_whole_cube_turn_is_appended() {
    assert_eq!(finish_cube_solution(&puzzle("B;A;D;C;E;F"), &swap_moves(), "R", 1), Some("r0.d0".to_string()));
}

#[test]
fn unknown_notation_fails() {
    assert_eq!(finish_cube_solution(&puzzle("B;A;C;D;E;F"), &swap_moves(), "Q", 1), None);
}
