use solver::edge_table::{heuristic_table_cube_edge, heuristic_table_cube_edge_from_text};

fn swap_move(a: usize, b: usize) -> Vec<usize> {
    let mut p: Vec<usize> = (0..72).collect();
    p.swap(a, b);
    p
}

#[test]
fn solved_triples_cost_nothing() {
    let r = heuristic_table_cube_edge(&vec![]);
    assert_eq!(r.len(), 72);
    assert_eq!(r[0][1][2], 0);
    assert_eq!(r[2][1][0], 0);
    assert_eq!(r[69][70][71], 0);
    assert_eq!(r[0][0][0], i32::MAX);
    assert_eq!(r[1][2][3], i32::MAX);
}

#[test]
fn one_move_reaches_its_triples() {
    let r = heuristic_table_cube_edge(&vec![(swap_move(0, 3), 2)]);
    assert_eq!(r[3][1][2], 2);
    assert_eq!(r[2][1][3], 2);
    assert_eq!(r[0][4][5], 2);
    assert_eq!(r[0][1][2], 0);
    assert_eq!(r[3][4][5], 0);
    assert_eq!(r[3][1][0], i32::MAX);
}

#[test]
fn cheapest_of_two_routes() {
    let r = heuristic_table_cube_edge(&vec![(swap_move(0, 3), 5), (swap_move(0, 3), 1)]);
    assert_eq!(r[3][1][2], 1);
}

#[test]
fn table_from_text() {
    let perm: Vec<String> = swap_move(0, 3).iter().map(|v| v.to_string()).collect();
    let text = format!("[[[{}], 2]]", perm.join(","));
    let r = heuristic_table_cube_edge_from_text(&text).unwrap();
    assert_eq!(r[3][1][2], 2);
}

#[test]
fn table_from_bad_text() {
    assert!(heuristic_table_cube_edge_from_text("not json").is_none());
    assert!(heuristic_table_cube_edge_from_text("[[[0, 1, 2], 1]]").is_none());
}

fn swap_pair_move(a: usize, b: usize) -> Vec<usize> {
    let mut p: Vec<usize> = (0..48).collect();
    p.swap(a, b);
    p
}

#[test]
fn solved_pairs_cost_nothing() {
    let r = solver::edge_table::heuristic_table_cube_edge_first_even(&vec![]);
    assert_eq!(r.len(), 48);
    assert_eq!(r[0][1], 0);
    assert_eq!(r[1][0], 0);
    assert_eq!(r[46][47], 0);
    assert_eq!(r[1][2], i32::MAX);
}

#[test]
fn pair_moves_reach_their_pairs() {
    let r = solver::edge_table::heuristic_table_cube_edge_first_even(&vec![(swap_pair_move(1, 2), 3)]);
    assert_eq!(r[0][2], 3);
    assert_eq!(r[1][3], 3);
    assert_eq!(r[2][0], 3);
    assert_eq!(r[0][3], i32::MAX);
}

#[test]
fn pair_table_from_text() {
    let perm: Vec<String> = swap_pair_move(1, 2).iter().map(|v| v.to_string()).collect();
    let text = format!("[[[{}], 3]]", perm.join(","));
    let r = solver::edge_table::heuristic_table_cube_edge_first_even_from_text(&text).unwrap();
    assert_eq!(r[0][2], 3);
    assert!(solver::edge_table::heuristic_table_cube_edge_first_even_from_text("[1,").is_none());
}
