use solver::cube_edge::{
    calc_heuristic_cube_edge, calc_heuristic_cube_edge_first_even, cube_edge_to_perm,
    sequence_to_resolve_parity, target_idx_cube_edge, target_idx_cube_edge_first_even,
};

#[test]
fn cube_edge_targets_of_a_four_cube() {
    let r = target_idx_cube_edge(4, 1);
    assert_eq!(r.len(), 72);
    assert_eq!(&r[..12], &[1, 2, 2, 4, 8, 8, 7, 11, 11, 13, 14, 14]);
    assert_eq!(&r[12..15], &[17, 18, 18]);
    assert_eq!(r[71], 16 * 5 + 14);
}

#[test]
fn middle_wing_targets_of_a_four_cube() {
    let r = target_idx_cube_edge_first_even(4);
    assert_eq!(r.len(), 48);
    assert_eq!(&r[..8], &[1, 2, 4, 8, 7, 11, 13, 14]);
    assert_eq!(&r[8..10], &[17, 18]);
}

#[test]
fn edge_labels_follow_the_solved_stickers() {
    let sol = vec![10, 11, 12, 13];
    let cur = vec![11, 10, 12, 13];
    assert_eq!(cube_edge_to_perm(&cur, &sol, &vec![0, 1], 2), Some(vec![1, 0]));
}

#[test]
fn edge_label_falls_back_to_the_row_above() {
    let sol = vec![5, 6, 7, 8];
    let cur = vec![7, 6, 9, 8];
    assert_eq!(cube_edge_to_perm(&cur, &sol, &vec![2], 2), Some(vec![0]));
}

#[test]
fn edge_label_missing_gives_none() {
    let sol = vec![5, 6, 7, 8];
    let cur = vec![99, 6, 7, 8];
    assert_eq!(cube_edge_to_perm(&cur, &sol, &vec![0], 2), None);
}

#[test]
fn heuristic_of_triples_is_half_the_sum() {
    let mut table = vec![vec![vec![0i32; 3]; 3]; 3];
    table[0][1][2] = 4;
    table[1][0][2] = 3;
    assert_eq!(calc_heuristic_cube_edge(&vec![0, 1, 2, 1, 0, 2], &table), 3);
}

#[test]
fn heuristic_of_pairs_is_half_the_sum() {
    let mut table = vec![vec![0i32; 2]; 2];
    table[0][1] = 2;
    table[1][0] = 5;
    assert_eq!(calc_heuristic_cube_edge_first_even(&vec![0, 1, 1, 0], &table), 3);
}

#[test]
fn parity_sequence_of_one_row() {
    let r = sequence_to_resolve_parity(&vec![1], 4);
    let mut expected: Vec<&str> = vec!["r1", "f0", "f3"];
    for _ in 0..4 {
        expected.extend(["-d1", "r0", "r0"]);
    }
    expected.extend(["-d1", "-f0", "-f3", "-r1"]);
    assert_eq!(r, expected);
}

#[test]
fn cube_edge_sequences_of_a_four_cube() {
    let r = solver::cube_edge_seq::sequence_moves_for_cube_edge(4, 1);
    assert_eq!(r.len(), 390);
    assert_eq!(r[0], vec!["-r1", "d3", "r0", "-d3", "r1"]);
    assert_eq!(r[1], vec!["-r1", "d3", "r0", "r0", "-d3", "r1"]);
    assert_eq!(r[5], vec!["-r1", "-d3", "-r3", "d3", "r1"]);
    assert_eq!(
        r[7],
        vec!["r1", "d3", "d3", "r2", "d3", "d3", "-r2", "d3", "d3", "-r1", "d3", "d3", "r2", "d3", "d3", "-r2"]
    );
    assert_eq!(
        r[6],
        vec!["r2", "-d3", "-d3", "-r2", "-d3", "-d3", "r1", "-d3", "-d3", "r2", "-d3", "-d3", "-r2", "-d3", "-d3", "-r1"]
    );
    assert_eq!(r[8], vec!["-r2", "d3", "r0", "-d3", "r2"]);
    assert_eq!(r[16], vec!["-d1", "-r0", "d0", "r0", "d1"]);
    assert_eq!(r[64], vec!["f0"]);
    assert_eq!(r[65], vec!["-r1", "-d0", "r0", "d0", "r1"]);
}
