use std::collections::HashMap;
use solver::cube_index::{calc_face_rot, target_idx_corner, target_idx_edge, target_idx_four_corner, target_idx_four_edge};
use solver::cube_seq::{sequence_moves_four_corner, sequence_moves_four_edge};
use solver::four_faces::{apply_action_to_packed_perm, pack_perm_for_four_faces, unpack_perm_for_four_faces};
use solver::four_solve::{calc_permutation_idx_four_corner, follow_chain};
use solver::search::{dijkstra_packed, queue_push};

#[test]
fn pack_and_unpack() {
    let p = vec![0, 0, 0, 0, 1, 1, 1, 1, 2, 2, 2, 2, 3, 3, 3, 3];
    let packed = pack_perm_for_four_faces(&p);
    assert_eq!(packed, 0xFFAA5500);
    assert_eq!(unpack_perm_for_four_faces(packed), p);
    assert_eq!(pack_perm_for_four_faces(&vec![3, 1]), 7);
}

#[test]
fn packed_move_permutes_classes() {
    let p = vec![0, 0, 0, 0, 1, 1, 1, 1, 2, 2, 2, 2, 3, 3, 3, 3];
    let packed = pack_perm_for_four_faces(&p);
    let swap: Vec<usize> = vec![4, 1, 2, 3, 0, 5, 6, 7, 8, 9, 10, 11, 12, 13, 14, 15];
    let moved = apply_action_to_packed_perm(packed, &swap);
    let expect = vec![1, 0, 0, 0, 0, 1, 1, 1, 2, 2, 2, 2, 3, 3, 3, 3];
    assert_eq!(unpack_perm_for_four_faces(moved), expect);
}

#[test]
fn target_indexes() {
    assert_eq!(target_idx_corner(4, 1, &vec![0]), vec![5, 6, 10, 9]);
    assert_eq!(target_idx_four_corner(4, 1), vec![5, 6, 10, 9, 37, 38, 42, 41, 69, 70, 74, 73, 85, 86, 90, 89]);
    assert_eq!(target_idx_edge(5, 1, 2, &vec![1]), vec![25 + 7, 25 + 13, 25 + 17, 25 + 11]);
    assert_eq!(target_idx_four_edge(5, 1, 2).len(), 16);
}

#[test]
fn four_corner_sequences() {
    let s = sequence_moves_four_corner(4, 1);
    assert_eq!(s.len(), 44);
    assert_eq!(s[0], vec!["-r0".to_string()]);
    assert_eq!(s[2], vec!["r3".to_string()]);
    assert_eq!(s[8], vec!["-f2".to_string(), "r0".to_string(), "f2".to_string()]);
    let e = sequence_moves_four_edge(6, 1, 2);
    assert_eq!(e.len(), 140);
}

#[test]
fn face_rotation() {
    let dim = 4;
    let sol: Vec<usize> = (0..6 * dim * dim).collect();
    assert_eq!(calc_face_rot(&sol, &sol, dim, 0), 0);
    let mut cur = sol.clone();
    // the inner ring of face 0 is 5, 6, 10, 9; put the piece of 5 at 6
    cur[6] = 5;
    cur[5] = 9;
    assert_eq!(calc_face_rot(&cur, &sol, dim, 0), 1);
}

#[test]
fn queue_keeps_least_last() {
    let mut q: Vec<(i32, u32)> = Vec::new();
    queue_push(&mut q, (3, 1));
    queue_push(&mut q, (1, 5));
    queue_push(&mut q, (1, 2));
    queue_push(&mut q, (2, 0));
    assert_eq!(q, vec![(3, 1), (2, 0), (1, 5), (1, 2)]);
}

#[test]
fn dijkstra_on_small_ring() {
    // positions: packed values 0..4 in a list; the one move rotates sticker 0
    // and 1 classes (swap), costing 1; the map closes on {a, b}
    let a = pack_perm_for_four_faces(&vec![1, 0, 0, 0, 0, 0, 0, 0, 0, 0, 0, 0, 0, 0, 0, 0]);
    let b = pack_perm_for_four_faces(&vec![0, 1, 0, 0, 0, 0, 0, 0, 0, 0, 0, 0, 0, 0, 0, 0]);
    let list = vec![a, b];
    let mut map = HashMap::new();
    map.insert(a, 0usize);
    map.insert(b, 1usize);
    let swap: Vec<usize> = vec![1, 0, 2, 3, 4, 5, 6, 7, 8, 9, 10, 11, 12, 13, 14, 15];
    let actions = vec![(swap, 1)];
    let (ps, pa) = dijkstra_packed(a, &list, &map, &actions).unwrap();
    assert_eq!(ps, vec![None, Some(0)]);
    assert_eq!(pa, vec![None, Some(0)]);
    assert_eq!(follow_chain(&ps, &pa, 1), Some(vec![0]));
    assert_eq!(follow_chain(&ps, &pa, 0), Some(vec![]));
    // a move that leaves the positions
    let out: Vec<usize> = vec![2, 1, 0, 3, 4, 5, 6, 7, 8, 9, 10, 11, 12, 13, 14, 15];
    assert!(dijkstra_packed(a, &list, &map, &vec![(out, 1)]).is_none());
}

#[test]
fn follow_chain_stops_on_cycles() {
    let ps = vec![Some(1), Some(0)];
    let pa = vec![Some(0), Some(0)];
    assert_eq!(follow_chain(&ps, &pa, 0), None);
    assert_eq!(follow_chain(&vec![Some(5)], &vec![Some(0)], 0), None);
}

#[test]
fn permutation_index_of_solved_ring() {
    let dim = 4;
    let sol: Vec<usize> = (0..6 * dim * dim).map(|i| i / (dim * dim)).collect();
    let key = pack_perm_for_four_faces(&vec![0, 0, 0, 0, 1, 1, 1, 1, 2, 2, 2, 2, 3, 3, 3, 3]);
    let mut map = HashMap::new();
    map.insert(key, 7usize);
    assert_eq!(calc_permutation_idx_four_corner(&sol, &sol, &map, dim, 1), 7);
}
