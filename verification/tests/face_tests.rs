use solver::face_bfs::{
    apply_perm_to_partial, apply_perm_to_partial_inv, bfs_up_impl, calc_permutation_idx_impl, calc_permutation_idx_up, face_search,
    gen_perm_map_impl, gen_perm_map_up_corner, pack4,
};
use solver::face_solve::{
    construct_path_from_bfs, face_moves_fit, generate_sequence_filter_for_back_corner, generate_sequence_filter_for_left_edge,
    sequence_moves_left_corner, sequence_moves_left_edge, solve_left_corner, solve_up_first_corner,
};
use solver::cube_seq::{sequence_moves_four_corner, sequence_moves_four_edge};
use solver::perm::{create_actions, MoveTable};

#[test]
fn codes_of_arrangements() {
    assert_eq!(pack4(&vec![1, 2, 3, 4]), Some(1 + 32 * (2 + 32 * (3 + 32 * 4))));
    assert_eq!(pack4(&vec![1, 2, 3]), None);
    assert_eq!(pack4(&vec![1, 2, 3, 32]), None);
}

#[test]
fn arrangements_and_their_places() {
    let (list, map) = gen_perm_map_impl(5);
    assert_eq!(list.len(), 120);
    assert_eq!(list[0], vec![0, 1, 2, 3]);
    assert_eq!(list[119], vec![4, 3, 2, 1]);
    for (i, p) in list.iter().enumerate() {
        assert_eq!(map[&pack4(p).unwrap()], i);
    }
    let (up, _) = gen_perm_map_up_corner();
    assert_eq!(up.len(), 16 * 15 * 14 * 13);
}

#[test]
fn partial_moves() {
    let p = vec![0, 1, 2, 3];
    assert_eq!(apply_perm_to_partial(&p, &vec![1, 0, 2, 3]), vec![1, 0, 2, 3]);
    assert_eq!(apply_perm_to_partial(&p, &vec![4, 1, 2, 3, 0]), vec![4, 1, 2, 3]);
    assert_eq!(apply_perm_to_partial(&p, &vec![1, 2, 3, 0]), vec![3, 0, 1, 2]);
    // a move that takes no piece anywhere leaves every piece at the last place
    assert_eq!(apply_perm_to_partial(&p, &vec![4, 4, 4, 4, 4]), vec![3, 3, 3, 3]);
    assert_eq!(apply_perm_to_partial_inv(&p, &vec![1, 0, 2, 3]), vec![1, 0, 2, 3]);
    assert_eq!(apply_perm_to_partial_inv(&vec![4, 1, 2, 3], &vec![4, 1, 2, 3, 0]), vec![0, 1, 2, 3]);
}

#[test]
fn place_of_a_solved_face() {
    let sol: Vec<usize> = (0..16).collect();
    let targets: Vec<usize> = (0..16).collect();
    let (_, map) = gen_perm_map_impl(16);
    assert_eq!(calc_permutation_idx_impl(&sol, &sol, &map, &targets, &vec![0, 1, 2, 3]), Some(0));
    assert_eq!(calc_permutation_idx_up(&sol, &sol, &map, &targets), Some(0));
    let mut cur = sol.clone();
    cur.swap(0, 1);
    // the solved piece of target 0 now sits on target 1 and the other way round
    assert_eq!(calc_permutation_idx_up(&cur, &sol, &map, &targets), map.get(&pack4(&vec![1, 0, 2, 3]).unwrap()).copied());
    cur[2] = 99;
    assert_eq!(calc_permutation_idx_up(&cur, &sol, &map, &targets), None);
}

#[test]
fn search_over_one_rotation() {
    let (list, map) = gen_perm_map_impl(4);
    let moves = vec![(vec![1, 2, 3, 0], 0, 1)];
    let (ps, pa, cost) = face_search(&list, &map, &moves, 1, &vec![0]).unwrap();
    let at = |p: Vec<usize>| map[&pack4(&p).unwrap()];
    assert_eq!(cost[0], 0);
    assert_eq!(cost[at(vec![3, 0, 1, 2])], 1);
    assert_eq!(cost[at(vec![2, 3, 0, 1])], 2);
    assert_eq!(cost[at(vec![1, 2, 3, 0])], 3);
    assert_eq!(cost[at(vec![1, 0, 2, 3])], i32::MAX);
    assert_eq!(ps[at(vec![2, 3, 0, 1])], Some(at(vec![3, 0, 1, 2])));
    assert_eq!(pa[at(vec![2, 3, 0, 1])], Some(0));
    assert_eq!(ps[0], None);
    // a move that reaches past the arrangement's places cannot be played
    assert!(face_search(&list, &map, &vec![(vec![0, 1], 0, 1)], 1, &vec![0]).is_none());
}

#[test]
fn search_with_turns_of_the_up_face() {
    let mut turn: Vec<usize> = (0..16).collect();
    turn[0] = 1;
    turn[1] = 2;
    turn[2] = 3;
    turn[3] = 0;
    let moves = vec![(turn, 1, 1)];
    let (ps, _, cost) = bfs_up_impl(&moves, true).unwrap();
    let (_, map) = gen_perm_map_up_corner();
    let at = |p: Vec<usize>, r: usize| 4 * map[&pack4(&p).unwrap()] + r;
    assert_eq!(cost[at(vec![0, 1, 2, 3], 0)], 0);
    assert_eq!(cost[at(vec![1, 2, 3, 0], 1)], 0);
    assert_eq!(cost[at(vec![3, 0, 1, 2], 1)], 1);
    assert_eq!(ps[at(vec![3, 0, 1, 2], 1)], Some(at(vec![0, 1, 2, 3], 0)));
}

fn swap_table() -> MoveTable {
    MoveTable { names: vec!["a".to_string(), "-a".to_string()], perms: vec![vec![1, 0], vec![1, 0]] }
}

#[test]
fn path_back_to_a_solved_position() {
    let t = create_actions(&swap_table());
    let ps = vec![None, Some(0)];
    let pa = vec![None, Some(0)];
    let seqs = vec![vec!["a".to_string()]];
    let r = construct_path_from_bfs(&vec![0, 1], &t, &ps, &pa, &vec![0, 1], &seqs, 1);
    assert_eq!(r, Some((vec![1, 0], vec!["-a".to_string()])));
    assert_eq!(construct_path_from_bfs(&vec![0, 1], &t, &ps, &pa, &vec![0, 1], &seqs, 0), Some((vec![0, 1], vec![])));
    // the chain must end at cost 0
    assert_eq!(construct_path_from_bfs(&vec![0, 1], &t, &ps, &pa, &vec![5, 1], &seqs, 1), None);
    // a sequence that is not there
    assert_eq!(construct_path_from_bfs(&vec![0, 1], &t, &ps, &vec![None, Some(3)], &vec![0, 1], &seqs, 1), None);
}

#[test]
fn left_face_sequences() {
    let dim = 6;
    let base = sequence_moves_four_corner(dim, 1);
    assert_eq!(base.len(), 44);
    let left = sequence_moves_left_corner(dim, 1);
    assert_eq!(left.len(), 24);
    assert_eq!(left[6], base[8]);
    assert_eq!(left[23], base[37]);
    let edges = sequence_moves_four_edge(dim, 1, 2);
    assert_eq!(edges.len(), 140);
    let left_edges = sequence_moves_left_edge(dim, 1, 2);
    let filter = generate_sequence_filter_for_left_edge();
    assert_eq!(left_edges.len(), filter.len());
    assert_eq!(left_edges[55], edges[137]);
    assert_eq!(generate_sequence_filter_for_back_corner().len(), 92);
}

#[test]
fn face_moves_checked() {
    assert!(face_moves_fit(&vec![(vec![1, 0], 3, 1)]));
    assert!(!face_moves_fit(&vec![(vec![1, 0], 4, 1)]));
    assert!(!face_moves_fit(&vec![(vec![1, 0], 0, 0)]));
    assert!(!face_moves_fit(&vec![(vec![2, 0], 0, 1)]));
}

#[test]
fn a_solved_face_needs_no_moves() {
    let dim = 4;
    let sol: Vec<usize> = (0..6 * dim * dim).collect();
    let t = create_actions(&MoveTable { names: Vec::new(), perms: Vec::new() });
    let ident: Vec<usize> = (0..16).collect();
    let moves = vec![(ident.clone(), 0, 1)];
    assert_eq!(solve_up_first_corner(&sol, &sol, &t, dim, &moves), Some((sol.clone(), vec![])));
    assert_eq!(solve_up_first_corner(&sol, &sol, &t, dim, &vec![(ident.clone(), 0, 0)]), None);
    // a cube of side 4 has no inner rings left for the left face
    assert_eq!(solve_left_corner(&sol, &sol, &t, dim, &vec![(vec![0usize, 1, 2, 3, 4, 5, 6, 7, 8, 9, 10, 11], 0, 1)]), Some((sol.clone(), vec![])));
}
