use solver::green::{bfs0, get_perm_map, pack8, ring_search};
use solver::green_solve::{
    calc_permutation_idx_corner, calc_permutation_idx_edge, calc_rot0, calc_rot1, green_corner_moves,
    green_edge_moves, solve_green_middle_center,
};
use solver::perm::{apply_perm, ActionTable};

#[test]
fn pack8_reads_base_eight() {
    assert_eq!(pack8(&vec![0, 1, 2, 3, 4, 5, 6, 7]), Some(0o76543210));
    assert_eq!(pack8(&vec![7, 0, 0, 0, 0, 0, 0, 0]), Some(7));
    assert_eq!(pack8(&vec![0, 0, 0, 0, 0, 0, 0, 8]), None);
    assert_eq!(pack8(&vec![0, 1, 2]), None);
}

#[test]
fn perm_map_lists_all_arrangements_in_order() {
    let (list, map) = get_perm_map();
    assert_eq!(list.len(), 40320);
    assert_eq!(list[0], vec![0, 1, 2, 3, 4, 5, 6, 7]);
    assert_eq!(list[1], vec![0, 1, 2, 3, 4, 5, 7, 6]);
    assert_eq!(list[40319], vec![7, 6, 5, 4, 3, 2, 1, 0]);
    assert_eq!(map[&pack8(&list[0]).unwrap()], 0);
    assert_eq!(map[&pack8(&list[12345]).unwrap()], 12345);
}

#[test]
fn ring_search_records_moves() {
    let (list, map) = get_perm_map();
    // one move swapping the first two pieces, cost 2, on arrangements only
    let swap = vec![1, 0, 2, 3, 4, 5, 6, 7];
    let actions = vec![(swap.clone(), 0usize, 0usize, 2i32)];
    let (ps, pa) = ring_search(&list, &map, &actions, 1, &vec![0], &vec![0]).unwrap();
    assert_eq!(ps[0], None);
    let moved = apply_perm(&list[0], &swap);
    let i = map[&pack8(&moved).unwrap()];
    assert_eq!(ps[i], Some(0));
    assert_eq!(pa[i], Some(0));
    // a position that no move reaches keeps no step
    assert_eq!(ps[40319], None);
}

#[test]
fn centre_search_steps_are_moves() {
    let (list, map) = get_perm_map();
    let (ps, pa) = bfs0(&list, &map, 1).unwrap();
    // the identity is a start
    assert_eq!(ps[0], None);
    // "rotate right" from the identity
    let right = vec![5, 1, 0, 3, 4, 7, 6, 2];
    let moved = apply_perm(&list[0], &right);
    let i = map[&pack8(&moved).unwrap()];
    let p = ps[i].unwrap();
    let a = pa[i].unwrap();
    assert!(a < 10);
    assert!(p < list.len());
}

#[test]
fn rings_and_places_on_solved_cube() {
    let dim = 4;
    let sol: Vec<usize> = (0..6 * dim * dim).collect();
    let (_, map) = get_perm_map();
    assert_eq!(calc_rot0(&sol, &sol, dim), 0);
    assert_eq!(calc_rot1(&sol, &sol, dim), 0);
    assert_eq!(calc_permutation_idx_corner(&sol, &sol, &map, dim, 1), 0);
    let dim6 = 6;
    let sol6: Vec<usize> = (0..6 * dim6 * dim6).collect();
    assert_eq!(calc_permutation_idx_edge(&sol6, &sol6, &map, dim6, 1, 2), 0);
    // face 5's ring of a 4-cube is (1, 2), (2, 2), (2, 1), (1, 1) = 86, 90, 89, 85
    let mut cur = sol.clone();
    cur[90] = 86;
    cur[86] = 85;
    assert_eq!(calc_rot1(&cur, &sol, dim), 1);
}

#[test]
fn green_move_lists() {
    let c = green_corner_moves(4, 1);
    assert_eq!(c.len(), 10);
    assert_eq!(c[0], vec!["-r0".to_string()]);
    assert_eq!(c[4], vec!["-f2".to_string(), "r0".to_string(), "f2".to_string()]);
    assert_eq!(c[8], vec!["-f1".to_string(), "r0".to_string(), "r0".to_string(), "f1".to_string()]);
    let e = green_edge_moves(6, 1, 2);
    assert_eq!(e.len(), 12);
    assert_eq!(
        e[4],
        vec!["r0", "-f3", "-r0", "-f4", "r0", "f3", "-r0", "f4"].iter().map(|s| s.to_string()).collect::<Vec<String>>()
    );
    assert_eq!(
        e[11],
        vec!["f1", "d0", "f2", "-d0", "-f1", "d0", "-f2", "-d0"].iter().map(|s| s.to_string()).collect::<Vec<String>>()
    );
}

fn idle_table() -> ActionTable {
    let names: Vec<String> =
        vec!["r0", "-r0", "d0", "-d0", "f1", "-f1", "f2", "-f2"].iter().map(|s| s.to_string()).collect();
    let actions = names.iter().map(|_| Vec::new()).collect();
    ActionTable { names, actions }
}

#[test]
fn centre_stage_on_solved_cube_makes_no_move() {
    let dim = 4;
    let sol: Vec<usize> = (0..6 * dim * dim).collect();
    let (state, moves) = solve_green_middle_center(&sol, &sol, &idle_table(), dim).unwrap();
    assert_eq!(state, sol);
    assert!(moves.is_empty());
}

#[test]
fn centre_stage_plays_known_moves() {
    let dim = 4;
    let sol: Vec<usize> = (0..6 * dim * dim).collect();
    // exchange a sticker of face 2's ring with one of face 5's
    let mut cur = sol.clone();
    cur.swap(37, 86);
    let t = idle_table();
    let (state, moves) = solve_green_middle_center(&cur, &sol, &t, dim).unwrap();
    // the idle moves leave the state as it is
    assert_eq!(state, cur);
    assert!(!moves.is_empty());
    for m in moves.iter() {
        assert!(t.names.contains(m));
    }
}
