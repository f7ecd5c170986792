use solver::cube_index::cell;
use solver::cube_seq::{sequence_moves_four_corner, sequence_moves_four_edge};
use solver::move_gen::{generate_four_corner_move_for_bfs, generate_four_edge_move_for_bfs, play_sequence};
use solver::perm::{create_actions, MoveTable};

fn identity(dim: usize) -> Vec<i16> {
    (0..6 * dim * dim).map(|i| i as i16).collect()
}

/// Every move named in `seqs`, each with the identity permutation.
fn identity_table(dim: usize, seqs: &[Vec<String>]) -> MoveTable {
    let mut names: Vec<String> = Vec::new();
    for s in seqs {
        for n in s {
            if !names.contains(n) {
                names.push(n.clone());
            }
        }
    }
    let perms = names.iter().map(|_| identity(dim)).collect();
    MoveTable { names, perms }
}

fn corner_seqs(dim: usize) -> Vec<Vec<String>> {
    let mut all = Vec::new();
    for pos in 1..dim / 2 {
        all.extend(sequence_moves_four_corner(dim, pos));
    }
    all
}

fn edge_seqs(dim: usize) -> Vec<Vec<String>> {
    let mut all = Vec::new();
    for y in 1..dim / 2 {
        for x in y + 1..dim - 1 - y {
            all.extend(sequence_moves_four_edge(dim, y, x));
        }
    }
    all
}

fn set_move(table: &mut MoveTable, name: &str, perm: Vec<i16>) {
    let k = table.names.iter().position(|n| n == name).unwrap();
    table.perms[k] = perm;
}

#[test]
fn small_cubes_have_no_tables() {
    let t = identity_table(4, &corner_seqs(4));
    assert_eq!(generate_four_corner_move_for_bfs(&t, 3), None);
    assert_eq!(generate_four_edge_move_for_bfs(&t, 4), None);
}

#[test]
fn missing_moves_give_no_table() {
    let empty = MoveTable { names: Vec::new(), perms: Vec::new() };
    assert_eq!(generate_four_corner_move_for_bfs(&empty, 6), None);
    assert_eq!(generate_four_edge_move_for_bfs(&empty, 6), None);
}

#[test]
fn identity_moves_give_identity_corner_table() {
    let dim = 6;
    let t = identity_table(dim, &corner_seqs(dim));
    let r = generate_four_corner_move_for_bfs(&t, dim).unwrap();
    let seqs = sequence_moves_four_corner(dim, dim / 2 - 1);
    assert_eq!(r.len(), seqs.len());
    for (k, (mv, len)) in r.iter().enumerate() {
        assert_eq!(*mv, (0..16).collect::<Vec<usize>>());
        assert_eq!(*len, seqs[k].len());
    }
}

#[test]
fn identity_moves_give_identity_edge_table() {
    let dim = 7;
    let t = identity_table(dim, &edge_seqs(dim));
    let r = generate_four_edge_move_for_bfs(&t, dim).unwrap();
    let seqs = sequence_moves_four_edge(dim, 1, 2);
    assert_eq!(r.len(), seqs.len());
    for (k, (mv, len)) in r.iter().enumerate() {
        assert_eq!(*mv, (0..16).collect::<Vec<usize>>());
        assert_eq!(*len, seqs[k].len());
    }
}

#[test]
fn first_move_is_taken_as_the_state() {
    let dim = 4;
    let mut t = identity_table(dim, &corner_seqs(dim));
    let first = t.names[0].clone();
    let mut p = identity(dim);
    p.swap(0, 5);
    set_move(&mut t, &first, p.clone());
    let actions = create_actions(&t);
    let s = play_sequence(&t, &actions, &vec![first]).unwrap();
    assert_eq!(s, p.iter().map(|v| *v as usize).collect::<Vec<usize>>());
    assert_eq!(play_sequence(&t, &actions, &vec!["nope".to_string()]), None);
}

#[test]
fn a_sticker_leaving_its_side_face_is_refused() {
    let dim = 4;
    let mut t = identity_table(dim, &corner_seqs(dim));
    let first = sequence_moves_four_corner(dim, 1)[0][0].clone();
    let mut p = identity(dim);
    // an inner sticker of face 1 trades places with one of face 2
    p.swap(cell(dim, 1, 1, 1), cell(dim, 2, 1, 1));
    set_move(&mut t, &first, p);
    assert_eq!(generate_four_corner_move_for_bfs(&t, dim), None);
}

#[test]
fn a_target_moved_by_one_move_shows_in_the_table() {
    let dim = 4;
    let seqs = sequence_moves_four_corner(dim, 1);
    let mut t = identity_table(dim, &seqs);
    // the first sequence starts with this move; make it swap two corner targets of face 0
    let first = seqs[0][0].clone();
    let mut p = identity(dim);
    p.swap(cell(dim, 0, 1, 1), cell(dim, 0, 1, 2));
    set_move(&mut t, &first, p);
    let r = generate_four_corner_move_for_bfs(&t, dim).unwrap();
    let count = seqs[0].iter().filter(|n| **n == first).count();
    if count % 2 == 1 {
        assert_ne!(r[0].0, (0..16).collect::<Vec<usize>>());
    }
    assert_eq!(r[0].1, seqs[0].len());
}

#[test]
fn rings_that_disagree_give_no_table() {
    let dim = 6;
    let outer = sequence_moves_four_corner(dim, 1);
    let inner = sequence_moves_four_corner(dim, 2);
    let mut t = identity_table(dim, &corner_seqs(dim));
    let name = outer
        .iter()
        .flatten()
        .find(|n| !inner.iter().flatten().any(|m| m == *n) && outer.iter().any(|s| s.iter().filter(|m| m == n).count() % 2 == 1))
        .unwrap()
        .clone();
    let mut p = identity(dim);
    p.swap(cell(dim, 0, 1, 1), cell(dim, 0, 1, 4));
    set_move(&mut t, &name, p);
    assert_eq!(generate_four_corner_move_for_bfs(&t, dim), None);
}

fn turn_count(seq: &[String], plus: &str, minus: &str) -> usize {
    let mut rot = 0;
    for m in seq {
        if m == plus {
            rot = (rot + 1) % 4;
        } else if m == minus {
            rot = (rot + 3) % 4;
        }
    }
    rot
}

#[test]
fn identity_moves_give_identity_up_corner_table() {
    let dim = 6;
    let t = identity_table(dim, &corner_seqs(dim));
    let r = solver::face_gen::generate_move_for_bfs_up_corner(&t, dim).unwrap();
    let seqs = sequence_moves_four_corner(dim, dim / 2 - 1);
    assert_eq!(r.len(), seqs.len());
    for (k, (mv, rot, len)) in r.iter().enumerate() {
        assert_eq!(*mv, (0..16).collect::<Vec<usize>>());
        assert_eq!(*rot, turn_count(&seqs[k], "-d5", "d5"));
        assert_eq!(*len, seqs[k].len());
    }
    assert!(r.iter().any(|e| e.1 != 0));
}

#[test]
fn identity_moves_give_identity_left_tables() {
    let dim = 7;
    let mut all = corner_seqs(dim);
    all.extend(edge_seqs(dim));
    let t = identity_table(dim, &all);
    let corners = solver::face_gen::generate_move_for_bfs_left_corner(&t, dim).unwrap();
    let seqs = solver::face_solve::sequence_moves_left_corner(dim, dim / 2 - 1);
    assert_eq!(corners.len(), 24);
    for (k, (mv, rot, len)) in corners.iter().enumerate() {
        assert_eq!(*mv, (0..12).collect::<Vec<usize>>());
        assert_eq!(*rot, turn_count(&seqs[k], "-r6", "r6"));
        assert_eq!(*len, seqs[k].len());
    }
    let edges = solver::face_gen::generate_move_for_bfs_left_edge(&t, dim).unwrap();
    assert_eq!(edges.len(), 56);
    assert!(edges.iter().all(|e| e.0 == (0..12).collect::<Vec<usize>>()));
    let diff = solver::face_gen::generate_move_for_bfs_left_edge_diff(&t, dim).unwrap();
    assert_eq!(diff.len(), 56);
}

#[test]
fn identity_moves_give_identity_up_edge_tables() {
    let dim = 7;
    let t = identity_table(dim, &edge_seqs(dim));
    let edges = solver::face_gen::generate_move_for_bfs_up_edge(&t, dim).unwrap();
    let seqs = sequence_moves_four_edge(dim, 1, 2);
    assert_eq!(edges.len(), seqs.len());
    for (k, (mv, rot, len)) in edges.iter().enumerate() {
        assert_eq!(*mv, (0..16).collect::<Vec<usize>>());
        assert_eq!(*rot, turn_count(&seqs[k], "-d6", "d6"));
        assert_eq!(*len, seqs[k].len());
    }
    assert!(solver::face_gen::generate_move_for_bfs_up_edge_diff(&t, dim).is_some());
    // a cube of side 5 has no position for the shifted reading
    let t5 = identity_table(5, &edge_seqs(5));
    assert!(solver::face_gen::generate_move_for_bfs_up_edge(&t5, 5).is_some());
    assert_eq!(solver::face_gen::generate_move_for_bfs_up_edge_diff(&t5, 5), None);
}
