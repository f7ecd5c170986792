use solver::globe::{create_globe_actions, globe_setup, Puzzle};
use solver::globe_cost::{calc_cost, calc_cost_for_first_move, compare_candidate, pack_state, Candidate};
use solver::globe_greedy::pair_target;
use solver::globe_sim::{dir_in_outside, dir_range, in_range, rev_sim, rev_sim_all};
use solver::packed_set::PackedSet;
use solver::perm::MoveTable;
use std::cmp::Ordering;

#[test]
fn ranges_on_the_ring() {
    assert!(!in_range(3, (5, 1)));
    assert!(in_range(0, (5, 1)));
    assert!(in_range(2, (0, 2)));
    assert_eq!(dir_in_outside(0, 6, (3, 4)), -1);
    assert_eq!(dir_in_outside(5, 6, (1, 2)), 1);
    assert_eq!(dir_range(2, 6, (2, 2)), 0);
}

#[test]
fn rev_sim_counts_swaps() {
    assert_eq!(rev_sim(&vec![1, 0], &vec![(0, 0), (1, 1)], 10), 1);
    assert_eq!(rev_sim(&vec![2, 1, 0], &vec![(0, 0), (1, 1), (2, 2)], 10), 1);
    assert_eq!(rev_sim(&vec![3, 2, 1, 0], &vec![(0, 0), (1, 1), (2, 2), (3, 3)], 0), 2);
}

#[test]
fn rev_sim_all_estimates() {
    assert_eq!(rev_sim_all(&vec![0, 1, 2, 3], 4), 0);
    assert_eq!(rev_sim_all(&vec![2, 0, 1, 3], 4), 1);
    assert_eq!(rev_sim_all(&vec![3, 2, 1, 0], 4), 2);
    assert_eq!(rev_sim_all(&vec![1, 1, 0, 0], 2), 0);
    assert_eq!(rev_sim_all(&vec![0, 2, 1, 3, 5, 4], 6), 2);
}

#[test]
fn globe_costs() {
    assert_eq!(calc_cost(&vec![0, 1, 2, 3, 2, 3, 0, 1], 4, 2, 4), 26);
    assert_eq!(calc_cost(&vec![0, 0, 1, 1, 2, 2, 3, 3], 4, 2, 4), 0);
    assert_eq!(calc_cost(&vec![0, 2, 1, 3, 0, 2, 1, 3], 4, 2, 4), 114);
    let order = vec![0, 1, 0, 1];
    assert_eq!(calc_cost_for_first_move(&vec![0, 1, 2, 3], &order, 2, 2, 4), 0);
    assert_eq!(calc_cost_for_first_move(&vec![2, 3, 0, 1], &order, 2, 2, 4), 12);
    assert_eq!(calc_cost_for_first_move(&vec![1, 0, 3, 2], &order, 2, 2, 4), 0);
    assert_eq!(calc_cost_for_first_move(&vec![0, 2, 1, 3], &order, 2, 2, 4), 6);
}

#[test]
fn packing_sides() {
    let state: Vec<usize> = (0..130).map(|i| if i % 3 == 0 { 1 } else { 0 }).collect();
    let words = pack_state(&state, 1);
    assert_eq!(words.len(), 3);
    let mut w0: u64 = 0;
    for i in 0..64 {
        w0 = 2 * w0 + state[i] as u64;
    }
    assert_eq!(words[0], w0);
    assert_eq!(words[2], 1);
    assert_eq!(pack_state(&vec![2, 3, 0], 2), vec![0b110]);
}

#[test]
fn candidates_order() {
    let a = Candidate { parent: 0, action: 1, cost: 3, rand: 9 };
    let b = Candidate { parent: 1, action: 0, cost: 3, rand: 2 };
    let c = Candidate { parent: 2, action: 2, cost: 1, rand: 50 };
    assert_eq!(compare_candidate(&a, &b), Ordering::Greater);
    assert_eq!(compare_candidate(&c, &a), Ordering::Less);
    assert_eq!(compare_candidate(&a, &a), Ordering::Equal);
}

#[test]
fn pair_rules() {
    assert_eq!(pair_target(0, 2, true, false), Some((0, -1)));
    assert_eq!(pair_target(0, 2, false, false), Some((1, -1)));
    assert_eq!(pair_target(2, 4, false, false), Some((-1, -1)));
    assert_eq!(pair_target(0, 1, false, true), None);
    assert_eq!(pair_target(0, 1, true, false), Some((0, -1)));
    assert_eq!(pair_target(1, 2, false, true), Some((-1, 0)));
    assert_eq!(pair_target(3, 2, false, false), Some((-1, -1)));
}

#[test]
fn packed_set_membership() {
    let mut s = PackedSet::new();
    assert!(!s.contains(&vec![1, 2]));
    s.insert(vec![1, 2]);
    assert!(s.contains(&vec![1, 2]));
    assert!(!s.contains(&vec![2, 1]));
    s.insert(vec![2, 1]);
    assert!(s.contains(&vec![2, 1]));
}

fn ring_moves() -> MoveTable {
    // a 2 x 2 globe: r0, r1 turn a row; f0 swaps the columns' halves
    MoveTable {
        names: vec!["r0".to_string(), "r1".to_string(), "f0".to_string(), "-f0".to_string()],
        perms: vec![vec![1, 0, 2, 3], vec![0, 1, 3, 2], vec![3, 1, 2, 0], vec![3, 1, 2, 0]],
    }
}

#[test]
fn globe_actions_skip_negative_f() {
    let t = create_globe_actions(&ring_moves());
    assert_eq!(t.names, vec!["r0", "r1", "f0"]);
    assert_eq!(t.actions[2], vec![(0, 3), (3, 0)]);
}

#[test]
fn globe_setup_reads_states() {
    let p = Puzzle {
        puzzle_type: "globe_1/1".to_string(),
        solution_state: "A;A;B;B".to_string(),
        initial_state: "B;A;A;B".to_string(),
        num_wildcards: 0,
    };
    let c = globe_setup(&p, &ring_moves(), 2, 2).unwrap();
    assert_eq!(c.sol, vec![0, 0, 1, 1]);
    assert_eq!(c.init, vec![1, 0, 0, 1]);
    assert_eq!(c.piece_num, 2);
    assert_eq!(c.order_map, vec![0, 0]);
    assert!(globe_setup(&p, &ring_moves(), 3, 2).is_none());
    let odd = Puzzle { solution_state: "A;B;C".to_string(), initial_state: "A;B;C".to_string(), ..p };
    assert!(globe_setup(&odd, &ring_moves(), 3, 1).is_none());
}
