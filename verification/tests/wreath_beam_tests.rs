use solver::globe::Puzzle;
use solver::perm::MoveTable;
use solver::wreath_beam::{beam_search, pack_state, wreath_setup};
use solver::wreath_cost::{calc_cost, calc_cost_dif, gen_cost_table};

fn ring_moves() -> MoveTable {
    MoveTable { names: vec!["r".to_string(), "-r".to_string()], perms: vec![vec![1, 2, 3, 0], vec![3, 0, 1, 2]] }
}

fn ring_puzzle(initial: &str) -> Puzzle {
    Puzzle {
        puzzle_type: "wreath_2/2".to_string(),
        solution_state: "A;B;A;B".to_string(),
        initial_state: initial.to_string(),
        num_wildcards: 0,
    }
}

fn ring_pairs() -> Vec<Vec<(usize, usize)>> {
    vec![vec![(0, 1), (1, 2), (2, 3), (3, 0)]]
}

#[test]
fn distances_on_a_ring() {
    let table = gen_cost_table(&vec![1, 0, 1, 0], &ring_pairs(), 4, 3);
    assert_eq!(table[0], vec![1, 0, 1, 0]);
    assert_eq!(table[1], vec![0, 1, 0, 1]);
    // no place of kind 2
    assert_eq!(table[2], vec![100000000; 4]);
}

#[test]
fn costs_of_states() {
    let sol = vec![1, 0, 1, 0];
    let table = gen_cost_table(&sol, &ring_pairs(), 4, 2);
    assert_eq!(calc_cost(&vec![0, 1, 0, 1], &sol, &table, 0), 4);
    assert_eq!(calc_cost(&sol, &sol, &table, 0), 0);
    // within the wildcards the cost is 0
    assert_eq!(calc_cost(&vec![0, 1, 0, 1], &sol, &table, 4), 0);
    // one move of the ring solves it
    assert_eq!(calc_cost_dif(&vec![0, 1, 0, 1], &sol, &table, &ring_pairs()[0], 4, 0), 0);
    // a swap of two places changes the sum by their distances
    assert_eq!(calc_cost_dif(&sol, &sol, &table, &vec![(0, 1), (1, 0)], 0, 0), 2);
}

#[test]
fn packing_in_base_three() {
    assert_eq!(pack_state(&vec![0, 1, 2]), (5, 0, 0));
    let mut long = vec![0; 81];
    long[80] = 2;
    assert_eq!(pack_state(&long), (0, 2, 0));
}

#[test]
fn setup_reads_kinds_of_the_initial_state() {
    let c = wreath_setup(&ring_puzzle("B;A;B;A"), &ring_moves()).unwrap();
    assert_eq!(c.init, vec![0, 1, 0, 1]);
    assert_eq!(c.sol, vec![1, 0, 1, 0]);
    assert_eq!(c.kinds, 2);
    assert!(wreath_setup(&ring_puzzle("B;A;C;A"), &ring_moves()).is_some());
    assert!(wreath_setup(&ring_puzzle("B;B;B;B"), &ring_moves()).is_none());
}

#[test]
fn beam_finds_one_turn() {
    assert_eq!(beam_search(&ring_puzzle("B;A;B;A"), &ring_moves(), &"r.r.r".to_string()), Some("r".to_string()));
    assert_eq!(beam_search(&ring_puzzle("A;B;A;B"), &ring_moves(), &"r.r".to_string()), Some("".to_string()));
    // not shorter than the current best
    assert_eq!(beam_search(&ring_puzzle("B;A;B;A"), &ring_moves(), &"r".to_string()), None);
    // never solvable by turning
    assert_eq!(beam_search(&ring_puzzle("B;A;A;B"), &ring_moves(), &"r.r.r".to_string()), None);
}
