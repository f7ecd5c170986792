use solver::calc_dim;
use solver::moves::{rev_move, rot2_move_f, rot_move_f, rot_sequence_f, turn};
use solver::pieces::{gen_piece_map, list_to_state, state_ids, state_to_list};
use solver::text::{chars_of, decimal_chars, join_chars, parse_usize_from, split_chars, string_of};

#[test]
fn calc_dim_finds_side() {
    assert_eq!(calc_dim(6), 1);
    assert_eq!(calc_dim(24), 2);
    assert_eq!(calc_dim(54), 3);
    assert_eq!(calc_dim(6 * 33 * 33), 33);
}

#[test]
fn rev_move_toggles_sign() {
    assert_eq!(rev_move(&"r3".to_string()), "-r3");
    assert_eq!(rev_move(&"-r3".to_string()), "r3");
    assert_eq!(rev_move(&"".to_string()), "-");
}

#[test]
fn rev_move_twice_is_identity() {
    for m in ["r0", "-f12", "d3", "x"] {
        let s = m.to_string();
        assert_eq!(rev_move(&rev_move(&s)), s);
    }
    // a move that begins with two signs does not come back
    assert_eq!(rev_move(&rev_move(&"--r1".to_string())), "r1");
}

#[test]
fn turn_writes_move_names() {
    assert_eq!(turn(false, 'f', 0), "f0");
    assert_eq!(turn(true, 'r', 12), "-r12");
}

#[test]
fn rot_moves_relabel() {
    assert_eq!(rot_move_f(&"r1".to_string(), 4), "d1");
    assert_eq!(rot_move_f(&"-r1".to_string(), 4), "-d1");
    assert_eq!(rot_move_f(&"d1".to_string(), 4), "-r2");
    assert_eq!(rot_move_f(&"-d0".to_string(), 4), "r3");
    assert_eq!(rot_move_f(&"f2".to_string(), 4), "f2");
    assert_eq!(rot2_move_f(&"r0".to_string(), 4), "-r3");
    assert_eq!(rot2_move_f(&"-f1".to_string(), 4), "f2");
    let seq = vec!["r0".to_string(), "f1".to_string(), "-d2".to_string()];
    assert_eq!(rot_sequence_f(&seq, 4), vec!["d0".to_string(), "f1".to_string(), "r1".to_string()]);
}

#[test]
fn text_helpers() {
    let v = chars_of("a.bc..d");
    let parts = split_chars(&v, '.');
    assert_eq!(parts.len(), 4);
    assert_eq!(string_of(&parts[1]), "bc");
    assert_eq!(string_of(&parts[2]), "");
    assert_eq!(string_of(&join_chars(&parts, '.')), "a.bc..d");
    assert_eq!(string_of(&decimal_chars(0)), "0");
    assert_eq!(string_of(&decimal_chars(907)), "907");
    assert_eq!(parse_usize_from(&chars_of("x+42"), 1), 42);
    assert_eq!(parse_usize_from(&chars_of("A17"), 1), 17);
}

#[test]
fn pieces_round_trip() {
    let sol = "A;B;A;C;B";
    let (map, list) = gen_piece_map(sol);
    assert_eq!(list, vec!["A".to_string(), "B".to_string(), "C".to_string()]);
    let ids = state_to_list("C;A;B;B;A", &map);
    assert_eq!(ids, vec![2, 0, 1, 1, 0]);
    assert_eq!(list_to_state(&ids, &list), "C;A;B;B;A");
    assert_eq!(state_ids("A;D", &map), None);
    assert_eq!(state_ids("B;C", &map), Some(vec![1, 2]));
}
