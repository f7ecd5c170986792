use solver::move_table::{add_inverse_moves, inverse_perm, json_quotes, load_moves_record};
use solver::perm::{apply_action, apply_perm, apply_perm_inv, create_action, create_actions, ActionTable, MoveTable};

#[test]
fn create_action_lists_moved_positions() {
    assert_eq!(create_action(&vec![0, 2, 1, 3]), vec![(1, 2), (2, 1)]);
    assert_eq!(create_action(&vec![0, 1, 2]), vec![]);
}

#[test]
fn apply_action_moves_pieces() {
    let state = vec![10, 11, 12, 13];
    let action = create_action(&vec![1, 2, 3, 0]);
    assert_eq!(apply_action(&state, &action), vec![11, 12, 13, 10]);
}

#[test]
fn apply_perm_and_inverse() {
    let state: Vec<u8> = vec![5, 6, 7];
    let perm = vec![2, 0, 1];
    let moved = apply_perm(&state, &perm);
    assert_eq!(moved, vec![7, 5, 6]);
    assert_eq!(apply_perm_inv(&moved, &perm), state);
}

#[test]
fn create_actions_keeps_names() {
    let t = MoveTable { names: vec!["a".to_string(), "b".to_string()], perms: vec![vec![1, 0], vec![0, 1]] };
    let a = create_actions(&t);
    assert_eq!(a.names, t.names);
    assert_eq!(a.actions, vec![vec![(0, 1), (1, 0)], vec![]]);
    assert_eq!(a.get(&"a".to_string()), Some(&vec![(0, 1), (1, 0)]));
    assert_eq!(a.get(&"c".to_string()), None);
}

#[test]
fn inverse_perm_inverts() {
    assert_eq!(inverse_perm(&vec![2, 0, 1]), Some(vec![1, 2, 0]));
    assert_eq!(inverse_perm(&vec![0, 3]), None);
    assert_eq!(inverse_perm(&vec![-1, 0]), None);
}

#[test]
fn json_quotes_replaces() {
    assert_eq!(json_quotes("{'f0': [1, 0]}"), "{\"f0\": [1, 0]}");
}

#[test]
fn add_inverse_moves_appends_inverses() {
    let t = MoveTable { names: vec!["r".to_string(), "f".to_string()], perms: vec![vec![1, 2, 0], vec![0, 2, 1]] };
    let m = add_inverse_moves(&t).unwrap();
    assert_eq!(m.names, vec!["r", "f", "-r", "-f"]);
    assert_eq!(m.perms, vec![vec![1, 2, 0], vec![0, 2, 1], vec![2, 0, 1], vec![0, 2, 1]]);
}

#[test]
fn add_inverse_moves_replaces_shadowed() {
    let t = MoveTable { names: vec!["x".to_string(), "-x".to_string()], perms: vec![vec![1, 0], vec![0, 1]] };
    let m = add_inverse_moves(&t).unwrap();
    assert_eq!(m.names, vec!["x", "-x", "--x"]);
    assert_eq!(m.perms, vec![vec![1, 0], vec![1, 0], vec![0, 1]]);
}

#[test]
fn load_moves_record_parses_and_inverts() {
    let m = load_moves_record("{'r0': [1, 2, 0]}").unwrap();
    assert_eq!(m.names, vec!["r0", "-r0"]);
    assert_eq!(m.perms, vec![vec![1, 2, 0], vec![2, 0, 1]]);
    assert!(load_moves_record("not json").is_none());
    assert!(load_moves_record("{'r0': [5, 0]}").is_none());
}

#[test]
fn move_then_inverse_restores() {
    let m = load_moves_record("{'r': [3, 0, 1, 2], 'f': [0, 2, 1, 3]}").unwrap();
    let a: ActionTable = create_actions(&m);
    let state = vec![7, 8, 9, 10];
    for name in ["r", "f"] {
        let fwd = a.get(&name.to_string()).unwrap();
        let back = a.get(&format!("-{}", name)).unwrap();
        let s1 = apply_action(&state, fwd);
        assert_ne!(s1, state);
        assert_eq!(apply_action(&s1, back), state);
    }
}
