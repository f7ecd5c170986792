use solver::wreath::{action_id_to_str, is_candidate_left, is_candidate_right, move_wreath, wreath_cycle};

#[test]
fn action_names() {
    assert_eq!(action_id_to_str(0), "");
    assert_eq!(action_id_to_str(3), "l.l.l");
    assert_eq!(action_id_to_str(98), "-l.-l");
    assert_eq!(action_id_to_str(101), "r");
    assert_eq!(action_id_to_str(199), "-r");
}

#[test]
fn cycles() {
    assert_eq!(wreath_cycle(&vec![2, 0, 1]), Some(vec![0, 2, 1]));
    assert_eq!(wreath_cycle(&vec![0, 1]), Some(vec![0]));
    assert_eq!(wreath_cycle(&vec![1, 1]), None);
    assert_eq!(wreath_cycle(&vec![5]), None);
}

fn rings() -> (Vec<usize>, Vec<usize>) {
    let l: Vec<usize> = (0..100).collect();
    let r: Vec<usize> = (100..200).collect();
    (l, r)
}

#[test]
fn moves_turn_rings() {
    let (l, r) = rings();
    let state: Vec<i8> = (0..200).map(|i| (i % 3) as i8).collect();
    let s1 = move_wreath(&state, &l, &r, 1);
    for i in 0..100 {
        assert_eq!(s1[i], state[(i + 1) % 100]);
    }
    assert_eq!(&s1[100..], &state[100..]);
    let s2 = move_wreath(&state, &l, &r, 102);
    for i in 0..100 {
        assert_eq!(s2[100 + i], state[100 + (i + 2) % 100]);
    }
    assert_eq!(move_wreath(&state, &l, &r, 100), state);
}

#[test]
fn candidate_shifts() {
    let (l, r) = rings();
    let mut state: Vec<i8> = vec![0; 200];
    // two b pieces 25 apart on the left ring
    state[10] = 2;
    state[35] = 2;
    assert!(is_candidate_left(&state, &l, &r, 10, 1, 2));
    assert!(!is_candidate_left(&state, &l, &r, 11, 1, 2));
    let mut state2: Vec<i8> = vec![0; 200];
    state2[100 + 30] = 1;
    state2[100 + 4] = 1;
    assert!(is_candidate_right(&state2, &l, &r, 30, 1, 2));
    assert!(!is_candidate_right(&state2, &l, &r, 31, 1, 2));
}
