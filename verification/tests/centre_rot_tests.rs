use solver::centre_rot::{best_centre_rot, centre_prefix_list, centre_rot_candidates, centre_turn_name, valid_state};
use solver::perm::{apply_action, create_actions, MoveTable};

fn names(v: &[&str]) -> Vec<String> {
    v.iter().map(|s| s.to_string()).collect()
}

#[test]
fn prefixes_in_order() {
    let p = centre_prefix_list();
    assert_eq!(p.len(), 187);
    assert_eq!(p[0], Vec::<usize>::new());
    assert_eq!(p[1], vec![0]);
    assert_eq!(p[2], vec![0, 0]);
    assert_eq!(p[3..8].to_vec(), vec![vec![0, 0, 0], vec![0, 0, 1], vec![0, 0, 2], vec![0, 0, 4], vec![0, 0, 5]]);
    assert_eq!(p[8], vec![0, 1]);
    // no turn right after its inverse
    for q in p.iter() {
        for w in q.windows(2) {
            assert_ne!((w[1] + 3) % 6, w[0]);
        }
    }
    assert_eq!(p[186], vec![5, 5, 5]);
}

#[test]
fn centre_turn_names() {
    assert_eq!(centre_turn_name(5, 0), "f2");
    assert_eq!(centre_turn_name(5, 1), "r2");
    assert_eq!(centre_turn_name(5, 2), "d2");
    assert_eq!(centre_turn_name(5, 4), "-r2");
    assert_eq!(centre_turn_name(7, 5), "-d3");
}

#[test]
fn centres_checked() {
    let sol: Vec<usize> = (0..54).collect();
    assert!(valid_state(&sol, &sol, 3));
    let mut s = sol.clone();
    s.swap(0, 1);
    assert!(valid_state(&s, &sol, 3));
    s.swap(4, 13);
    assert!(!valid_state(&s, &sol, 3));
}

/// A cube of side 1: six stickers, one per face; the middle turns cycle
/// four of them.
fn tiny_moves() -> MoveTable {
    let f: Vec<i16> = vec![0, 4, 1, 3, 2, 5];
    let r: Vec<i16> = vec![2, 1, 5, 3, 4, 0];
    let d: Vec<i16> = vec![0, 2, 3, 4, 1, 5];
    let inv = |p: &Vec<i16>| {
        let mut q = vec![0i16; p.len()];
        for (i, v) in p.iter().enumerate() {
            q[*v as usize] = i as i16;
        }
        q
    };
    MoveTable {
        names: names(&["f0", "r0", "d0", "-f0", "-r0", "-d0"]),
        perms: vec![f.clone(), r.clone(), d.clone(), inv(&f), inv(&r), inv(&d)],
    }
}

#[test]
fn candidates_are_the_prefixes_that_restore_the_centres() {
    let m = tiny_moves();
    let t = create_actions(&m);
    let sol: Vec<usize> = (0..6).collect();
    let init: Vec<usize> = vec![0, 2, 3, 4, 1, 5];
    let cands = centre_rot_candidates(&t, &init, &sol, 1).unwrap();
    // the same search, written out with the turns undone after each try
    let turn_names = names(&["f0", "r0", "d0", "-f0", "-r0", "-d0"]);
    let act = |s: &Vec<usize>, n: &str| apply_action(s, &t.actions[t.names.iter().position(|x| x == n).unwrap()]);
    let rev = |n: &str| if let Some(x) = n.strip_prefix('-') { x.to_string() } else { format!("-{}", n) };
    let mut expected: Vec<(Vec<String>, Vec<usize>)> = Vec::new();
    if init == sol {
        expected.push((vec![], init.clone()));
    }
    let mut cur = init.clone();
    for (i0, a0) in turn_names.iter().enumerate() {
        cur = act(&cur, a0);
        if cur == sol {
            expected.push((vec![a0.clone()], cur.clone()));
        }
        for (i1, a1) in turn_names.iter().enumerate() {
            if (i1 + 3) % 6 == i0 {
                continue;
            }
            cur = act(&cur, a1);
            if cur == sol {
                expected.push((vec![a0.clone(), a1.clone()], cur.clone()));
            }
            for (i2, a2) in turn_names.iter().enumerate() {
                if (i2 + 3) % 6 == i1 {
                    continue;
                }
                cur = act(&cur, a2);
                if cur == sol {
                    expected.push((vec![a0.clone(), a1.clone(), a2.clone()], cur.clone()));
                }
                cur = act(&cur, &rev(a2));
            }
            cur = act(&cur, &rev(a1));
        }
        cur = act(&cur, &rev(a0));
    }
    assert!(!expected.is_empty());
    assert_eq!(cands, expected);
    assert!(cands.iter().any(|c| c.0 == names(&["-d0"])));
}

#[test]
fn all_prefixes_when_the_turns_keep_the_centres() {
    let id: Vec<i16> = (0..6).collect();
    let m = MoveTable { names: names(&["f0", "r0", "d0", "-f0", "-r0", "-d0"]), perms: vec![id.clone(); 6] };
    let t = create_actions(&m);
    let sol: Vec<usize> = (0..6).collect();
    let cands = centre_rot_candidates(&t, &sol, &sol, 1).unwrap();
    assert_eq!(cands.len(), 187);
    assert!(cands[0].0.is_empty());
    assert_eq!(cands[186].0, names(&["-d0", "-d0", "-d0"]));
}

#[test]
fn a_missing_turn_gives_no_candidates() {
    let id: Vec<i16> = (0..6).collect();
    let m = MoveTable { names: names(&["f0", "r0", "d0", "-f0", "-r0"]), perms: vec![id.clone(); 5] };
    let t = create_actions(&m);
    let sol: Vec<usize> = (0..6).collect();
    assert_eq!(centre_rot_candidates(&t, &sol, &sol, 1), None);
}

#[test]
fn shortest_answer_with_its_turns() {
    let results = vec![
        (Vec::new(), Some("a.b.c".to_string())),
        (names(&["f1"]), Some("x".to_string())),
        (names(&["f1", "r1"]), None),
    ];
    assert_eq!(best_centre_rot(&results), Some("f1.x".to_string()));
}

#[test]
fn first_of_equal_answers_is_kept() {
    let results = vec![(Vec::new(), Some("a.b".to_string())), (names(&["f1"]), Some("x".to_string()))];
    assert_eq!(best_centre_rot(&results), Some("a.b".to_string()));
    let none: Vec<(Vec<String>, Option<String>)> = vec![(Vec::new(), None)];
    assert_eq!(best_centre_rot(&none), None);
}
