use solver::cube_text::{checker_state2cbl, distinct_state2ubl, state2ubl};

#[test]
fn ubl_of_single_cube() {
    assert_eq!(state2ubl("A;B;C;D;E;F"), "URFDLB");
}

#[test]
fn ubl_of_two_cube() {
    let mut parts = Vec::new();
    for f in ["A", "B", "C", "D", "E", "F"] {
        for _ in 0..4 {
            parts.push(f);
        }
    }
    assert_eq!(state2ubl(&parts.join(";")), "UUUURRRRFFFFDDDDLLLLBBBB");
}

#[test]
fn checker_swaps_odd_squares() {
    let mut parts = Vec::new();
    for f in ["A", "B", "C", "D", "E", "F"] {
        for _ in 0..4 {
            parts.push(f);
        }
    }
    // odd squares of each 2 x 2 face are its 2nd and 3rd stickers
    assert_eq!(checker_state2cbl(&parts.join(";"), 2), "UDDURFFRFUUFDLLDLBBLBRRB");
    assert_eq!(checker_state2cbl("A;B;C;D;E;F", 1), "URFDLB");
}

#[test]
fn distinct_numbers_give_faces() {
    let parts: Vec<String> = (0..24).map(|i| format!("N{}", i)).collect();
    assert_eq!(distinct_state2ubl(&parts.join(";"), 2), "UUUURRRRFFFFDDDDLLLLBBBB");
}
