use solver::middle::{p3_to_side, solve_white_middle_impl, solve_yellow_middle_impl, P3};

#[test]
fn sides_of_points() {
    assert_eq!(p3_to_side(&P3::new(0, 2, 2), 5), 'L');
    assert_eq!(p3_to_side(&P3::new(4, 2, 2), 5), 'R');
    assert_eq!(p3_to_side(&P3::new(2, 0, 2), 5), 'F');
    assert_eq!(p3_to_side(&P3::new(2, 4, 2), 5), 'B');
    assert_eq!(p3_to_side(&P3::new(2, 2, 0), 5), 'D');
    assert_eq!(p3_to_side(&P3::new(2, 2, 4), 5), 'U');
}

#[test]
fn white_middle_first_moves() {
    // target in the first column and top row: a piece on F is turned in
    let r = solve_white_middle_impl(&P3::new(2, 0, 2), &P3::new(1, 2, 3), 5);
    assert_eq!(r, vec!["f0".to_string()]);
    // a piece on B below the target row
    let r = solve_white_middle_impl(&P3::new(2, 4, 1), &P3::new(1, 2, 2), 5);
    assert_eq!(r, vec!["d1".to_string()]);
}

#[test]
fn yellow_middle_back_face() {
    let r = solve_yellow_middle_impl(&P3::new(1, 3, 1), &P3::new(1, 2, 1), 4);
    assert_eq!(
        r,
        vec!["-d1", "r0", "r0", "d1", "f1", "-d1", "r0", "r0", "d1"].iter().map(|s| s.to_string()).collect::<Vec<String>>()
    );
    let r = solve_yellow_middle_impl(&P3::new(0, 1, 2), &P3::new(1, 2, 1), 4);
    assert_eq!(r, vec!["f1".to_string()]);
}
