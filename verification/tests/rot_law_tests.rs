use solver::moves::{rev_move, rot2_move_d, rot2_move_r, rot_move_d, rot_move_r};

fn s(x: &str) -> String {
    x.to_string()
}

#[test]
fn rot_d_of_inverse_with_leading_zero() {
    for m in ["r05", "-f05", "d05", "f0", "-r3"] {
        assert_eq!(rot_move_d(&rev_move(&s(m)), 8), rev_move(&rot_move_d(&s(m), 8)));
    }
}

#[test]
fn half_turn_about_d_with_leading_zero() {
    assert_eq!(rot2_move_d(&s("r05"), 8), "-r2");
    for m in ["r05", "-f05", "d05", "f1", "-r7"] {
        assert_eq!(rot2_move_d(&s(m), 8), rot_move_d(&rot_move_d(&s(m), 8), 8));
    }
}

#[test]
fn half_turn_about_r_with_leading_zero() {
    for m in ["f05", "-d05", "r05", "d1", "-f7"] {
        assert_eq!(rot2_move_r(&s(m), 8), rot_move_r(&rot_move_r(&s(m), 8), 8));
    }
}
