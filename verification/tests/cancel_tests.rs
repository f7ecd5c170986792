use solver::cancel_moves_in_cube;

#[test]
fn test_cancel_moves_in_cube() {
    assert_eq!(cancel_moves_in_cube(&"r0.-r0.r1".to_string()), "r1");
    assert_eq!(cancel_moves_in_cube(&"r0.r0.r0".to_string()), "-r0");
    assert_eq!(cancel_moves_in_cube(&"-r0.-r0.-r0".to_string()), "r0");
    assert_eq!(
        cancel_moves_in_cube(&"r0.r2.r1.r3.f0.-r0.-r2.-r1.-r3".to_string()),
        "r0.r2.r1.r3.f0.-r0.-r2.-r1.-r3"
    );
    assert_eq!(
        cancel_moves_in_cube(&"f1.r0.f0.-f0.-r0.f1".to_string()),
        "f1.f1"
    );
}

#[test]
fn cancel_result_is_settled() {
    let c = cancel_moves_in_cube(&"r0.r0.r0.d1.-d1.f2".to_string());
    assert_eq!(c, "-r0.f2");
    assert_eq!(cancel_moves_in_cube(&c), c);
}
