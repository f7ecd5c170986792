use solver::notation::move_translation;
use std::collections::HashMap;

fn table(dim: usize) -> HashMap<String, String> {
    move_translation(dim).into_iter().collect()
}

#[test]
fn face_turns_of_small_cube() {
    let m = table(3);
    assert_eq!(m.len(), 18);
    assert_eq!(m["U"], "-d2");
    assert_eq!(m["R"], "r0");
    assert_eq!(m["B"], "-f2");
    assert_eq!(m["U2"], "-d2.-d2");
    assert_eq!(m["U'"], "d2");
    assert_eq!(m["R'"], "-r0");
    assert!(!m.contains_key("Uw"));
}

#[test]
fn wide_turns_of_four_cube() {
    let m = table(4);
    assert_eq!(m.len(), 36);
    assert_eq!(m["Uw"], "-d2.-d3");
    assert_eq!(m["Uw'"], "d2.d3");
    assert_eq!(m["Rw'"], "-r0.-r1");
    assert_eq!(m["Fw2"], "f0.f1.f0.f1");
    assert!(!m.contains_key("2Uw"));
}

#[test]
fn deep_turns_of_seven_cube() {
    let m = table(7);
    assert_eq!(m.len(), 72);
    assert_eq!(m["2Lw"], "-r5.-r6");
    assert_eq!(m["3Uw"], "-d4.-d5.-d6");
    assert_eq!(m["3Rw"], "r0.r1.r2");
    assert_eq!(m["3Fw2"], "f0.f1.f2.f0.f1.f2");
    assert_eq!(m["3Dw'"], "-d0.-d1.-d2");
    assert_eq!(m["3Bw'"], "f4.f5.f6");
}
