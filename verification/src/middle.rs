//! Rule tables that bring one centre sticker of a big cube into place.
use vstd::prelude::*;
use crate::cube_seq::mv;
use crate::moves::turn;
use crate::pieces::string_views;

verus! {

/// A sticker position: `x`, `y`, `z` coordinates in a cube of side N.
#[derive(Debug, Clone)]
pub struct P3 {
    pub x: usize,
    pub y: usize,
    pub z: usize,
}

impl P3 {
    pub fn new(x: usize, y: usize, z: usize) -> (p: P3)
        ensures
            p.x == x,
            p.y == y,
            p.z == z,
    {
        P3 { x, y, z }
    }
}

/// `p` lies inside a cube of side `dim`.
pub open spec fn inside(p: P3, dim: int) -> bool {
    p.x < dim && p.y < dim && p.z < dim
}

/// `p` lies on the surface of a cube of side `dim`.
pub open spec fn on_surface(p: P3, dim: int) -> bool {
    &&& inside(p, dim)
    &&& (p.x == 0 || p.x == dim - 1 || p.y == 0 || p.y == dim - 1 || p.z == 0 || p.z == dim - 1)
}

/// The face that `p` lies on, checked in the order L, R, F, B, D, U.
pub open spec fn side_spec(p: P3, dim: int) -> char {
    if p.x == 0 {
        'L'
    } else if p.x == dim - 1 {
        'R'
    } else if p.y == 0 {
        'F'
    } else if p.y == dim - 1 {
        'B'
    } else if p.z == 0 {
        'D'
    } else {
        'U'
    }
}

/// The face that `p` lies on.
pub fn p3_to_side(p: &P3, dim: usize) -> (c: char)
    requires
        on_surface(*p, dim as int),
    ensures
        c == side_spec(*p, dim as int),
{
    if p.x == 0 {
        'L'
    } else if p.x == dim - 1 {
        'R'
    } else if p.y == 0 {
        'F'
    } else if p.y == dim - 1 {
        'B'
    } else if p.z == 0 {
        'D'
    } else {
        'U'
    }
}

/// The moves that carry the sticker at `c` one step towards the place `s` in
/// the middle rows of the white face.
pub open spec fn white_middle_spec(c: P3, s: P3, dim: int) -> Seq<Seq<char>> {
    let side = side_spec(c, dim);
    let row = dim - 2 - s.z;
    let column = s.x - 1;
    if s.x == 1 {
        if dim - s.z == 2 {
            if side == 'F' {
                seq![mv(false, 'f', 0)]
            } else if side != 'D' && side != 'U' {
                if c.z != dim - 2 {
                    if side == 'B' {
                        seq![mv(true, 'f', dim - 1)]
                    } else if side == 'R' {
                        seq![mv(false, 'r', 0)]
                    } else {
                        seq![mv(true, 'r', dim - 1)]
                    }
                } else {
                    seq![mv(true, 'd', c.z as int)]
                }
            } else {
                if c.x != s.x {
                    if side == 'D' {
                        seq![mv(false, 'd', 0)]
                    } else {
                        seq![mv(true, 'd', dim - 1)]
                    }
                } else {
                    seq![mv(true, 'r', dim - 2)]
                }
            }
        } else {
            if side == 'F' {
                seq![mv(true, 'd', c.z as int)]
            } else if side == 'B' {
                if c.z <= s.z {
                    seq![mv(false, 'd', c.z as int)]
                } else {
                    seq![mv(true, 'f', dim - 1)]
                }
            } else if side == 'L' {
                if c.y != dim - 2 {
                    seq![mv(true, 'r', dim - 1)]
                } else if c.z != s.z {
                    seq![mv(true, 'r', dim - 1)]
                } else {
                    seq![mv(false, 'd', c.z as int)]
                }
            } else {
                seq![mv(true, 'f', c.y as int)]
            }
        }
    } else {
        if row == 0 {
            if side == 'F' {
                if c.z < s.z && c.x >= s.x {
                    seq![mv(false, 'r', dim - 1 - c.x)]
                } else {
                    seq![mv(false, 'd', c.z as int)]
                }
            } else if side == 'B' {
                if c.x == s.x && c.z != s.z {
                    seq![mv(false, 'r', dim - 2 - column), mv(false, 'r', dim - 2 - column)]
                } else {
                    seq![mv(true, 'f', dim - 1)]
                }
            } else {
                if c.y == dim - 2 {
                    if c.z != dim - 1 {
                        seq![mv(true, 'f', dim - 2 - row)]
                    } else {
                        if c.x != s.x {
                            seq![mv(true, 'd', dim - 1)]
                        } else {
                            seq![mv(true, 'r', dim - 2 - column)]
                        }
                    }
                } else {
                    if side == 'D' {
                        seq![mv(false, 'd', 0)]
                    } else if side == 'U' {
                        seq![mv(true, 'd', dim - 1)]
                    } else if side == 'R' {
                        seq![mv(false, 'r', 0)]
                    } else {
                        seq![mv(true, 'r', dim - 1)]
                    }
                }
            }
        } else {
            if side == 'F' {
                if c.z < s.z {
                    seq![mv(true, 'd', c.z as int)]
                } else {
                    seq![
                        mv(true, 'd', c.z as int),
                        mv(true, 'f', dim - 1 - c.x),
                        mv(false, 'd', c.z as int),
                    ]
                }
            } else if side == 'B' {
                if c.z == s.z {
                    if s.x == c.x {
                        seq![
                            mv(true, 'd', c.z as int),
                            mv(true, 'f', dim - 1 - c.x),
                            mv(false, 'd', c.z as int),
                        ]
                    } else {
                        seq![mv(true, 'd', c.z as int), mv(false, 'r', 0), mv(false, 'd', c.z as int)]
                    }
                } else {
                    seq![mv(true, 'f', dim - 1)]
                }
            } else {
                if side != 'U' {
                    seq![mv(false, 'f', c.y as int)]
                } else {
                    if c.x != s.x || c.y != s.z {
                        seq![mv(true, 'd', dim - 1)]
                    } else {
                        seq![
                            mv(false, 'd', dim - 1),
                            mv(false, 'd', s.z as int),
                            mv(false, 'f', c.x as int),
                            mv(true, 'd', s.z as int),
                        ]
                    }
                }
            }
        }
    }
}

/// The target of a white-face middle sticker: in a column of the cube other
/// than the first, and below the top two rows (its `y` is not read).
pub open spec fn white_target_ok(s: P3, dim: int) -> bool {
    1 <= s.x < dim && s.z + 2 <= dim
}

fn seq1(a: String) -> (v: Vec<String>)
    ensures
        string_views(v@) == seq![a@],
{
    let mut v: Vec<String> = Vec::new();
    v.push(a);
    assert(string_views(v@) =~= seq![a@]);
    v
}

fn seq2(a: String, b: String) -> (v: Vec<String>)
    ensures
        string_views(v@) == seq![a@, b@],
{
    let ghost (av, bv) = (a@, b@);
    let mut v: Vec<String> = Vec::new();
    v.push(a);
    v.push(b);
    assert(string_views(v@) =~= seq![av, bv]);
    v
}

fn seq3(a: String, b: String, c: String) -> (v: Vec<String>)
    ensures
        string_views(v@) == seq![a@, b@, c@],
{
    let ghost (av, bv, cv) = (a@, b@, c@);
    let mut v: Vec<String> = Vec::new();
    v.push(a);
    v.push(b);
    v.push(c);
    assert(string_views(v@) =~= seq![av, bv, cv]);
    v
}

fn seq4(a: String, b: String, c: String, d: String) -> (v: Vec<String>)
    ensures
        string_views(v@) == seq![a@, b@, c@, d@],
{
    let ghost (av, bv, cv, dv) = (a@, b@, c@, d@);
    let mut v: Vec<String> = Vec::new();
    v.push(a);
    v.push(b);
    v.push(c);
    v.push(d);
    assert(string_views(v@) =~= seq![av, bv, cv, dv]);
    v
}

/// One step of bringing the sticker at `current` to `solved` in the middle
/// rows of the white face.
pub fn solve_white_middle_impl(current: &P3, solved: &P3, dim: usize) -> (r: Vec<String>)
    requires
        on_surface(*current, dim as int),
        white_target_ok(*solved, dim as int),
    ensures
        string_views(r@) == white_middle_spec(*current, *solved, dim as int),
{
    let current_side = p3_to_side(current, dim);
    let row = dim - 2 - solved.z;
    let column = solved.x - 1;
    if solved.x == 1 {
        if dim - solved.z == 2 {
            if current_side == 'F' {
                seq1(turn(false, 'f', 0))
            } else if current_side != 'D' && current_side != 'U' {
                if current.z != dim - 2 {
                    if current_side == 'B' {
                        seq1(turn(true, 'f', dim - 1))
                    } else if current_side == 'R' {
                        seq1(turn(false, 'r', 0))
                    } else {
                        seq1(turn(true, 'r', dim - 1))
                    }
                } else {
                    seq1(turn(true, 'd', current.z))
                }
            } else {
                if current.x != solved.x {
                    if current_side == 'D' {
                        seq1(turn(false, 'd', 0))
                    } else {
                        seq1(turn(true, 'd', dim - 1))
                    }
                } else {
                    seq1(turn(true, 'r', dim - 2))
                }
            }
        } else {
            if current_side == 'F' {
                seq1(turn(true, 'd', current.z))
            } else if current_side == 'B' {
                if current.z <= solved.z {
                    seq1(turn(false, 'd', current.z))
                } else {
                    seq1(turn(true, 'f', dim - 1))
                }
            } else if current_side == 'L' {
                if current.y != dim - 2 {
                    seq1(turn(true, 'r', dim - 1))
                } else if current.z != solved.z {
                    seq1(turn(true, 'r', dim - 1))
                } else {
                    seq1(turn(false, 'd', current.z))
                }
            } else {
                seq1(turn(true, 'f', current.y))
            }
        }
    } else {
        if row == 0 {
            if current_side == 'F' {
                if current.z < solved.z && current.x >= solved.x {
                    seq1(turn(false, 'r', dim - 1 - current.x))
                } else {
                    seq1(turn(false, 'd', current.z))
                }
            } else if current_side == 'B' {
                if current.x == solved.x && current.z != solved.z {
                    seq2(turn(false, 'r', dim - 2 - column), turn(false, 'r', dim - 2 - column))
                } else {
                    seq1(turn(true, 'f', dim - 1))
                }
            } else {
                if current.y == dim - 2 {
                    if current.z != dim - 1 {
                        seq1(turn(true, 'f', dim - 2 - row))
                    } else {
                        if current.x != solved.x {
                            seq1(turn(true, 'd', dim - 1))
                        } else {
                            seq1(turn(true, 'r', dim - 2 - column))
                        }
                    }
                } else {
                    if current_side == 'D' {
                        seq1(turn(false, 'd', 0))
                    } else if current_side == 'U' {
                        seq1(turn(true, 'd', dim - 1))
                    } else if current_side == 'R' {
                        seq1(turn(false, 'r', 0))
                    } else {
                        seq1(turn(true, 'r', dim - 1))
                    }
                }
            }
        } else {
            if current_side == 'F' {
                if current.z < solved.z {
                    seq1(turn(true, 'd', current.z))
                } else {
                    seq3(
                        turn(true, 'd', current.z),
                        turn(true, 'f', dim - 1 - current.x),
                        turn(false, 'd', current.z),
                    )
                }
            } else if current_side == 'B' {
                if current.z == solved.z {
                    if solved.x == current.x {
                        seq3(
                            turn(true, 'd', current.z),
                            turn(true, 'f', dim - 1 - current.x),
                            turn(false, 'd', current.z),
                        )
                    } else {
                        seq3(
                            turn(true, 'd', current.z),
                            turn(false, 'r', 0),
                            turn(false, 'd', current.z),
                        )
                    }
                } else {
                    seq1(turn(true, 'f', dim - 1))
                }
            } else {
                if current_side != 'U' {
                    seq1(turn(false, 'f', current.y))
                } else {
                    if current.x != solved.x || current.y != solved.z {
                        seq1(turn(true, 'd', dim - 1))
                    } else {
                        seq4(
                            turn(false, 'd', dim - 1),
                            turn(false, 'd', solved.z),
                            turn(false, 'f', current.x),
                            turn(true, 'd', solved.z),
                        )
                    }
                }
            }
        }
    }
}

} // verus!

verus! {

/// `seq![m]` when `cond`, else nothing.
pub open spec fn opt(cond: bool, m: Seq<char>) -> Seq<Seq<char>> {
    if cond {
        seq![m]
    } else {
        Seq::<Seq<char>>::empty()
    }
}

/// The moves that carry the sticker at `c` one step towards the place `s` in
/// the middle rows of the yellow face.
pub open spec fn yellow_middle_spec(c: P3, s: P3, dim: int) -> Seq<Seq<char>> {
    let side = side_spec(c, dim);
    let middle = dim / 2;
    let r0 = mv(false, 'r', 0);
    if side == 'B' {
        let check = dim % 2 == 1 && c.z == middle;
        seq![mv(true, 'd', c.z as int), r0] + opt(!check, r0) + seq![mv(false, 'd', c.z as int)]
            + opt(check, r0) + seq![mv(false, 'f', c.x as int)] + opt(check, r0) + seq![
            mv(true, 'd', c.z as int),
            r0,
        ] + opt(!check, r0) + seq![mv(false, 'd', c.z as int)]
    } else if side != 'R' {
        seq![mv(false, 'f', c.y as int)]
    } else if c.y != dim - (s.x + 1) || c.z != s.z {
        seq![r0]
    } else {
        let same = (c.y >= middle && c.z >= middle) || (c.y < middle && c.z < middle);
        seq![
            mv(true, 'f', c.y as int),
            mv(true, 'd', c.z as int),
            mv(same, 'r', dim - 1),
            mv(false, 'f', c.y as int),
            mv(!same, 'r', dim - 1),
            mv(false, 'd', c.z as int),
        ]
    }
}

fn push_move(v: &mut Vec<String>, m: String)
    ensures
        string_views(final(v)@) == string_views(old(v)@).push(m@),
{
    let ghost before = string_views(v@);
    let ghost mv = m@;
    v.push(m);
    assert(string_views(v@) =~= before.push(mv));
}

fn push_opt(v: &mut Vec<String>, cond: bool, m: String)
    ensures
        string_views(final(v)@) == string_views(old(v)@) + opt(cond, m@),
{
    let ghost before = string_views(v@);
    let ghost mv = m@;
    if cond {
        v.push(m);
        assert(string_views(v@) =~= before + opt(cond, mv));
    } else {
        assert(string_views(v@) =~= before + opt(cond, mv));
    }
}

/// One step of bringing the sticker at `current` to `solved` in the middle
/// rows of the yellow face.
pub fn solve_yellow_middle_impl(current: &P3, solved: &P3, dim: usize) -> (r: Vec<String>)
    requires
        on_surface(*current, dim as int),
        solved.x < dim,
    ensures
        string_views(r@) == yellow_middle_spec(*current, *solved, dim as int),
{
    let current_side = p3_to_side(current, dim);
    let middle = dim / 2;
    let mut res: Vec<String> = Vec::new();
    if current_side == 'B' {
        let check_middle = dim % 2 == 1 && current.z == middle;
        push_move(&mut res, turn(true, 'd', current.z));
        push_move(&mut res, turn(false, 'r', 0));
        push_opt(&mut res, !check_middle, turn(false, 'r', 0));
        push_move(&mut res, turn(false, 'd', current.z));
        push_opt(&mut res, check_middle, turn(false, 'r', 0));
        push_move(&mut res, turn(false, 'f', current.x));
        push_opt(&mut res, check_middle, turn(false, 'r', 0));
        push_move(&mut res, turn(true, 'd', current.z));
        push_move(&mut res, turn(false, 'r', 0));
        push_opt(&mut res, !check_middle, turn(false, 'r', 0));
        push_move(&mut res, turn(false, 'd', current.z));
        assert(string_views(res@) =~= yellow_middle_spec(*current, *solved, dim as int));
    } else {
        if current_side != 'R' {
            push_move(&mut res, turn(false, 'f', current.y));
            assert(string_views(res@) =~= yellow_middle_spec(*current, *solved, dim as int));
        } else {
            if current.y != dim - (solved.x + 1) || current.z != solved.z {
                push_move(&mut res, turn(false, 'r', 0));
                assert(string_views(res@) =~= yellow_middle_spec(*current, *solved, dim as int));
            } else {
                let same = (current.y >= middle && current.z >= middle) || (current.y < middle
                    && current.z < middle);
                push_move(&mut res, turn(true, 'f', current.y));
                push_move(&mut res, turn(true, 'd', current.z));
                push_move(&mut res, turn(same, 'r', dim - 1));
                push_move(&mut res, turn(false, 'f', current.y));
                push_move(&mut res, turn(!same, 'r', dim - 1));
                push_move(&mut res, turn(false, 'd', current.z));
                assert(string_views(res@) =~= yellow_middle_spec(*current, *solved, dim as int));
            }
        }
    }
    res
}

} // verus!
