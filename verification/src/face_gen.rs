//! Deriving the move tables of the one-face searches (up and left faces of
//! the cube with distinct pieces) from the puzzle's own moves, as for the
//! four-face tables, with how far each sequence turns the face.
use vstd::prelude::*;
use crate::cube_index::{corner_targets, cube_fits, edge_targets, face_fits, faces_fit, four_faces, lemma_corner_targets_bound, lemma_cube_faces_fit, lemma_edge_targets_bound, target_idx_corner, target_idx_edge};
use crate::cube_seq::{four_corner_sequences, four_edge_base, sequence_moves_four_corner, sequence_moves_four_edge, with_inverses};
use crate::face_solve::{left_corner_filter, left_edge_filter, picked, sequence_moves_left_corner, sequence_moves_left_edge};
use crate::move_gen::{effects, effects_of, effects_ok, lemma_face_below_cube, made_from, same_usizes, table3_views};
use crate::moves::{layer_move, turn};
use crate::perm::{create_actions, ActionTable, MoveTable};

verus! {

/// The faces whose inner stickers stay: 1 and 3 for the up face; 0, 1
/// and 3 for the left face.
pub open spec fn face_sides(left: bool) -> Seq<usize> {
    if left {
        seq![0usize, 1, 3]
    } else {
        seq![1usize, 3]
    }
}

/// The faces the tables work on: 0, 2, 4, 5 for the up face; 2, 4, 5 for
/// the left face.
pub open spec fn face_faces(left: bool) -> Seq<usize> {
    if left {
        seq![2usize, 4, 5]
    } else {
        four_faces()
    }
}

/// The move that turns the face a quarter on: `-d(N-1)` for the up face,
/// `-r(N-1)` for the left face.
pub open spec fn face_plus(dim: int, left: bool) -> Seq<char> {
    layer_move(true, if left { 'r' } else { 'd' }, (dim - 1) as nat)
}

/// The move that turns the face a quarter back: `d(N-1)` or `r(N-1)`.
pub open spec fn face_minus(dim: int, left: bool) -> Seq<char> {
    layer_move(false, if left { 'r' } else { 'd' }, (dim - 1) as nat)
}

/// The corner sequences of ring `pos`: all of them for the up face, those
/// of `left_corner_filter` for the left face.
pub open spec fn face_corner_seqs(dim: int, pos: int, left: bool) -> Seq<Seq<Seq<char>>> {
    if left {
        picked(four_corner_sequences(dim, pos), left_corner_filter())
    } else {
        four_corner_sequences(dim, pos)
    }
}

/// The edge sequences at `(y, x)`: all of them for the up face, those of
/// `left_edge_filter` for the left face.
pub open spec fn face_edge_seqs(dim: int, y: int, x: int, left: bool) -> Seq<Seq<Seq<char>>> {
    if left {
        picked(with_inverses(four_edge_base(dim, y, x)), left_edge_filter())
    } else {
        with_inverses(four_edge_base(dim, y, x))
    }
}

/// The entries of the corner sequences at ring `pos`.
#[verifier::opaque]
pub open spec fn face_corner_effects(m: MoveTable, t: ActionTable, dim: int, pos: int, left: bool) -> Seq<(Seq<usize>, usize, usize)> {
    let ct = corner_targets(dim, pos, face_faces(left));
    effects(m, t, face_corner_seqs(dim, pos, left), face_sides(left), face_faces(left), ct, ct, dim, true, pos, face_plus(dim, left), face_minus(dim, left))
}

/// Every corner sequence at ring `pos` has an entry.
#[verifier::opaque]
pub open spec fn face_corner_ok(m: MoveTable, t: ActionTable, dim: int, pos: int, left: bool) -> bool {
    let ct = corner_targets(dim, pos, face_faces(left));
    effects_ok(m, t, face_corner_seqs(dim, pos, left), face_sides(left), face_faces(left), ct, ct, dim, true, pos, face_plus(dim, left), face_minus(dim, left))
}

/// The corner table: the entries at ring `dim / 2 - 1`, where the cube has
/// such a ring and every ring from 1 up to it gives the same entries;
/// `None` otherwise.
pub open spec fn face_corner_table(m: MoveTable, t: ActionTable, dim: int, left: bool) -> Option<Seq<(Seq<usize>, usize, usize)>> {
    if dim >= 4 && forall|pos: int|
        1 <= pos <= dim / 2 - 1 ==> #[trigger] face_corner_ok(m, t, dim, pos, left) && face_corner_effects(m, t, dim, pos, left)
            == face_corner_effects(m, t, dim, dim / 2 - 1, left) {
        Some(face_corner_effects(m, t, dim, dim / 2 - 1, left))
    } else {
        None
    }
}

/// The entries of the edge sequences at `(y, x)`, read at the stickers of
/// `(y, x + 1)` when `diff`.
#[verifier::opaque]
pub open spec fn face_edge_effects(m: MoveTable, t: ActionTable, dim: int, y: int, x: int, left: bool, diff: bool) -> Seq<(Seq<usize>, usize, usize)> {
    let et = edge_targets(dim, y, x, face_faces(left));
    let rt = if diff { edge_targets(dim, y, x + 1, face_faces(left)) } else { et };
    effects(m, t, face_edge_seqs(dim, y, x, left), face_sides(left), face_faces(left), et, rt, dim, false, 0, face_plus(dim, left), face_minus(dim, left))
}

/// Every edge sequence at `(y, x)` has an entry.
#[verifier::opaque]
pub open spec fn face_edge_ok(m: MoveTable, t: ActionTable, dim: int, y: int, x: int, left: bool, diff: bool) -> bool {
    let et = edge_targets(dim, y, x, face_faces(left));
    let rt = if diff { edge_targets(dim, y, x + 1, face_faces(left)) } else { et };
    effects_ok(m, t, face_edge_seqs(dim, y, x, left), face_sides(left), face_faces(left), et, rt, dim, false, 0, face_plus(dim, left), face_minus(dim, left))
}

/// The edge positions a table is derived from: `1 <= y < dim / 2` and
/// `y < x < dim - 1 - y`, or `x < dim - 2 - y` when reading at `x + 1`.
pub open spec fn face_edge_pair(dim: int, y: int, x: int, diff: bool) -> bool {
    1 <= y < dim / 2 && y + 1 <= x < dim - 1 - y - (if diff { 1int } else { 0int })
}

/// Position `(y, x)` has entries, and they are those of `(1, 2)`.
pub open spec fn edge_agrees(m: MoveTable, t: ActionTable, dim: int, y: int, x: int, left: bool, diff: bool) -> bool {
    face_edge_ok(m, t, dim, y, x, left, diff) && face_edge_effects(m, t, dim, y, x, left, diff) == face_edge_effects(m, t, dim, 1, 2, left, diff)
}

/// The edge table: the entries at `(1, 2)`, where the cube has that
/// position and every edge position gives the same entries; `None`
/// otherwise.
pub open spec fn face_edge_table(m: MoveTable, t: ActionTable, dim: int, left: bool, diff: bool) -> Option<Seq<(Seq<usize>, usize, usize)>> {
    if face_edge_pair(dim, 1, 2, diff) && forall|y: int, x: int| face_edge_pair(dim, y, x, diff) ==> #[trigger] edge_agrees(m, t, dim, y, x, left, diff) {
        Some(face_edge_effects(m, t, dim, 1, 2, left, diff))
    } else {
        None
    }
}

/// `r` is the table `spec`, by its views.
pub open spec fn gives_table3(r: Option<Vec<(Vec<usize>, usize, usize)>>, spec: Option<Seq<(Seq<usize>, usize, usize)>>) -> bool {
    match r {
        Some(v) => spec == Some(table3_views(v@)),
        None => spec is None,
    }
}

fn side_list(left: bool) -> (r: Vec<usize>)
    ensures
        r@ == face_sides(left),
        forall|k: int| 0 <= k < r.len() ==> #[trigger] r@[k] < 6,
{
    let r: Vec<usize> = if left { vec![0, 1, 3] } else { vec![1, 3] };
    assert(r@ =~= face_sides(left));
    r
}

fn face_list(left: bool) -> (r: Vec<usize>)
    ensures
        r@ == face_faces(left),
        forall|k: int| 0 <= k < r.len() ==> #[trigger] r@[k] < 6,
{
    let r: Vec<usize> = if left { vec![2, 4, 5] } else { vec![0, 2, 4, 5] };
    assert(r@ =~= face_faces(left));
    r
}

proof fn lemma_faces_fit(dim: int, faces: Seq<usize>)
    requires
        cube_fits(dim),
        forall|k: int| 0 <= k < faces.len() ==> #[trigger] faces[k] < 6,
    ensures
        faces_fit(dim, faces),
{
    lemma_cube_faces_fit(dim);
    assert forall|k: int| 0 <= k < faces.len() implies face_fits(dim, #[trigger] faces[k] as int) by {
        assert(faces[k] < 6);
    }
}

/// Whether two tables with turns are equal by their views.
fn same_table3(a: &Vec<(Vec<usize>, usize, usize)>, b: &Vec<(Vec<usize>, usize, usize)>) -> (r: bool)
    ensures
        r == (table3_views(a@) == table3_views(b@)),
{
    if a.len() != b.len() {
        assert(table3_views(a@).len() != table3_views(b@).len());
        return false;
    }
    let mut i: usize = 0;
    while i < a.len()
        invariant
            i <= a.len() == b.len(),
            forall|k: int| 0 <= k < i ==> table3_views(a@)[k] == table3_views(b@)[k],
        decreases a.len() - i,
    {
        let same = a[i].1 == b[i].1 && a[i].2 == b[i].2 && same_usizes(&a[i].0, &b[i].0);
        if !same {
            assert(table3_views(a@)[i as int] != table3_views(b@)[i as int]);
            return false;
        }
        assert(table3_views(a@)[i as int] == table3_views(b@)[i as int]);
        i = i + 1;
    }
    assert(table3_views(a@) =~= table3_views(b@));
    true
}

/// The corner entries at ring `pos`, made from the moves.
fn face_corner_at(m: &MoveTable, t: &ActionTable, dim: usize, dd: usize, pos: usize, left: bool) -> (r: Option<Vec<(Vec<usize>, usize, usize)>>)
    requires
        m.wf(),
        t.wf(),
        cube_fits(dim as int),
        dd == dim * dim,
        dd >= 1,
        pos < dim,
    ensures
        match r {
            Some(v) => face_corner_ok(*m, *t, dim as int, pos as int, left) && table3_views(v@) == face_corner_effects(*m, *t, dim as int, pos as int, left),
            None => !face_corner_ok(*m, *t, dim as int, pos as int, left),
        },
{
    let sides = side_list(left);
    let faces = face_list(left);
    proof {
        lemma_faces_fit(dim as int, faces@);
        lemma_corner_targets_bound(dim as int, pos as int, faces@);
    }
    let targets = target_idx_corner(dim, pos, &faces);
    let ghost ti = corner_targets(dim as int, pos as int, faces@);
    let seqs = if left { sequence_moves_left_corner(dim, pos) } else { sequence_moves_four_corner(dim, pos) };
    let side = if left { 'r' } else { 'd' };
    let plus = turn(true, side, dim - 1);
    let minus = turn(false, side, dim - 1);
    proof {
        reveal(face_corner_ok);
        reveal(face_corner_effects);
    }
    effects_of(m, t, &seqs, &sides, &faces, &targets, Ghost(ti), &targets, Ghost(ti), dim, dd, true, pos, &plus, &minus)
}

/// The edge entries at `(y, x)`, read at `(y, x + 1)` when `diff`, made
/// from the moves.
fn face_edge_at(m: &MoveTable, t: &ActionTable, dim: usize, dd: usize, y: usize, x: usize, left: bool, diff: bool) -> (r: Option<Vec<(Vec<usize>, usize, usize)>>)
    requires
        m.wf(),
        t.wf(),
        cube_fits(dim as int),
        dd == dim * dim,
        dd >= 1,
        y < x,
        x + 1 < dim,
    ensures
        match r {
            Some(v) => face_edge_ok(*m, *t, dim as int, y as int, x as int, left, diff) && table3_views(v@) == face_edge_effects(
                *m,
                *t,
                dim as int,
                y as int,
                x as int,
                left,
                diff,
            ),
            None => !face_edge_ok(*m, *t, dim as int, y as int, x as int, left, diff),
        },
{
    let sides = side_list(left);
    let faces = face_list(left);
    proof {
        lemma_faces_fit(dim as int, faces@);
        lemma_edge_targets_bound(dim as int, y as int, x as int, faces@);
        lemma_edge_targets_bound(dim as int, y as int, (x + 1) as int, faces@);
    }
    let check = target_idx_edge(dim, y, x, &faces);
    let read = if diff { target_idx_edge(dim, y, x + 1, &faces) } else { target_idx_edge(dim, y, x, &faces) };
    let ghost ci = edge_targets(dim as int, y as int, x as int, faces@);
    let ghost ri = if diff { edge_targets(dim as int, y as int, (x + 1) as int, faces@) } else { ci };
    let seqs = if left { sequence_moves_left_edge(dim, y, x) } else { sequence_moves_four_edge(dim, y, x) };
    let side = if left { 'r' } else { 'd' };
    let plus = turn(true, side, dim - 1);
    let minus = turn(false, side, dim - 1);
    proof {
        reveal(face_edge_ok);
        reveal(face_edge_effects);
    }
    effects_of(m, t, &seqs, &sides, &faces, &check, Ghost(ci), &read, Ghost(ri), dim, dd, false, 0, &plus, &minus)
}

/// The corner table of the up face (`left` false) or the left face.
fn face_corner_generate(allowed_moves: &MoveTable, dim: usize, left: bool) -> (r: Option<Vec<(Vec<usize>, usize, usize)>>)
    requires
        allowed_moves.wf(),
        cube_fits(dim as int),
    ensures
        exists|t: ActionTable| #[trigger] made_from(t, *allowed_moves) && gives_table3(r, face_corner_table(*allowed_moves, t, dim as int, left)),
{
    let m = allowed_moves;
    let t = create_actions(m);
    assert(made_from(t, *m));
    if dim < 4 {
        return None;
    }
    proof {
        lemma_face_below_cube(dim as int, 0);
    }
    let dd = dim * dim;
    let top = dim / 2 - 1;
    let first = match face_corner_at(m, &t, dim, dd, top, left) {
        Some(v) => v,
        None => {
            assert(!face_corner_ok(*m, t, dim as int, top as int, left));
            return None;
        },
    };
    let mut pos = top;
    while pos > 1
        invariant
            1 <= pos <= top,
            top == dim / 2 - 1,
            dim >= 4,
            m.wf(),
            t.wf(),
            made_from(t, *m),
            m == allowed_moves,
            cube_fits(dim as int),
            dd == dim * dim,
            dd >= 1,
            table3_views(first@) == face_corner_effects(*m, t, dim as int, top as int, left),
            forall|p: int|
                pos <= p <= top ==> #[trigger] face_corner_ok(*m, t, dim as int, p, left) && face_corner_effects(*m, t, dim as int, p, left)
                    == face_corner_effects(*m, t, dim as int, top as int, left),
        decreases pos,
    {
        let ghost old_pos = pos;
        pos = pos - 1;
        let cur = match face_corner_at(m, &t, dim, dd, pos, left) {
            Some(v) => v,
            None => {
                assert(!face_corner_ok(*m, t, dim as int, pos as int, left));
                return None;
            },
        };
        if !same_table3(&first, &cur) {
            assert(!(face_corner_ok(*m, t, dim as int, pos as int, left) && face_corner_effects(*m, t, dim as int, pos as int, left)
                == face_corner_effects(*m, t, dim as int, top as int, left)));
            return None;
        }
        assert forall|p: int| pos <= p <= top implies #[trigger] face_corner_ok(*m, t, dim as int, p, left) && face_corner_effects(
            *m,
            t,
            dim as int,
            p,
            left,
        ) == face_corner_effects(*m, t, dim as int, top as int, left) by {
            if p == pos {
                assert(face_corner_ok(*m, t, dim as int, p, left));
                assert(face_corner_effects(*m, t, dim as int, p, left) == table3_views(cur@));
                assert(table3_views(cur@) == table3_views(first@));
            } else {
                assert(old_pos <= p <= top);
                assert(face_corner_ok(*m, t, dim as int, p, left));
                assert(face_corner_effects(*m, t, dim as int, p, left) == face_corner_effects(*m, t, dim as int, top as int, left));
            }
        }
    }
    proof {
        assert forall|p: int| 1 <= p <= dim as int / 2 - 1 implies #[trigger] face_corner_ok(*m, t, dim as int, p, left)
            && face_corner_effects(*m, t, dim as int, p, left) == face_corner_effects(*m, t, dim as int, dim as int / 2 - 1, left) by {
            assert(pos <= p <= top);
            assert(face_corner_ok(*m, t, dim as int, p, left));
            assert(face_corner_effects(*m, t, dim as int, p, left) == face_corner_effects(*m, t, dim as int, top as int, left));
        }
        assert(face_corner_effects(*m, t, dim as int, dim as int / 2 - 1, left) == table3_views(first@));
    }
    assert(forall|p: int| 1 <= p <= dim as int / 2 - 1 ==> #[trigger] face_corner_ok(*m, t, dim as int, p, left)
        && face_corner_effects(*m, t, dim as int, p, left) == face_corner_effects(*m, t, dim as int, dim as int / 2 - 1, left));
    assert(face_corner_table(*m, t, dim as int, left) == Some(table3_views(first@)));
    Some(first)
}

/// The edge table of the up face (`left` false) or the left face, read at
/// `x + 1` when `diff`.
fn face_edge_generate(allowed_moves: &MoveTable, dim: usize, left: bool, diff: bool) -> (r: Option<Vec<(Vec<usize>, usize, usize)>>)
    requires
        allowed_moves.wf(),
        cube_fits(dim as int),
    ensures
        exists|t: ActionTable| #[trigger] made_from(t, *allowed_moves) && gives_table3(r, face_edge_table(*allowed_moves, t, dim as int, left, diff)),
{
    let m = allowed_moves;
    let t = create_actions(m);
    assert(made_from(t, *m));
    let shift: usize = if diff { 1 } else { 0 };
    if dim < 5 + shift {
        return None;
    }
    proof {
        lemma_face_below_cube(dim as int, 0);
    }
    let dd = dim * dim;
    let first = match face_edge_at(m, &t, dim, dd, 1, 2, left, diff) {
        Some(v) => v,
        None => {
            assert(face_edge_pair(dim as int, 1, 2, diff));
            assert(!edge_agrees(*m, t, dim as int, 1, 2, left, diff));
            return None;
        },
    };
    let mut y: usize = 1;
    while y < dim / 2
        invariant
            1 <= y <= dim / 2,
            dim >= 5 + shift,
            shift == (if diff { 1usize } else { 0usize }),
            m.wf(),
            t.wf(),
            made_from(t, *m),
            m == allowed_moves,
            cube_fits(dim as int),
            dd == dim * dim,
            dd >= 1,
            table3_views(first@) == face_edge_effects(*m, t, dim as int, 1, 2, left, diff),
            forall|yy: int, xx: int| face_edge_pair(dim as int, yy, xx, diff) && yy < y ==> #[trigger] edge_agrees(*m, t, dim as int, yy, xx, left, diff),
        decreases dim / 2 - y,
    {
        let mut x: usize = y + 1;
        while x + shift < dim - 1 - y
            invariant
                1 <= y < dim / 2,
                y + 1 <= x,
                x + shift <= dim - 1 - y || x == y + 1,
                dim >= 5 + shift,
                shift == (if diff { 1usize } else { 0usize }),
                m.wf(),
                t.wf(),
                made_from(t, *m),
                m == allowed_moves,
                cube_fits(dim as int),
                dd == dim * dim,
                dd >= 1,
                table3_views(first@) == face_edge_effects(*m, t, dim as int, 1, 2, left, diff),
                forall|yy: int, xx: int| face_edge_pair(dim as int, yy, xx, diff) && yy < y ==> #[trigger] edge_agrees(*m, t, dim as int, yy, xx, left, diff),
                forall|xx: int| face_edge_pair(dim as int, y as int, xx, diff) && xx < x ==> #[trigger] edge_agrees(*m, t, dim as int, y as int, xx, left, diff),
            decreases dim - x,
        {
            let cur = match face_edge_at(m, &t, dim, dd, y, x, left, diff) {
                Some(v) => v,
                None => {
                    assert(face_edge_pair(dim as int, y as int, x as int, diff));
                    assert(!edge_agrees(*m, t, dim as int, y as int, x as int, left, diff));
                    return None;
                },
            };
            if !same_table3(&first, &cur) {
                assert(face_edge_pair(dim as int, y as int, x as int, diff));
                assert(!edge_agrees(*m, t, dim as int, y as int, x as int, left, diff));
                return None;
            }
            assert(edge_agrees(*m, t, dim as int, y as int, x as int, left, diff));
            x = x + 1;
        }
        assert forall|yy: int, xx: int| face_edge_pair(dim as int, yy, xx, diff) && yy < y + 1 implies #[trigger] edge_agrees(*m, t, dim as int, yy, xx, left, diff) by {
            if yy == y {
                assert(xx < x);
            }
        }
        y = y + 1;
    }
    assert(face_edge_pair(dim as int, 1, 2, diff));
    Some(first)
}

/// The table of the up-face corner search: each corner sequence of every
/// ring from `dim / 2 - 1` down to 1, played on a solved cube, checked
/// (faces 1 and 3 keep their inner stickers, the inner rings of faces 0, 2,
/// 4, 5 stay), read as a permutation of the ring's corner stickers, with
/// how far it turns the up face and its length; all rings must agree.
pub fn generate_move_for_bfs_up_corner(allowed_moves: &MoveTable, dim: usize) -> (r: Option<Vec<(Vec<usize>, usize, usize)>>)
    requires
        allowed_moves.wf(),
        cube_fits(dim as int),
    ensures
        exists|t: ActionTable| #[trigger] made_from(t, *allowed_moves) && gives_table3(r, face_corner_table(*allowed_moves, t, dim as int, false)),
{
    face_corner_generate(allowed_moves, dim, false)
}

/// The table of the left-face corner search, as for the up face with the
/// left face's sequences, faces 0, 1, 3 kept and faces 2, 4, 5 worked on.
pub fn generate_move_for_bfs_left_corner(allowed_moves: &MoveTable, dim: usize) -> (r: Option<Vec<(Vec<usize>, usize, usize)>>)
    requires
        allowed_moves.wf(),
        cube_fits(dim as int),
    ensures
        exists|t: ActionTable| #[trigger] made_from(t, *allowed_moves) && gives_table3(r, face_corner_table(*allowed_moves, t, dim as int, true)),
{
    face_corner_generate(allowed_moves, dim, true)
}

/// The table of the up-face edge search: each edge sequence of every
/// position `(y, x)`, played on a solved cube, checked (faces 1 and 3 keep
/// their inner stickers; after two moves or more, the other stickers of
/// faces 0, 2, 4, 5 are kept up to a quarter turn), read as a permutation
/// of the edge stickers, with its turn of the up face and its length; all
/// positions must agree.
pub fn generate_move_for_bfs_up_edge(allowed_moves: &MoveTable, dim: usize) -> (r: Option<Vec<(Vec<usize>, usize, usize)>>)
    requires
        allowed_moves.wf(),
        cube_fits(dim as int),
    ensures
        exists|t: ActionTable| #[trigger] made_from(t, *allowed_moves) && gives_table3(r, face_edge_table(*allowed_moves, t, dim as int, false, false)),
{
    face_edge_generate(allowed_moves, dim, false, false)
}

/// As `generate_move_for_bfs_up_edge`, each sequence of `(y, x)` read at
/// the stickers of `(y, x + 1)`.
pub fn generate_move_for_bfs_up_edge_diff(allowed_moves: &MoveTable, dim: usize) -> (r: Option<Vec<(Vec<usize>, usize, usize)>>)
    requires
        allowed_moves.wf(),
        cube_fits(dim as int),
    ensures
        exists|t: ActionTable| #[trigger] made_from(t, *allowed_moves) && gives_table3(r, face_edge_table(*allowed_moves, t, dim as int, false, true)),
{
    face_edge_generate(allowed_moves, dim, false, true)
}

/// The table of the left-face edge search, as for the up face with the
/// left face's sequences and faces.
pub fn generate_move_for_bfs_left_edge(allowed_moves: &MoveTable, dim: usize) -> (r: Option<Vec<(Vec<usize>, usize, usize)>>)
    requires
        allowed_moves.wf(),
        cube_fits(dim as int),
    ensures
        exists|t: ActionTable| #[trigger] made_from(t, *allowed_moves) && gives_table3(r, face_edge_table(*allowed_moves, t, dim as int, true, false)),
{
    face_edge_generate(allowed_moves, dim, true, false)
}

/// As `generate_move_for_bfs_left_edge`, each sequence of `(y, x)` read at
/// the stickers of `(y, x + 1)`.
pub fn generate_move_for_bfs_left_edge_diff(allowed_moves: &MoveTable, dim: usize) -> (r: Option<Vec<(Vec<usize>, usize, usize)>>)
    requires
        allowed_moves.wf(),
        cube_fits(dim as int),
    ensures
        exists|t: ActionTable| #[trigger] made_from(t, *allowed_moves) && gives_table3(r, face_edge_table(*allowed_moves, t, dim as int, true, true)),
{
    face_edge_generate(allowed_moves, dim, true, true)
}

} // verus!
