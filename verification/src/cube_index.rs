//! Sticker positions on an N x N x N cube. The state holds six faces of
//! N * N stickers, face by face and row by row: sticker `(f, y, x)` is at
//! index `f * N * N + y * N + x`.
use vstd::prelude::*;

verus! {

/// Index of sticker `(f, y, x)` on a cube of side `dim`.
pub open spec fn cell_index(dim: int, f: int, y: int, x: int) -> int {
    f * dim * dim + y * dim + x
}

/// Face `f` of a cube of side `dim` has an index range that fits in `usize`.
pub open spec fn face_fits(dim: int, f: int) -> bool {
    dim >= 1 && 0 <= f && (f + 1) * dim * dim <= usize::MAX
}

/// `v` holds the numbers `w`.
pub open spec fn same_ints(v: Seq<usize>, w: Seq<int>) -> bool {
    v.len() == w.len() && forall|k: int| 0 <= k < v.len() ==> #[trigger] v[k] as int == w[k]
}

proof fn lemma_cell_bounds(dim: int, f: int, y: int, x: int)
    requires
        dim >= 1,
        f >= 0,
        0 <= y < dim,
        0 <= x < dim,
    ensures
        f * dim * dim <= cell_index(dim, f, y, x) < (f + 1) * dim * dim,
        (f * dim + y) * dim + x == cell_index(dim, f, y, x),
{
    assert(f * dim * dim <= f * dim * dim + y * dim + x) by (nonlinear_arith)
        requires
            dim >= 1,
            f >= 0,
            0 <= y,
            0 <= x,
    ;
    assert(y * dim + x < dim * dim) by (nonlinear_arith)
        requires
            0 <= y < dim,
            0 <= x < dim,
    ;
    assert((f + 1) * dim * dim == f * dim * dim + dim * dim) by (nonlinear_arith);
    assert((f * dim + y) * dim + x == f * dim * dim + y * dim + x) by (nonlinear_arith);
}

/// Index of sticker `(f, y, x)`.
pub fn cell(dim: usize, f: usize, y: usize, x: usize) -> (r: usize)
    requires
        face_fits(dim as int, f as int),
        y < dim,
        x < dim,
    ensures
        r as int == cell_index(dim as int, f as int, y as int, x as int),
        r < (f + 1) * dim * dim,
{
    proof {
        lemma_cell_bounds(dim as int, f as int, y as int, x as int);
        assert(f * dim * dim <= (f + 1) * dim * dim) by (nonlinear_arith);
        assert(f * dim <= f * dim * dim) by (nonlinear_arith)
            requires
                dim >= 1,
        ;
        assert(y * dim <= y * dim + x);
        assert(y * dim < dim * dim) by (nonlinear_arith)
            requires
                y < dim,
        ;
    }
    f * dim * dim + y * dim + x
}

/// The four stickers of the ring at distance `pos` from the border that sit
/// at the corners of a square, going round it.
pub open spec fn corner_cells(dim: int, pos: int, f: int) -> Seq<int> {
    let rev = dim - 1 - pos;
    seq![
        cell_index(dim, f, pos, pos),
        cell_index(dim, f, pos, rev),
        cell_index(dim, f, rev, rev),
        cell_index(dim, f, rev, pos),
    ]
}

/// The four stickers that a quarter turn of face `f` moves into one another,
/// starting at row `y`, column `x`.
pub open spec fn edge_cells(dim: int, y: int, x: int, f: int) -> Seq<int> {
    let rev_x = dim - 1 - x;
    let rev_y = dim - 1 - y;
    seq![
        cell_index(dim, f, y, x),
        cell_index(dim, f, x, rev_y),
        cell_index(dim, f, rev_y, rev_x),
        cell_index(dim, f, rev_x, y),
    ]
}

/// `corner_cells` for each face of `faces`, face after face.
pub open spec fn corner_targets(dim: int, pos: int, faces: Seq<usize>) -> Seq<int>
    decreases faces.len(),
{
    if faces.len() == 0 {
        Seq::<int>::empty()
    } else {
        corner_targets(dim, pos, faces.drop_last()) + corner_cells(dim, pos, faces.last() as int)
    }
}

/// `edge_cells` for each face of `faces`, face after face.
pub open spec fn edge_targets(dim: int, y: int, x: int, faces: Seq<usize>) -> Seq<int>
    decreases faces.len(),
{
    if faces.len() == 0 {
        Seq::<int>::empty()
    } else {
        edge_targets(dim, y, x, faces.drop_last()) + edge_cells(dim, y, x, faces.last() as int)
    }
}

/// Every face of `faces` fits.
pub open spec fn faces_fit(dim: int, faces: Seq<usize>) -> bool {
    forall|k: int| 0 <= k < faces.len() ==> face_fits(dim, #[trigger] faces[k] as int)
}

fn push4(r: &mut Vec<usize>, a: usize, b: usize, c: usize, d: usize)
    ensures
        final(r)@ == old(r)@ + seq![a, b, c, d],
{
    r.push(a);
    r.push(b);
    r.push(c);
    r.push(d);
    assert(final(r)@ =~= old(r)@ + seq![a, b, c, d]);
}

/// The corner stickers of the ring at distance `pos` on each face of `faces`.
pub fn target_idx_corner(dim: usize, pos: usize, faces: &Vec<usize>) -> (r: Vec<usize>)
    requires
        pos < dim,
        faces_fit(dim as int, faces@),
    ensures
        same_ints(r@, corner_targets(dim as int, pos as int, faces@)),
{
    let rev_pos = dim - 1 - pos;
    let mut res: Vec<usize> = Vec::new();
    let mut k: usize = 0;
    while k < faces.len()
        invariant
            k <= faces.len(),
            pos < dim,
            rev_pos == dim - 1 - pos,
            faces_fit(dim as int, faces@),
            same_ints(res@, corner_targets(dim as int, pos as int, faces@.take(k as int))),
        decreases faces.len() - k,
    {
        let f = faces[k];
        assert(face_fits(dim as int, faces@[k as int] as int));
        let a = cell(dim, f, pos, pos);
        let b = cell(dim, f, pos, rev_pos);
        let c = cell(dim, f, rev_pos, rev_pos);
        let d = cell(dim, f, rev_pos, pos);
        let ghost before = res@;
        push4(&mut res, a, b, c, d);
        proof {
            let t = faces@.take(k + 1);
            assert(t.drop_last() =~= faces@.take(k as int));
            assert(t.last() == f);
            let w = corner_targets(dim as int, pos as int, t);
            assert(w == corner_targets(dim as int, pos as int, faces@.take(k as int))
                + corner_cells(dim as int, pos as int, f as int));
            assert forall|j: int| 0 <= j < res@.len() implies #[trigger] res@[j] as int == w[j] by {
                if j < before.len() {
                    assert(res@[j] == before[j]);
                }
            }
        }
        k = k + 1;
    }
    assert(faces@.take(faces.len() as int) =~= faces@);
    res
}

/// Two lists that hold the same integers are equal: `target_idx_corner`
/// and `target_idx_corner_distinct`, whose contracts name the same
/// targets, give the same list.
pub proof fn lemma_same_ints_unique(a: Seq<usize>, b: Seq<usize>, w: Seq<int>)
    requires
        same_ints(a, w),
        same_ints(b, w),
    ensures
        a == b,
{
    assert forall|k: int| 0 <= k < a.len() implies a[k] == b[k] by {
        assert(a[k] as int == w[k] && b[k] as int == w[k]);
    }
    assert(a =~= b);
}

/// Same positions as `target_idx_corner`.
pub fn target_idx_corner_distinct(dim: usize, pos: usize, faces: &Vec<usize>) -> (r: Vec<usize>)
    requires
        pos < dim,
        faces_fit(dim as int, faces@),
    ensures
        same_ints(r@, corner_targets(dim as int, pos as int, faces@)),
{
    target_idx_corner(dim, pos, faces)
}

/// The stickers of the four-cycle starting at row `pos_y`, column `pos_x`, on
/// each face of `faces`.
pub fn target_idx_edge(dim: usize, pos_y: usize, pos_x: usize, faces: &Vec<usize>) -> (r: Vec<
    usize,
>)
    requires
        pos_y < dim,
        pos_x < dim,
        faces_fit(dim as int, faces@),
    ensures
        same_ints(r@, edge_targets(dim as int, pos_y as int, pos_x as int, faces@)),
{
    let rev_pos_x = dim - 1 - pos_x;
    let rev_pos_y = dim - 1 - pos_y;
    let mut res: Vec<usize> = Vec::new();
    let mut k: usize = 0;
    while k < faces.len()
        invariant
            k <= faces.len(),
            pos_y < dim,
            pos_x < dim,
            rev_pos_x == dim - 1 - pos_x,
            rev_pos_y == dim - 1 - pos_y,
            faces_fit(dim as int, faces@),
            same_ints(
                res@,
                edge_targets(dim as int, pos_y as int, pos_x as int, faces@.take(k as int)),
            ),
        decreases faces.len() - k,
    {
        let f = faces[k];
        assert(face_fits(dim as int, faces@[k as int] as int));
        let a = cell(dim, f, pos_y, pos_x);
        let b = cell(dim, f, pos_x, rev_pos_y);
        let c = cell(dim, f, rev_pos_y, rev_pos_x);
        let d = cell(dim, f, rev_pos_x, pos_y);
        let ghost before = res@;
        push4(&mut res, a, b, c, d);
        proof {
            let t = faces@.take(k + 1);
            assert(t.drop_last() =~= faces@.take(k as int));
            assert(t.last() == f);
            let w = edge_targets(dim as int, pos_y as int, pos_x as int, t);
            assert(w == edge_targets(dim as int, pos_y as int, pos_x as int, faces@.take(k as int))
                + edge_cells(dim as int, pos_y as int, pos_x as int, f as int));
            assert forall|j: int| 0 <= j < res@.len() implies #[trigger] res@[j] as int == w[j] by {
                if j < before.len() {
                    assert(res@[j] == before[j]);
                }
            }
        }
        k = k + 1;
    }
    assert(faces@.take(faces.len() as int) =~= faces@);
    res
}

/// Same positions as `target_idx_edge`.
pub fn target_idx_edge_distinct(
    dim: usize,
    pos_y: usize,
    pos_x: usize,
    faces: &Vec<usize>,
) -> (r: Vec<usize>)
    requires
        pos_y < dim,
        pos_x < dim,
        faces_fit(dim as int, faces@),
    ensures
        same_ints(r@, edge_targets(dim as int, pos_y as int, pos_x as int, faces@)),
{
    target_idx_edge(dim, pos_y, pos_x, faces)
}

/// Every corner target lies on the cube.
pub proof fn lemma_corner_targets_bound(dim: int, pos: int, faces: Seq<usize>)
    requires
        dim >= 1,
        0 <= pos < dim,
        forall|k: int| 0 <= k < faces.len() ==> #[trigger] faces[k] < 6,
    ensures
        corner_targets(dim, pos, faces).len() == 4 * faces.len(),
        forall|k: int|
            0 <= k < corner_targets(dim, pos, faces).len() ==> 0 <= #[trigger] corner_targets(
                dim,
                pos,
                faces,
            )[k] < 6 * dim * dim,
    decreases faces.len(),
{
    if faces.len() > 0 {
        let fs = faces.drop_last();
        assert forall|k: int| 0 <= k < fs.len() implies #[trigger] fs[k] < 6 by {
            assert(fs[k] == faces[k]);
        }
        lemma_corner_targets_bound(dim, pos, fs);
        let f = faces.last() as int;
        assert(faces[faces.len() - 1] < 6);
        let rev = dim - 1 - pos;
        lemma_cell_bounds(dim, f, pos, pos);
        lemma_cell_bounds(dim, f, pos, rev);
        lemma_cell_bounds(dim, f, rev, rev);
        lemma_cell_bounds(dim, f, rev, pos);
        assert((f + 1) * dim * dim <= 6 * dim * dim) by (nonlinear_arith)
            requires
                0 <= f < 6,
                dim >= 1,
        ;
        assert(f * dim * dim >= 0) by (nonlinear_arith)
            requires
                0 <= f,
                dim >= 1,
        ;
        let t = corner_targets(dim, pos, faces);
        let a = corner_targets(dim, pos, fs);
        let c = corner_cells(dim, pos, f);
        assert(t == a + c);
        assert forall|k: int| 0 <= k < t.len() implies 0 <= #[trigger] t[k] < 6 * dim * dim by {
            if k < a.len() {
                assert(t[k] == a[k]);
            } else {
                assert(t[k] == c[k - a.len()]);
            }
        }
    }
}

/// Every edge target lies on the cube.
pub proof fn lemma_edge_targets_bound(dim: int, y: int, x: int, faces: Seq<usize>)
    requires
        dim >= 1,
        0 <= y < dim,
        0 <= x < dim,
        forall|k: int| 0 <= k < faces.len() ==> #[trigger] faces[k] < 6,
    ensures
        edge_targets(dim, y, x, faces).len() == 4 * faces.len(),
        forall|k: int|
            0 <= k < edge_targets(dim, y, x, faces).len() ==> 0 <= #[trigger] edge_targets(
                dim,
                y,
                x,
                faces,
            )[k] < 6 * dim * dim,
    decreases faces.len(),
{
    if faces.len() > 0 {
        let fs = faces.drop_last();
        assert forall|k: int| 0 <= k < fs.len() implies #[trigger] fs[k] < 6 by {
            assert(fs[k] == faces[k]);
        }
        lemma_edge_targets_bound(dim, y, x, fs);
        let f = faces.last() as int;
        assert(faces[faces.len() - 1] < 6);
        let rev_x = dim - 1 - x;
        let rev_y = dim - 1 - y;
        lemma_cell_bounds(dim, f, y, x);
        lemma_cell_bounds(dim, f, x, rev_y);
        lemma_cell_bounds(dim, f, rev_y, rev_x);
        lemma_cell_bounds(dim, f, rev_x, y);
        assert((f + 1) * dim * dim <= 6 * dim * dim) by (nonlinear_arith)
            requires
                0 <= f < 6,
                dim >= 1,
        ;
        assert(f * dim * dim >= 0) by (nonlinear_arith)
            requires
                0 <= f,
                dim >= 1,
        ;
        let t = edge_targets(dim, y, x, faces);
        let a = edge_targets(dim, y, x, fs);
        let c = edge_cells(dim, y, x, f);
        assert(t == a + c);
        assert forall|k: int| 0 <= k < t.len() implies 0 <= #[trigger] t[k] < 6 * dim * dim by {
            if k < a.len() {
                assert(t[k] == a[k]);
            } else {
                assert(t[k] == c[k - a.len()]);
            }
        }
    }
}

/// The four side faces that the middle-slice moves `f` cycle: 0, 2, 4 and 5.
pub open spec fn four_faces() -> Seq<usize> {
    seq![0usize, 2, 4, 5]
}

fn four_face_vec() -> (v: Vec<usize>)
    ensures
        v@ == four_faces(),
{
    let mut v: Vec<usize> = Vec::new();
    push4(&mut v, 0, 2, 4, 5);
    assert(v@ =~= four_faces());
    v
}

/// A whole cube of side `dim` has an index range that fits in `usize`.
pub open spec fn cube_fits(dim: int) -> bool {
    dim >= 1 && 6 * dim * dim <= usize::MAX
}

pub proof fn lemma_cube_faces_fit(dim: int)
    requires
        cube_fits(dim),
    ensures
        faces_fit(dim, four_faces()),
        forall|f: int| 0 <= f < 6 ==> #[trigger] face_fits(dim, f),
{
    assert forall|f: int| 0 <= f < 6 implies #[trigger] face_fits(dim, f) by {
        assert((f + 1) * dim * dim <= 6 * dim * dim) by (nonlinear_arith)
            requires
                0 <= f < 6,
        ;
    }
    assert forall|k: int| 0 <= k < 4 implies face_fits(dim, #[trigger] four_faces()[k] as int) by {
        assert(0 <= four_faces()[k] < 6);
    }
}

/// The corner stickers of the ring at distance `pos` on faces 0, 2, 4, 5.
pub fn target_idx_four_corner(dim: usize, pos: usize) -> (r: Vec<usize>)
    requires
        pos < dim,
        cube_fits(dim as int),
    ensures
        same_ints(r@, corner_targets(dim as int, pos as int, four_faces())),
{
    proof {
        lemma_cube_faces_fit(dim as int);
    }
    target_idx_corner(dim, pos, &four_face_vec())
}

/// The four-cycle at row `pos_y`, column `pos_x` on faces 0, 2, 4, 5.
pub fn target_idx_four_edge(dim: usize, pos_y: usize, pos_x: usize) -> (r: Vec<usize>)
    requires
        pos_y < dim,
        pos_x < dim,
        cube_fits(dim as int),
    ensures
        same_ints(r@, edge_targets(dim as int, pos_y as int, pos_x as int, four_faces())),
{
    proof {
        lemma_cube_faces_fit(dim as int);
    }
    target_idx_edge(dim, pos_y, pos_x, &four_face_vec())
}

/// The first of the four inner corner stickers of face `face` (the ring next
/// to the centre) that holds the piece belonging at the first; 3 when none of
/// the first three does.
pub open spec fn face_rot_spec(cur: Seq<usize>, sol: Seq<usize>, dim: int, face: int) -> int {
    let t = corner_cells(dim, dim / 2 - 1, face);
    if cur[t[0]] == sol[t[0]] {
        0
    } else if cur[t[1]] == sol[t[0]] {
        1
    } else if cur[t[2]] == sol[t[0]] {
        2
    } else {
        3
    }
}

/// How far the inner corner ring of face `face` is turned from its solved place.
pub fn calc_face_rot(cur_state: &Vec<usize>, sol_state: &Vec<usize>, dim: usize, face: usize) -> (r:
    usize)
    requires
        dim >= 2,
        face_fits(dim as int, face as int),
        cur_state.len() >= (face + 1) * dim * dim,
        sol_state.len() >= (face + 1) * dim * dim,
    ensures
        r == face_rot_spec(cur_state@, sol_state@, dim as int, face as int),
{
    let pos = dim / 2 - 1;
    let rev_pos = dim - 1 - pos;
    let t0 = cell(dim, face, pos, pos);
    let t1 = cell(dim, face, pos, rev_pos);
    let t2 = cell(dim, face, rev_pos, rev_pos);
    if cur_state[t0] == sol_state[t0] {
        return 0;
    }
    if cur_state[t1] == sol_state[t0] {
        return 1;
    }
    if cur_state[t2] == sol_state[t0] {
        return 2;
    }
    3
}

} // verus!
