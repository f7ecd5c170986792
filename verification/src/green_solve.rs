//! Finishing faces 2 and 5 of a cube with distinct pieces: the centre
//! pieces, then each inner corner ring, then each edge cycle. Each group of
//! eight stickers (four on each face) is read as an arrangement, looked up
//! together with the turns of the two inner rings in the search tables, and
//! solved by playing the recorded moves.
use vstd::prelude::*;
use std::collections::HashMap;
use crate::cube_index::{calc_face_rot, cell, cell_index, face_rot_spec, lemma_cube_faces_fit, same_ints};
use crate::cube_seq::{append_move, conj_both, conj_both_into, mv, push_seq, seq_views, single};
use crate::four_solve::{chain, cube_states, follow_chain, on_track, then_moves};
use crate::four_faces::index_views;
use crate::green::{
    ring_gap, starts_in_map, arrangements, center_ring_moves, corner_ring_moves, bfs0, bfs1, bfs3, code8, code_map, edge_ring_moves, get_perm_map, octal8, pack8,
    pushed_list, ring_cheapest, ring_tables, start_list, upto,
};
use crate::moves::turn;
use crate::perm::{all_known, apply_named, apply_named_move, ActionTable};
use crate::pieces::string_views;
use crate::face_solve::{acts_in, lemma_apply_named_concat};

verus! {

broadcast use vstd::std_specs::hash::group_hash_axioms;

/// The last of the first `k` targets whose solved piece is `v`.
pub open spec fn last_place(sol: Seq<usize>, t: Seq<int>, v: usize, k: int) -> Option<int>
    decreases k,
{
    if k <= 0 {
        None
    } else if sol[t[k - 1]] == v {
        Some(k - 1)
    } else {
        last_place(sol, t, v, k - 1)
    }
}

/// For each of the eight targets, the last target whose solved piece is now
/// there; `None` when some target holds a piece that belongs to none.
pub open spec fn target_arrangement(cur: Seq<usize>, sol: Seq<usize>, t: Seq<int>) -> Option<
    Seq<usize>,
> {
    if forall|i: int| 0 <= i < 8 ==> #[trigger] last_place(sol, t, cur[t[i]], 8) is Some {
        Some(Seq::new(8, |i: int| last_place(sol, t, cur[t[i]], 8)->0 as usize))
    } else {
        None
    }
}

/// The place in `map` of the arrangement at targets `t`.
pub open spec fn arrangement_place(cur: Seq<usize>, sol: Seq<usize>, t: Seq<int>, map: Map<u32, usize>) -> Option<usize> {
    match target_arrangement(cur, sol, t) {
        Some(p) => if map.contains_key(code8(p) as u32) {
            Some(map[code8(p) as u32])
        } else {
            None
        },
        None => None,
    }
}

/// Eight targets, each an index of a state of length `n`.
pub open spec fn eight_targets(t: Seq<int>, n: int) -> bool {
    &&& t.len() == 8
    &&& forall|k: int| 0 <= k < 8 ==> 0 <= #[trigger] t[k] < n
}

proof fn lemma_last_place_below(sol: Seq<usize>, t: Seq<int>, v: usize, k: int)
    ensures
        last_place(sol, t, v, k) matches Some(j) ==> 0 <= j < k,
    decreases k,
{
    if k > 0 {
        lemma_last_place_below(sol, t, v, k - 1);
    }
}

/// The last target whose solved piece is `v`.
fn last_match(sol: &Vec<usize>, t: &Vec<usize>, v: usize, Ghost(ti): Ghost<Seq<int>>) -> (r: Option<usize>)
    requires
        same_ints(t@, ti),
        eight_targets(ti, sol.len() as int),
    ensures
        match r {
            Some(j) => last_place(sol@, ti, v, 8) == Some(j as int),
            None => last_place(sol@, ti, v, 8) is None,
        },
{
    let mut j: usize = 8;
    while j > 0
        invariant
            j <= 8,
            same_ints(t@, ti),
            eight_targets(ti, sol.len() as int),
            last_place(sol@, ti, v, 8) == last_place(sol@, ti, v, j as int),
        decreases j,
    {
        assert(t@[j - 1] as int == ti[j - 1]);
        if sol[t[j - 1]] == v {
            return Some(j - 1);
        }
        j = j - 1;
    }
    None
}

/// The place in the map of the arrangement at the eight targets `t`.
pub fn arrangement_index(
    cur: &Vec<usize>,
    sol: &Vec<usize>,
    t: &Vec<usize>,
    Ghost(ti): Ghost<Seq<int>>,
    perm_map: &HashMap<u32, usize>,
) -> (r: Option<usize>)
    requires
        same_ints(t@, ti),
        eight_targets(ti, cur.len() as int),
        sol.len() == cur.len(),
    ensures
        r == arrangement_place(cur@, sol@, ti, perm_map@),
{
    let mut p: Vec<usize> = Vec::new();
    let mut i: usize = 0;
    while i < 8
        invariant
            i <= 8,
            same_ints(t@, ti),
            eight_targets(ti, cur.len() as int),
            sol.len() == cur.len(),
            p.len() == i,
            forall|k: int| 0 <= k < i ==> #[trigger] last_place(sol@, ti, cur@[ti[k]], 8) == Some(p@[k] as int),
        decreases 8 - i,
    {
        assert(t@[i as int] as int == ti[i as int]);
        let v = cur[t[i]];
        match last_match(sol, t, v, Ghost(ti)) {
            Some(j) => {
                p.push(j);
            },
            None => {
                proof {
                    assert(last_place(sol@, ti, cur@[ti[i as int]], 8) is None);
                    assert(target_arrangement(cur@, sol@, ti) is None);
                }
                return None;
            },
        }
        i = i + 1;
    }
    proof {
        assert forall|k: int| 0 <= k < 8 implies #[trigger] last_place(sol@, ti, cur@[ti[k]], 8) is Some by {
            assert(last_place(sol@, ti, cur@[ti[k]], 8) == Some(p@[k] as int));
        }
        assert(p@ =~= Seq::new(8, |k: int| last_place(sol@, ti, cur@[ti[k]], 8)->0 as usize));
        assert forall|k: int| 0 <= k < 8 implies #[trigger] p@[k] < 8 by {
            lemma_last_place_below(sol@, ti, cur@[ti[k]], 8);
        }
        assert(target_arrangement(cur@, sol@, ti) == Some(p@));
    }
    match pack8(&p) {
        Some(c) => match perm_map.get(&c) {
            Some(v) => Some(*v),
            None => None,
        },
        None => None,
    }
}

/// The eight inner-ring stickers at distance `pos` on faces 2 and 5, in the
/// order of the corner search.
pub open spec fn green_corner_cells(dim: int, pos: int) -> Seq<int> {
    let r = dim - 1 - pos;
    seq![
        cell_index(dim, 2, pos, pos),
        cell_index(dim, 2, pos, r),
        cell_index(dim, 2, r, pos),
        cell_index(dim, 2, r, r),
        cell_index(dim, 5, pos, r),
        cell_index(dim, 5, r, r),
        cell_index(dim, 5, pos, pos),
        cell_index(dim, 5, r, pos),
    ]
}

/// The eight edge stickers of row `y`, column `x` on faces 2 and 5, in the
/// order of the edge search.
pub open spec fn green_edge_cells(dim: int, y: int, x: int) -> Seq<int> {
    let rx = dim - 1 - x;
    let ry = dim - 1 - y;
    seq![
        cell_index(dim, 2, y, x),
        cell_index(dim, 2, rx, y),
        cell_index(dim, 2, x, ry),
        cell_index(dim, 2, ry, rx),
        cell_index(dim, 5, x, ry),
        cell_index(dim, 5, y, x),
        cell_index(dim, 5, ry, rx),
        cell_index(dim, 5, rx, y),
    ]
}

/// The eight numbers `a, .., h`.
fn eight(a: usize, b: usize, c: usize, d: usize, e: usize, f: usize, g: usize, h: usize) -> (r: Vec<usize>)
    ensures
        r@ == seq![a, b, c, d, e, f, g, h],
{
    let mut r: Vec<usize> = Vec::new();
    r.push(a);
    r.push(b);
    r.push(c);
    r.push(d);
    r.push(e);
    r.push(f);
    r.push(g);
    r.push(h);
    assert(r@ =~= seq![a, b, c, d, e, f, g, h]);
    r
}

fn corner_place(
    cur: &Vec<usize>,
    sol: &Vec<usize>,
    perm_map: &HashMap<u32, usize>,
    dim: usize,
    pos: usize,
) -> (r: Option<usize>)
    requires
        cube_states(cur@, sol@, dim as int),
        pos < dim,
    ensures
        r == arrangement_place(cur@, sol@, green_corner_cells(dim as int, pos as int), perm_map@),
{
    proof {
        lemma_cube_faces_fit(dim as int);
        assert(face_fits_all(dim as int));
    }
    let r = dim - 1 - pos;
    let t = eight(
        cell(dim, 2, pos, pos),
        cell(dim, 2, pos, r),
        cell(dim, 2, r, pos),
        cell(dim, 2, r, r),
        cell(dim, 5, pos, r),
        cell(dim, 5, r, r),
        cell(dim, 5, pos, pos),
        cell(dim, 5, r, pos),
    );
    let ghost ti = green_corner_cells(dim as int, pos as int);
    proof {
        assert(same_ints(t@, ti));
        assert((5 + 1) * dim * dim == 6 * dim * dim) by (nonlinear_arith);
        assert((2 + 1) * dim * dim <= 6 * dim * dim) by (nonlinear_arith);
        assert forall|k: int| 0 <= k < 8 implies 0 <= #[trigger] ti[k] < cur.len() by {
            assert(t@[k] as int == ti[k]);
        }
        assert(eight_targets(ti, cur.len() as int));
    }
    arrangement_index(cur, sol, &t, Ghost(ti), perm_map)
}

fn edge_place(
    cur: &Vec<usize>,
    sol: &Vec<usize>,
    perm_map: &HashMap<u32, usize>,
    dim: usize,
    y: usize,
    x: usize,
) -> (r: Option<usize>)
    requires
        cube_states(cur@, sol@, dim as int),
        y < dim,
        x < dim,
    ensures
        r == arrangement_place(cur@, sol@, green_edge_cells(dim as int, y as int, x as int), perm_map@),
{
    proof {
        lemma_cube_faces_fit(dim as int);
        assert(face_fits_all(dim as int));
    }
    let rx = dim - 1 - x;
    let ry = dim - 1 - y;
    let t = eight(
        cell(dim, 2, y, x),
        cell(dim, 2, rx, y),
        cell(dim, 2, x, ry),
        cell(dim, 2, ry, rx),
        cell(dim, 5, x, ry),
        cell(dim, 5, y, x),
        cell(dim, 5, ry, rx),
        cell(dim, 5, rx, y),
    );
    let ghost ti = green_edge_cells(dim as int, y as int, x as int);
    proof {
        assert(same_ints(t@, ti));
        assert((5 + 1) * dim * dim == 6 * dim * dim) by (nonlinear_arith);
        assert((2 + 1) * dim * dim <= 6 * dim * dim) by (nonlinear_arith);
        assert forall|k: int| 0 <= k < 8 implies 0 <= #[trigger] ti[k] < cur.len() by {
            assert(t@[k] as int == ti[k]);
        }
        assert(eight_targets(ti, cur.len() as int));
    }
    arrangement_index(cur, sol, &t, Ghost(ti), perm_map)
}

spec fn face_fits_all(dim: int) -> bool {
    forall|f: int| 0 <= f < 6 ==> #[trigger] crate::cube_index::face_fits(dim, f)
}

/// Place in the corner search of the inner-ring stickers at distance `pos`.
pub fn calc_permutation_idx_corner(
    cur_state: &Vec<usize>,
    sol_state: &Vec<usize>,
    perm_map: &HashMap<u32, usize>,
    dim: usize,
    pos: usize,
) -> (r: usize)
    requires
        cube_states(cur_state@, sol_state@, dim as int),
        pos < dim,
        arrangement_place(cur_state@, sol_state@, green_corner_cells(dim as int, pos as int), perm_map@) is Some,
    ensures
        Some(r) == arrangement_place(cur_state@, sol_state@, green_corner_cells(dim as int, pos as int), perm_map@),
{
    corner_place(cur_state, sol_state, perm_map, dim, pos).unwrap()
}

/// Place in the edge search of the edge stickers of row `pos_y`, column `pos_x`.
pub fn calc_permutation_idx_edge(
    cur_state: &Vec<usize>,
    sol_state: &Vec<usize>,
    perm_map: &HashMap<u32, usize>,
    dim: usize,
    pos_y: usize,
    pos_x: usize,
) -> (r: usize)
    requires
        cube_states(cur_state@, sol_state@, dim as int),
        pos_y < dim,
        pos_x < dim,
        arrangement_place(cur_state@, sol_state@, green_edge_cells(dim as int, pos_y as int, pos_x as int), perm_map@) is Some,
    ensures
        Some(r) == arrangement_place(cur_state@, sol_state@, green_edge_cells(dim as int, pos_y as int, pos_x as int), perm_map@),
{
    edge_place(cur_state, sol_state, perm_map, dim, pos_y, pos_x).unwrap()
}

/// How far the inner corner ring of face 2 is turned.
pub fn calc_rot0(cur_state: &Vec<usize>, sol_state: &Vec<usize>, dim: usize) -> (r: usize)
    requires
        cube_states(cur_state@, sol_state@, dim as int),
        dim >= 2,
    ensures
        r == face_rot_spec(cur_state@, sol_state@, dim as int, 2),
{
    proof {
        lemma_cube_faces_fit(dim as int);
        assert(crate::cube_index::face_fits(dim as int, 2));
        assert(3 * dim * dim <= 6 * dim * dim) by (nonlinear_arith);
    }
    calc_face_rot(cur_state, sol_state, dim, 2)
}

/// How far the inner corner ring of face 5 is turned: the first of its
/// stickers `(pos, rev)`, `(rev, rev)`, `(rev, pos)` that holds the piece
/// belonging at `(pos, rev)`; 3 when none does.
pub open spec fn rot1_spec(cur: Seq<usize>, sol: Seq<usize>, dim: int) -> int {
    let pos = dim / 2 - 1;
    let r = dim - 1 - pos;
    let t0 = cell_index(dim, 5, pos, r);
    if cur[t0] == sol[t0] {
        0
    } else if cur[cell_index(dim, 5, r, r)] == sol[t0] {
        1
    } else if cur[cell_index(dim, 5, r, pos)] == sol[t0] {
        2
    } else {
        3
    }
}

/// How far the inner corner ring of face 5 is turned.
pub fn calc_rot1(cur_state: &Vec<usize>, sol_state: &Vec<usize>, dim: usize) -> (r: usize)
    requires
        cube_states(cur_state@, sol_state@, dim as int),
        dim >= 2,
    ensures
        r == rot1_spec(cur_state@, sol_state@, dim as int),
{
    proof {
        lemma_cube_faces_fit(dim as int);
        assert(crate::cube_index::face_fits(dim as int, 5));
        assert((5 + 1) * dim * dim == 6 * dim * dim) by (nonlinear_arith);
    }
    let pos = dim / 2 - 1;
    let rev_pos = dim - 1 - pos;
    let t0 = cell(dim, 5, pos, rev_pos);
    let t1 = cell(dim, 5, rev_pos, rev_pos);
    let t2 = cell(dim, 5, rev_pos, pos);
    if cur_state[t0] == sol_state[t0] {
        return 0;
    }
    if cur_state[t1] == sol_state[t0] {
        return 1;
    }
    if cur_state[t2] == sol_state[t0] {
        return 2;
    }
    3
}

/// The sequences of the centre and corner stages for the ring at distance
/// `pos`: the four turns of faces 2 and 5, then each turn of face 2
/// conjugated by an `f` layer turn.
pub open spec fn green_corner_sequences(dim: int, pos: int) -> Seq<Seq<Seq<char>>> {
    seq![
        seq![mv(true, 'r', 0)],
        seq![mv(false, 'r', 0)],
        seq![mv(true, 'd', 0)],
        seq![mv(false, 'd', 0)],
    ] + conj_both(dim, pos, mv(false, 'r', 0), mv(true, 'r', 0))
}

/// The sequences of the centre and corner stages for the ring at distance `pos`.
pub fn green_corner_moves(dim: usize, pos: usize) -> (r: Vec<Vec<String>>)
    requires
        pos < dim,
    ensures
        seq_views(r@) == green_corner_sequences(dim as int, pos as int),
{
    let r0_p = turn(false, 'r', 0);
    let r0_m = turn(true, 'r', 0);
    let d0_p = turn(false, 'd', 0);
    let d0_m = turn(true, 'd', 0);
    let mut res: Vec<Vec<String>> = Vec::new();
    push_seq(&mut res, single(&r0_m));
    push_seq(&mut res, single(&r0_p));
    push_seq(&mut res, single(&d0_m));
    push_seq(&mut res, single(&d0_p));
    let ghost singles = seq_views(res@);
    conj_both_into(&mut res, dim, pos, &r0_p, &r0_m, false);
    assert(singles =~= seq![
        seq![mv(true, 'r', 0)],
        seq![mv(false, 'r', 0)],
        seq![mv(true, 'd', 0)],
        seq![mv(false, 'd', 0)],
    ]);
    assert(seq_views(res@) =~= green_corner_sequences(dim as int, pos as int));
    res
}

/// The sequences of the edge stage for row `y`, column `x`: the four turns
/// of faces 2 and 5, then eight commutators of a face turn with two `f`
/// layer turns.
pub open spec fn green_edge_sequences(dim: int, y: int, x: int) -> Seq<Seq<Seq<char>>> {
    let rx = dim - 1 - x;
    let ry = dim - 1 - y;
    let r0 = mv(false, 'r', 0);
    let mr0 = mv(true, 'r', 0);
    let d0 = mv(false, 'd', 0);
    let md0 = mv(true, 'd', 0);
    seq![
        seq![mr0],
        seq![r0],
        seq![md0],
        seq![d0],
        seq![r0, mv(true, 'f', rx), mr0, mv(true, 'f', ry), r0, mv(false, 'f', rx), mr0, mv(false, 'f', ry)],
        seq![mv(true, 'f', ry), r0, mv(true, 'f', rx), mr0, mv(false, 'f', ry), r0, mv(false, 'f', rx), mr0],
        seq![mr0, mv(true, 'f', rx), r0, mv(true, 'f', y), mr0, mv(false, 'f', rx), r0, mv(false, 'f', y)],
        seq![mv(true, 'f', y), mr0, mv(true, 'f', rx), r0, mv(false, 'f', y), mr0, mv(false, 'f', rx), r0],
        seq![md0, mv(false, 'f', x), d0, mv(false, 'f', ry), md0, mv(true, 'f', x), d0, mv(true, 'f', ry)],
        seq![mv(false, 'f', ry), md0, mv(false, 'f', x), d0, mv(true, 'f', ry), md0, mv(true, 'f', x), d0],
        seq![d0, mv(false, 'f', x), md0, mv(false, 'f', y), d0, mv(true, 'f', x), md0, mv(true, 'f', y)],
        seq![mv(false, 'f', y), d0, mv(false, 'f', x), md0, mv(true, 'f', y), d0, mv(true, 'f', x), md0],
    ]
}

/// The eight moves `a, .., h`.
fn eight_moves(
    a: &String,
    b: &String,
    c: &String,
    d: &String,
    e: &String,
    f: &String,
    g: &String,
    h: &String,
) -> (r: Vec<String>)
    ensures
        string_views(r@) == seq![a@, b@, c@, d@, e@, f@, g@, h@],
{
    let mut r: Vec<String> = Vec::new();
    append_move(&mut r, a);
    append_move(&mut r, b);
    append_move(&mut r, c);
    append_move(&mut r, d);
    append_move(&mut r, e);
    append_move(&mut r, f);
    append_move(&mut r, g);
    append_move(&mut r, h);
    assert(string_views(r@) =~= seq![a@, b@, c@, d@, e@, f@, g@, h@]);
    r
}

/// The sequences of the edge stage for row `y`, column `x`.
pub fn green_edge_moves(dim: usize, y: usize, x: usize) -> (r: Vec<Vec<String>>)
    requires
        y < dim,
        x < dim,
    ensures
        seq_views(r@) == green_edge_sequences(dim as int, y as int, x as int),
{
    let rx = dim - 1 - x;
    let ry = dim - 1 - y;
    let r0 = turn(false, 'r', 0);
    let mr0 = turn(true, 'r', 0);
    let d0 = turn(false, 'd', 0);
    let md0 = turn(true, 'd', 0);
    let frx_m = turn(true, 'f', rx);
    let frx_p = turn(false, 'f', rx);
    let fx_m = turn(true, 'f', x);
    let fx_p = turn(false, 'f', x);
    let fry_m = turn(true, 'f', ry);
    let fry_p = turn(false, 'f', ry);
    let fy_m = turn(true, 'f', y);
    let fy_p = turn(false, 'f', y);
    let mut res: Vec<Vec<String>> = Vec::new();
    push_seq(&mut res, single(&mr0));
    push_seq(&mut res, single(&r0));
    push_seq(&mut res, single(&md0));
    push_seq(&mut res, single(&d0));
    push_seq(&mut res, eight_moves(&r0, &frx_m, &mr0, &fry_m, &r0, &frx_p, &mr0, &fry_p));
    push_seq(&mut res, eight_moves(&fry_m, &r0, &frx_m, &mr0, &fry_p, &r0, &frx_p, &mr0));
    push_seq(&mut res, eight_moves(&mr0, &frx_m, &r0, &fy_m, &mr0, &frx_p, &r0, &fy_p));
    push_seq(&mut res, eight_moves(&fy_m, &mr0, &frx_m, &r0, &fy_p, &mr0, &frx_p, &r0));
    push_seq(&mut res, eight_moves(&md0, &fx_p, &d0, &fry_p, &md0, &fx_m, &d0, &fry_m));
    push_seq(&mut res, eight_moves(&fry_p, &md0, &fx_p, &d0, &fry_m, &md0, &fx_m, &d0));
    push_seq(&mut res, eight_moves(&d0, &fx_p, &md0, &fy_p, &d0, &fx_m, &md0, &fy_m));
    push_seq(&mut res, eight_moves(&fy_p, &d0, &fx_p, &md0, &fy_m, &d0, &fx_m, &md0));
    assert(seq_views(res@) =~= green_edge_sequences(dim as int, y as int, x as int));
    res
}

/// The moves of the sequences `seqs[a]` of the actions `acts`, one after
/// the other.
pub open spec fn played_moves(seqs: Seq<Seq<Seq<char>>>, acts: Seq<usize>) -> Seq<Seq<char>>
    decreases acts.len(),
{
    if acts.len() == 0 {
        Seq::empty()
    } else {
        played_moves(seqs, acts.drop_last()) + seqs[acts.last() as int]
    }
}

proof fn lemma_played_prefix(seqs: Seq<Seq<Seq<char>>>, acts: Seq<usize>, i: int)
    requires
        0 <= i <= acts.len(),
    ensures
        played_moves(seqs, acts.take(i)).len() <= played_moves(seqs, acts).len(),
        forall|t: int|
            0 <= t < played_moves(seqs, acts.take(i)).len() ==> #[trigger] played_moves(seqs, acts)[t]
                == played_moves(seqs, acts.take(i))[t],
    decreases acts.len(),
{
    if i == acts.len() {
        assert(acts.take(i) =~= acts);
    } else {
        let d = acts.drop_last();
        assert(d.take(i) =~= acts.take(i));
        lemma_played_prefix(seqs, d, i);
    }
}

proof fn lemma_played_unknown(t: ActionTable, seqs: Seq<Seq<Seq<char>>>, acts: Seq<usize>, k: int, j: int)
    requires
        0 <= k < acts.len(),
        0 <= j < seqs[acts[k] as int].len(),
        !t.knows(seqs[acts[k] as int][j]),
    ensures
        !all_known(t, played_moves(seqs, acts)),
{
    let u = seqs[acts[k] as int];
    assert(acts.take(k + 1).drop_last() =~= acts.take(k));
    let pre = played_moves(seqs, acts.take(k + 1));
    assert(pre == played_moves(seqs, acts.take(k)) + u);
    let i = played_moves(seqs, acts.take(k)).len() + j;
    assert(pre[i] == u[j]);
    lemma_played_prefix(seqs, acts, k + 1);
    assert(played_moves(seqs, acts)[i] == u[j]);
}

/// Plays, for each action index of `acts` in turn, the moves of `seqs[a]`
/// in order (`played_moves`). `false` when an index is outside `seqs` or a
/// move is missing from the table.
fn play_path(
    t: &ActionTable,
    state: &mut Vec<usize>,
    moves: &mut Vec<String>,
    seqs: &Vec<Vec<String>>,
    acts: &Vec<usize>,
    Ghost(start): Ghost<Seq<usize>>,
) -> (ok: bool)
    requires
        t.wf(),
        t.fits(old(state).len() as nat),
        on_track(*t, start, old(state)@, old(moves)@),
    ensures
        final(state).len() == old(state).len(),
        on_track(*t, start, final(state)@, final(moves)@),
        ok <==> acts_in(seq_views(seqs@), acts@) && all_known(*t, played_moves(seq_views(seqs@), acts@)),
        ok ==> string_views(final(moves)@) == string_views(old(moves)@) + played_moves(seq_views(seqs@), acts@),
{
    let ghost sv = seq_views(seqs@);
    let ghost base = string_views(moves@);
    proof {
        assert(played_moves(sv, acts@.take(0)) =~= Seq::<Seq<char>>::empty());
        assert(base + Seq::<Seq<char>>::empty() =~= base);
    }
    let mut k: usize = 0;
    while k < acts.len()
        invariant
            k <= acts.len(),
            sv == seq_views(seqs@),
            t.wf(),
            t.fits(state.len() as nat),
            state.len() == old(state).len(),
            on_track(*t, start, state@, moves@),
            acts_in(sv, acts@.take(k as int)),
            string_views(moves@) == base + played_moves(sv, acts@.take(k as int)),
        decreases acts.len() - k,
    {
        let a = acts[k];
        if a >= seqs.len() {
            proof {
                assert(!acts_in(sv, acts@)) by {
                    assert(acts@[k as int] == a);
                }
            }
            return false;
        }
        let seq = &seqs[a];
        let ghost sq = sv[a as int];
        let ghost pre = string_views(moves@);
        assert(sq == string_views(seq@));
        assert(pre + sq.take(0) =~= pre);
        let mut j: usize = 0;
        while j < seq.len()
            invariant
                j <= seq.len(),
                sq == string_views(seq@),
                k < acts.len(),
                a == acts@[k as int],
                a < sv.len(),
                sv == seq_views(seqs@),
                sq == sv[a as int],
                t.wf(),
                t.fits(state.len() as nat),
                state.len() == old(state).len(),
                on_track(*t, start, state@, moves@),
                string_views(moves@) == pre + sq.take(j as int),
            decreases seq.len() - j,
        {
            let ghost before = string_views(moves@);
            let name = seq[j].clone();
            if !apply_named_move(t, state, moves, name, Ghost(start)) {
                proof {
                    assert(acts@[k as int] == a);
                    assert(sq[j as int] == seq@[j as int]@);
                    lemma_played_unknown(*t, sv, acts@, k as int, j as int);
                }
                return false;
            }
            assert(sq[j as int] == seq@[j as int]@);
            assert(string_views(moves@) =~= before.push(sq[j as int]));
            assert(string_views(moves@) =~= pre + sq.take(j + 1));
            j = j + 1;
        }
        proof {
            assert(sq.take(j as int) =~= sq);
            assert(acts@.take(k + 1).drop_last() =~= acts@.take(k as int));
            assert(acts@.take(k + 1).last() == a);
            assert(played_moves(sv, acts@.take(k + 1)) == played_moves(sv, acts@.take(k as int)) + sq);
            assert(string_views(moves@) =~= base + played_moves(sv, acts@.take(k + 1)));
            assert(acts_in(sv, acts@.take(k + 1))) by {
                assert forall|i: int| 0 <= i < k + 1 implies #[trigger] acts@.take(k + 1)[i] < sv.len() by {
                    if i < k {
                        assert(acts@.take(k + 1)[i] == acts@.take(k as int)[i]);
                    }
                }
            }
        }
        k = k + 1;
    }
    proof {
        assert(acts@.take(acts.len() as int) =~= acts@);
        let u = played_moves(sv, acts@);
        assert forall|i: int| 0 <= i < u.len() implies #[trigger] t.knows(u[i]) by {
            assert(string_views(moves@)[base.len() + i] == u[i]);
        }
    }
    true
}

/// Place in the corner and edge searches of an arrangement with the two
/// ring turns; `None` when it does not fit in `usize`.
fn ring_index(place: usize, rot0: usize, rot1: usize) -> (r: Option<usize>)
    ensures
        r is Some <==> rot0 < 4 && 16 * place + 4 * rot0 + rot1 <= usize::MAX,
        r matches Some(i) ==> i == 16 * place + 4 * rot0 + rot1,
{
    match place.checked_mul(16) {
        Some(p) => match p.checked_add(4 * (rot0 % 4)) {
            Some(q) => {
                if rot0 < 4 {
                    q.checked_add(rot1)
                } else {
                    None
                }
            },
            None => None,
        },
        None => None,
    }
}

/// Why the centre step can fail with the arrangement map `map`: the
/// search has no start or leaves the map, or, over search tables built
/// from the map, the innermost ring's arrangement has no place, its chain
/// does not end, names a sequence that is not there, or asks for a move
/// that `t` does not know.
pub open spec fn green_center_fails(t: ActionTable, map: Map<u32, usize>, cur: Seq<usize>, sol: Seq<usize>, dim: int) -> bool {
    let list = arrangements(upto(8), 8);
    let seqs = green_corner_sequences(dim, dim / 2 - 1);
    ||| !starts_in_map(map, center_ring_moves()[0].0, center_ring_moves()[2].0)
    ||| ring_gap(list, map, 1, center_ring_moves())
    ||| exists|ps: Seq<Option<usize>>, pa: Seq<Option<usize>>|
        #[trigger] ring_tables(list, map, 1, center_ring_moves(), ps, pa) && match arrangement_place(
            cur,
            sol,
            green_corner_cells(dim, dim / 2 - 1),
            map,
        ) {
            Some(i) => match chain(ps, pa, i as int, ps.len()) {
                Some(acts) => !(acts_in(seqs, acts) && all_known(t, played_moves(seqs, acts))),
                None => true,
            },
            None => true,
        }
}

/// Solves the centre pieces of faces 2 and 5: the arrangement of the
/// innermost ring is looked up in the centre search started from the ring
/// turns whose parity matches that of the turns of faces 0, 1, 3 and 4, and
/// the recorded moves are played. Gives the state reached and the moves
/// made, which the table knows and which lead from `cur_state` to that
/// state; `None` when the search or a lookup fails, a path does not end, or
/// a move is unknown.
pub fn solve_green_middle_center(
    cur_state: &Vec<usize>,
    sol_state: &Vec<usize>,
    actions: &ActionTable,
    dim: usize,
) -> (r: Option<(Vec<usize>, Vec<String>)>)
    requires
        actions.wf(),
        actions.fits(cur_state.len() as nat),
        cube_states(cur_state@, sol_state@, dim as int),
        dim >= 2,
    ensures
        r matches Some((state, moves)) ==> on_track(*actions, cur_state@, state@, moves@) && exists|
            map: Map<u32, usize>,
            ps: Seq<Option<usize>>,
            pa: Seq<Option<usize>>,
            i: usize,
            acts: Seq<usize>,
        |
            code_map(arrangements(upto(8), 8), map) && ring_tables(arrangements(upto(8), 8), map, 1, center_ring_moves(), ps, pa)
                && arrangement_place(cur_state@, sol_state@, green_corner_cells(dim as int, dim / 2 - 1), map) == Some(i)
                && chain(ps, pa, i as int, ps.len()) == Some(acts) && string_views(moves@) == played_moves(
                green_corner_sequences(dim as int, dim / 2 - 1),
                acts,
            ),
        r is None ==> exists|map: Map<u32, usize>|
            #[trigger] code_map(arrangements(upto(8), 8), map) && green_center_fails(*actions, map, cur_state@, sol_state@, dim as int),
{
    proof {
        lemma_cube_faces_fit(dim as int);
        assert(5 * dim * dim <= 6 * dim * dim) by (nonlinear_arith);
        assert(4 * dim * dim <= 6 * dim * dim) by (nonlinear_arith);
        assert(2 * dim * dim <= 6 * dim * dim) by (nonlinear_arith);
        assert(1 * dim * dim <= 6 * dim * dim) by (nonlinear_arith);
        assert(crate::cube_index::face_fits(dim as int, 0));
        assert(crate::cube_index::face_fits(dim as int, 1));
        assert(crate::cube_index::face_fits(dim as int, 3));
        assert(crate::cube_index::face_fits(dim as int, 4));
    }
    let (perm_list, perm_map) = get_perm_map();
    let parity = calc_face_rot(cur_state, sol_state, dim, 0) + calc_face_rot(cur_state, sol_state, dim, 1)
        + calc_face_rot(cur_state, sol_state, dim, 3) + calc_face_rot(cur_state, sol_state, dim, 4);
    let (prev_state, prev_action) = match bfs0(&perm_list, &perm_map, 1 - parity % 2) {
        Some(v) => v,
        None => {
            proof {
                assert(green_center_fails(*actions, perm_map@, cur_state@, sol_state@, dim as int));
            }
            return None;
        },
    };
    let pos = dim / 2 - 1;
    let state_idx = match corner_place(cur_state, sol_state, &perm_map, dim, pos) {
        Some(i) => i,
        None => {
            proof {
                assert(ring_tables(arrangements(upto(8), 8), perm_map@, 1, center_ring_moves(), prev_state@, prev_action@));
                assert(green_center_fails(*actions, perm_map@, cur_state@, sol_state@, dim as int));
            }
            return None;
        },
    };
    let acts = match follow_chain(&prev_state, &prev_action, state_idx) {
        Some(v) => v,
        None => {
            proof {
                assert(ring_tables(arrangements(upto(8), 8), perm_map@, 1, center_ring_moves(), prev_state@, prev_action@));
                assert(green_center_fails(*actions, perm_map@, cur_state@, sol_state@, dim as int));
            }
            return None;
        },
    };
    let seqs = green_corner_moves(dim, pos);
    let mut state = cur_state.clone();
    let mut moves: Vec<String> = Vec::new();
    proof {
        assert(state@ =~= cur_state@);
        assert(string_views(moves@) =~= Seq::<Seq<char>>::empty());
    }
    if !play_path(actions, &mut state, &mut moves, &seqs, &acts, Ghost(cur_state@)) {
        proof {
            assert(ring_tables(arrangements(upto(8), 8), perm_map@, 1, center_ring_moves(), prev_state@, prev_action@));
            assert(green_center_fails(*actions, perm_map@, cur_state@, sol_state@, dim as int));
        }
        return None;
    }
    proof {
        assert(Seq::<Seq<char>>::empty() + played_moves(seq_views(seqs@), acts@) =~= played_moves(seq_views(seqs@), acts@));
        assert(chain(prev_state@, prev_action@, state_idx as int, prev_state@.len()) == Some(acts@));
    }
    Some((state, moves))
}

/// One corner step on ring `pos` from `state`: like `green_edge_step`,
/// on the corner group of the ring and with the corner sequences.
pub open spec fn green_corner_step(
    t: ActionTable,
    map: Map<u32, usize>,
    ps: Seq<Option<usize>>,
    pa: Seq<Option<usize>>,
    state: Seq<usize>,
    sol: Seq<usize>,
    dim: int,
    pos: int,
) -> Option<Seq<Seq<char>>> {
    match arrangement_place(state, sol, green_corner_cells(dim, pos), map) {
        Some(p) => {
            let r0 = face_rot_spec(state, sol, dim, 2);
            let r1 = rot1_spec(state, sol, dim);
            let seqs = green_corner_sequences(dim, pos);
            if 0 <= r0 < 4 && 0 <= r1 && 16 * p + 4 * r0 + r1 <= usize::MAX {
                match chain(ps, pa, 16 * p + 4 * r0 + r1, ps.len()) {
                    Some(acts) => if acts_in(seqs, acts) && all_known(t, played_moves(seqs, acts)) {
                        Some(played_moves(seqs, acts))
                    } else {
                        None
                    },
                    None => None,
                }
            } else {
                None
            }
        },
        None => None,
    }
}

/// The moves of the corner stage from `state`: the rings `pos` down to 1,
/// each step from the state the ones before leave.
#[verifier::opaque]
pub open spec fn green_corner_stage(
    t: ActionTable,
    map: Map<u32, usize>,
    ps: Seq<Option<usize>>,
    pa: Seq<Option<usize>>,
    state: Seq<usize>,
    sol: Seq<usize>,
    dim: int,
    pos: int,
) -> Option<Seq<Seq<char>>>
    decreases pos,
{
    if pos < 1 {
        Some(Seq::empty())
    } else {
        match green_corner_step(t, map, ps, pa, state, sol, dim, pos) {
            Some(m) => then_moves(m, green_corner_stage(t, map, ps, pa, apply_named(t, state, m), sol, dim, pos - 1)),
            None => None,
        }
    }
}

proof fn lemma_green_corner_stage(
    t: ActionTable,
    map: Map<u32, usize>,
    ps: Seq<Option<usize>>,
    pa: Seq<Option<usize>>,
    s: Seq<usize>,
    sol: Seq<usize>,
    dim: int,
    pos: int,
)
    ensures
        pos < 1 ==> green_corner_stage(t, map, ps, pa, s, sol, dim, pos) == Some(Seq::<Seq<char>>::empty()),
        pos >= 1 ==> green_corner_stage(t, map, ps, pa, s, sol, dim, pos) == match green_corner_step(t, map, ps, pa, s, sol, dim, pos) {
            Some(m) => then_moves(m, green_corner_stage(t, map, ps, pa, apply_named(t, s, m), sol, dim, pos - 1)),
            None => None,
        },
{
    reveal(green_corner_stage);
}

/// Plays one corner step (`green_corner_step`); `false` when it fails.
fn play_corner_step(
    actions: &ActionTable,
    state: &mut Vec<usize>,
    moves: &mut Vec<String>,
    sol_state: &Vec<usize>,
    perm_map: &HashMap<u32, usize>,
    prev_state: &Vec<Option<usize>>,
    prev_action: &Vec<Option<usize>>,
    dim: usize,
    pos: usize,
    Ghost(start): Ghost<Seq<usize>>,
) -> (ok: bool)
    requires
        actions.wf(),
        actions.fits(old(state).len() as nat),
        cube_states(old(state)@, sol_state@, dim as int),
        dim >= 2,
        pos < dim,
        on_track(*actions, start, old(state)@, old(moves)@),
    ensures
        final(state).len() == old(state).len(),
        on_track(*actions, start, final(state)@, final(moves)@),
        ok <==> green_corner_step(*actions, perm_map@, prev_state@, prev_action@, old(state)@, sol_state@, dim as int, pos as int) is Some,
        ok ==> string_views(final(moves)@) == string_views(old(moves)@) + green_corner_step(
            *actions,
            perm_map@,
            prev_state@,
            prev_action@,
            old(state)@,
            sol_state@,
            dim as int,
            pos as int,
        )->0,
        ok ==> final(state)@ == apply_named(
            *actions,
            old(state)@,
            green_corner_step(*actions, perm_map@, prev_state@, prev_action@, old(state)@, sol_state@, dim as int, pos as int)->0,
        ),
{
    let ghost m0 = string_views(moves@);
    let perm_idx = match corner_place(state, sol_state, perm_map, dim, pos) {
        Some(i) => i,
        None => {
            return false;
        },
    };
    let rot0 = calc_rot0(state, sol_state, dim);
    let rot1 = calc_rot1(state, sol_state, dim);
    let state_idx = match ring_index(perm_idx, rot0, rot1) {
        Some(i) => i,
        None => {
            return false;
        },
    };
    let acts = match follow_chain(prev_state, prev_action, state_idx) {
        Some(v) => v,
        None => {
            return false;
        },
    };
    let seqs = green_corner_moves(dim, pos);
    let ok = play_path(actions, state, moves, &seqs, &acts, Ghost(start));
    proof {
        if ok {
            let m = played_moves(seq_views(seqs@), acts@);
            lemma_apply_named_concat(*actions, start, m0, m);
        }
    }
    ok
}

/// The corner stage with the given search tables (`green_corner_stage`
/// from ring `dim / 2 - 2`): gives the state reached and the moves made,
/// which the table knows and which lead from `cur_state` to that state;
/// `None` exactly when the stage fails.
pub fn solve_green_middle_corner_with(
    cur_state: &Vec<usize>,
    sol_state: &Vec<usize>,
    actions: &ActionTable,
    dim: usize,
    perm_map: &HashMap<u32, usize>,
    prev_state: &Vec<Option<usize>>,
    prev_action: &Vec<Option<usize>>,
) -> (r: Option<(Vec<usize>, Vec<String>)>)
    requires
        actions.wf(),
        actions.fits(cur_state.len() as nat),
        cube_states(cur_state@, sol_state@, dim as int),
        dim >= 4,
    ensures
        r is Some <==> green_corner_stage(*actions, perm_map@, prev_state@, prev_action@, cur_state@, sol_state@, dim as int, dim / 2 - 2) is Some,
        r matches Some((state, moves)) ==> on_track(*actions, cur_state@, state@, moves@) && string_views(moves@)
            == green_corner_stage(*actions, perm_map@, prev_state@, prev_action@, cur_state@, sol_state@, dim as int, dim / 2 - 2)->0,
{
    let ghost map = perm_map@;
    let ghost ps = prev_state@;
    let ghost pa = prev_action@;
    let ghost total = green_corner_stage(*actions, map, ps, pa, cur_state@, sol_state@, dim as int, dim / 2 - 2);
    let mut state = cur_state.clone();
    let mut moves: Vec<String> = Vec::new();
    let ghost mut done: Seq<Seq<char>> = Seq::empty();
    proof {
        assert(state@ =~= cur_state@);
        assert(string_views(moves@) =~= Seq::<Seq<char>>::empty());
        match total {
            Some(r) => {
                assert(Seq::<Seq<char>>::empty() + r =~= r);
            },
            None => {},
        }
    }
    let mut pos = dim / 2 - 2;
    while pos >= 1
        invariant
            actions.wf(),
            actions.fits(state.len() as nat),
            state.len() == cur_state.len(),
            cube_states(state@, sol_state@, dim as int),
            dim >= 4,
            pos < dim,
            map == perm_map@,
            ps == prev_state@,
            pa == prev_action@,
            total == green_corner_stage(*actions, map, ps, pa, cur_state@, sol_state@, dim as int, dim / 2 - 2),
            on_track(*actions, cur_state@, state@, moves@),
            string_views(moves@) == done,
            then_moves(done, green_corner_stage(*actions, map, ps, pa, state@, sol_state@, dim as int, pos as int)) == total,
        decreases pos,
    {
        let ghost s0 = state@;
        proof {
            lemma_green_corner_stage(*actions, map, ps, pa, s0, sol_state@, dim as int, pos as int);
        }
        if !play_corner_step(actions, &mut state, &mut moves, sol_state, perm_map, prev_state, prev_action, dim, pos, Ghost(cur_state@)) {
            proof {
                assert(green_corner_stage(*actions, map, ps, pa, s0, sol_state@, dim as int, pos as int) is None);
                assert(total is None);
            }
            return None;
        }
        proof {
            let m = green_corner_step(*actions, map, ps, pa, s0, sol_state@, dim as int, pos as int)->0;
            lemma_then_assoc(done, m, green_corner_stage(*actions, map, ps, pa, state@, sol_state@, dim as int, pos - 1));
            done = done + m;
        }
        pos = pos - 1;
    }
    proof {
        lemma_green_corner_stage(*actions, map, ps, pa, state@, sol_state@, dim as int, pos as int);
        assert(done + Seq::<Seq<char>>::empty() =~= done);
    }
    Some((state, moves))
}

/// The search tables of the corner stage as `bfs1` gives them.
pub open spec fn green_corner_tables(map: Map<u32, usize>, ps: Seq<Option<usize>>, pa: Seq<Option<usize>>) -> bool {
    exists|list: Seq<Seq<usize>>|
        list == arrangements(upto(8), 8) && code_map(list, map) && ring_tables(list, map, 16, corner_ring_moves(), ps, pa)
            && exists|cost: Seq<i32>|
            ring_cheapest(
                list,
                map,
                16,
                corner_ring_moves(),
                start_list(map, corner_ring_moves()[0].0, corner_ring_moves()[2].0, 16, 16),
                pushed_list(map, corner_ring_moves()[0].0, corner_ring_moves()[2].0, 16, 2, 16),
                ps,
                pa,
                cost,
            )
}

/// Why the corner stage can fail with the arrangement map `map`, as
/// `green_edge_fails` says for the edge stage.
pub open spec fn green_corner_fails(t: ActionTable, map: Map<u32, usize>, cur: Seq<usize>, sol: Seq<usize>, dim: int) -> bool {
    let list = arrangements(upto(8), 8);
    ||| list.len() > usize::MAX / 16
    ||| !starts_in_map(map, corner_ring_moves()[0].0, corner_ring_moves()[2].0)
    ||| ring_gap(list, map, 16, corner_ring_moves())
    ||| exists|ps: Seq<Option<usize>>, pa: Seq<Option<usize>>|
        green_corner_tables(map, ps, pa) && #[trigger] green_corner_stage(t, map, ps, pa, cur, sol, dim, dim / 2 - 2) is None
}

/// Solves the inner corner rings of faces 2 and 5 other than the innermost,
/// from the inside out, with the corner search. Gives the state reached and
/// the moves made, which the table knows and which lead from `cur_state` to
/// that state, and which are those of the corner stage
/// (`green_corner_stage`) over the tables the corner search builds; `None`
/// when the search or a lookup fails, a path does not end, or a move is
/// unknown.
pub fn solve_green_middle_corner(
    cur_state: &Vec<usize>,
    sol_state: &Vec<usize>,
    actions: &ActionTable,
    dim: usize,
) -> (r: Option<(Vec<usize>, Vec<String>)>)
    requires
        actions.wf(),
        actions.fits(cur_state.len() as nat),
        cube_states(cur_state@, sol_state@, dim as int),
        dim >= 4,
    ensures
        r matches Some((state, moves)) ==> on_track(*actions, cur_state@, state@, moves@) && exists|
            map: Map<u32, usize>,
            ps: Seq<Option<usize>>,
            pa: Seq<Option<usize>>,
        |
            green_corner_tables(map, ps, pa) && string_views(moves@) == green_corner_stage(
                *actions,
                map,
                ps,
                pa,
                cur_state@,
                sol_state@,
                dim as int,
                dim / 2 - 2,
            )->0,
        r is None ==> exists|map: Map<u32, usize>|
            #[trigger] code_map(arrangements(upto(8), 8), map) && green_corner_fails(*actions, map, cur_state@, sol_state@, dim as int),
{
    let (perm_list, perm_map) = get_perm_map();
    let (prev_state, prev_action) = match bfs1(&perm_list, &perm_map) {
        Some(v) => v,
        None => {
            proof {
                assert(perm_list.len() == index_views(perm_list@).len());
                assert(green_corner_fails(*actions, perm_map@, cur_state@, sol_state@, dim as int));
                assert(code_map(arrangements(upto(8), 8), perm_map@));
            }
            return None;
        },
    };
    let r = solve_green_middle_corner_with(cur_state, sol_state, actions, dim, &perm_map, &prev_state, &prev_action);
    proof {
        assert(green_corner_tables(perm_map@, prev_state@, prev_action@));
        if r is None {
            assert(green_corner_fails(*actions, perm_map@, cur_state@, sol_state@, dim as int));
            assert(code_map(arrangements(upto(8), 8), perm_map@));
        }
    }
    r
}

/// One edge step at row `y`, column `x` from `state`: the arrangement of
/// the edge group is looked up with the two ring turns, its chain is
/// followed in the tables, and the sequences on the way are played
/// (`played_moves`). `None` when a lookup fails, the chain does not end,
/// names a sequence that is not there, or a move is unknown.
pub open spec fn green_edge_step(
    t: ActionTable,
    map: Map<u32, usize>,
    ps: Seq<Option<usize>>,
    pa: Seq<Option<usize>>,
    state: Seq<usize>,
    sol: Seq<usize>,
    dim: int,
    y: int,
    x: int,
) -> Option<Seq<Seq<char>>> {
    match arrangement_place(state, sol, green_edge_cells(dim, y, x), map) {
        Some(p) => {
            let r0 = face_rot_spec(state, sol, dim, 2);
            let r1 = rot1_spec(state, sol, dim);
            let seqs = green_edge_sequences(dim, y, x);
            if 0 <= r0 < 4 && 0 <= r1 && 16 * p + 4 * r0 + r1 <= usize::MAX {
                match chain(ps, pa, 16 * p + 4 * r0 + r1, ps.len()) {
                    Some(acts) => if acts_in(seqs, acts) && all_known(t, played_moves(seqs, acts)) {
                        Some(played_moves(seqs, acts))
                    } else {
                        None
                    },
                    None => None,
                }
            } else {
                None
            }
        },
        None => None,
    }
}

/// The moves of the edge stage from `state`, starting at row `y`, column
/// `x`: row by row, columns `y + 1` to `dim - 2 - y` of the rows `1` to
/// `dim / 2 - 1`, each step from the state the ones before leave.
#[verifier::opaque]
pub open spec fn green_edge_stage(
    t: ActionTable,
    map: Map<u32, usize>,
    ps: Seq<Option<usize>>,
    pa: Seq<Option<usize>>,
    state: Seq<usize>,
    sol: Seq<usize>,
    dim: int,
    y: int,
    x: int,
) -> Option<Seq<Seq<char>>>
    decreases dim - y, dim - x,
{
    if y < 1 || y >= dim / 2 {
        Some(Seq::empty())
    } else if x >= dim - 1 - y {
        green_edge_stage(t, map, ps, pa, state, sol, dim, y + 1, y + 2)
    } else {
        match green_edge_step(t, map, ps, pa, state, sol, dim, y, x) {
            Some(m) => then_moves(m, green_edge_stage(t, map, ps, pa, apply_named(t, state, m), sol, dim, y, x + 1)),
            None => None,
        }
    }
}

proof fn lemma_green_edge_stage(
    t: ActionTable,
    map: Map<u32, usize>,
    ps: Seq<Option<usize>>,
    pa: Seq<Option<usize>>,
    s: Seq<usize>,
    sol: Seq<usize>,
    dim: int,
    y: int,
    x: int,
)
    ensures
        y >= dim / 2 ==> green_edge_stage(t, map, ps, pa, s, sol, dim, y, x) == Some(Seq::<Seq<char>>::empty()),
        1 <= y < dim / 2 && x >= dim - 1 - y ==> green_edge_stage(t, map, ps, pa, s, sol, dim, y, x)
            == green_edge_stage(t, map, ps, pa, s, sol, dim, y + 1, y + 2),
        1 <= y < dim / 2 && x < dim - 1 - y ==> green_edge_stage(t, map, ps, pa, s, sol, dim, y, x) == match green_edge_step(
            t,
            map,
            ps,
            pa,
            s,
            sol,
            dim,
            y,
            x,
        ) {
            Some(m) => then_moves(m, green_edge_stage(t, map, ps, pa, apply_named(t, s, m), sol, dim, y, x + 1)),
            None => None,
        },
{
    reveal(green_edge_stage);
}

proof fn lemma_then_assoc(done: Seq<Seq<char>>, m: Seq<Seq<char>>, rest: Option<Seq<Seq<char>>>)
    ensures
        then_moves(done, then_moves(m, rest)) == then_moves(done + m, rest),
{
    match rest {
        Some(r) => {
            assert(done + (m + r) =~= (done + m) + r);
        },
        None => {},
    }
}

/// Plays one edge step (`green_edge_step`); `false` when it fails.
fn play_edge_step(
    actions: &ActionTable,
    state: &mut Vec<usize>,
    moves: &mut Vec<String>,
    sol_state: &Vec<usize>,
    perm_map: &HashMap<u32, usize>,
    prev_state: &Vec<Option<usize>>,
    prev_action: &Vec<Option<usize>>,
    dim: usize,
    y: usize,
    x: usize,
    Ghost(start): Ghost<Seq<usize>>,
) -> (ok: bool)
    requires
        actions.wf(),
        actions.fits(old(state).len() as nat),
        cube_states(old(state)@, sol_state@, dim as int),
        dim >= 2,
        y < dim,
        x < dim,
        on_track(*actions, start, old(state)@, old(moves)@),
    ensures
        final(state).len() == old(state).len(),
        on_track(*actions, start, final(state)@, final(moves)@),
        ok <==> green_edge_step(
            *actions,
            perm_map@,
            prev_state@,
            prev_action@,
            old(state)@,
            sol_state@,
            dim as int,
            y as int,
            x as int,
        ) is Some,
        ok ==> string_views(final(moves)@) == string_views(old(moves)@) + green_edge_step(
            *actions,
            perm_map@,
            prev_state@,
            prev_action@,
            old(state)@,
            sol_state@,
            dim as int,
            y as int,
            x as int,
        )->0,
        ok ==> final(state)@ == apply_named(
            *actions,
            old(state)@,
            green_edge_step(
                *actions,
                perm_map@,
                prev_state@,
                prev_action@,
                old(state)@,
                sol_state@,
                dim as int,
                y as int,
                x as int,
            )->0,
        ),
{
    let ghost s0 = state@;
    let ghost m0 = string_views(moves@);
    let perm_idx = match edge_place(state, sol_state, perm_map, dim, y, x) {
        Some(i) => i,
        None => {
            return false;
        },
    };
    let rot0 = calc_rot0(state, sol_state, dim);
    let rot1 = calc_rot1(state, sol_state, dim);
    let state_idx = match ring_index(perm_idx, rot0, rot1) {
        Some(i) => i,
        None => {
            return false;
        },
    };
    let acts = match follow_chain(prev_state, prev_action, state_idx) {
        Some(v) => v,
        None => {
            return false;
        },
    };
    let seqs = green_edge_moves(dim, y, x);
    let ok = play_path(actions, state, moves, &seqs, &acts, Ghost(start));
    proof {
        if ok {
            let m = played_moves(seq_views(seqs@), acts@);
            lemma_apply_named_concat(*actions, start, m0, m);
        }
    }
    ok
}

/// The edge stage with the given search tables (`green_edge_stage`): gives
/// the state reached and the moves made, which the table knows and which
/// lead from `cur_state` to that state; `None` exactly when the stage
/// fails.
pub fn solve_green_middle_edge_with(
    cur_state: &Vec<usize>,
    sol_state: &Vec<usize>,
    actions: &ActionTable,
    dim: usize,
    perm_map: &HashMap<u32, usize>,
    prev_state: &Vec<Option<usize>>,
    prev_action: &Vec<Option<usize>>,
) -> (r: Option<(Vec<usize>, Vec<String>)>)
    requires
        actions.wf(),
        actions.fits(cur_state.len() as nat),
        cube_states(cur_state@, sol_state@, dim as int),
        dim >= 2,
    ensures
        r is Some <==> green_edge_stage(
            *actions,
            perm_map@,
            prev_state@,
            prev_action@,
            cur_state@,
            sol_state@,
            dim as int,
            1,
            2,
        ) is Some,
        r matches Some((state, moves)) ==> on_track(*actions, cur_state@, state@, moves@) && string_views(moves@)
            == green_edge_stage(*actions, perm_map@, prev_state@, prev_action@, cur_state@, sol_state@, dim as int, 1, 2)->0,
{
    let ghost map = perm_map@;
    let ghost ps = prev_state@;
    let ghost pa = prev_action@;
    let ghost total = green_edge_stage(*actions, map, ps, pa, cur_state@, sol_state@, dim as int, 1, 2);
    let mut state = cur_state.clone();
    let mut moves: Vec<String> = Vec::new();
    let ghost mut done: Seq<Seq<char>> = Seq::empty();
    proof {
        assert(state@ =~= cur_state@);
        assert(string_views(moves@) =~= Seq::<Seq<char>>::empty());
        match total {
            Some(r) => {
                assert(Seq::<Seq<char>>::empty() + r =~= r);
            },
            None => {},
        }
    }
    let mut y: usize = 1;
    while y < dim / 2
        invariant
            actions.wf(),
            actions.fits(state.len() as nat),
            state.len() == cur_state.len(),
            cube_states(state@, sol_state@, dim as int),
            dim >= 2,
            1 <= y,
            map == perm_map@,
            ps == prev_state@,
            pa == prev_action@,
            total == green_edge_stage(*actions, map, ps, pa, cur_state@, sol_state@, dim as int, 1, 2),
            on_track(*actions, cur_state@, state@, moves@),
            string_views(moves@) == done,
            then_moves(done, green_edge_stage(*actions, map, ps, pa, state@, sol_state@, dim as int, y as int, y + 1)) == total,
        decreases dim - y,
    {
        let mut x = y + 1;
        while x < dim - 1 - y
            invariant
                actions.wf(),
                actions.fits(state.len() as nat),
                state.len() == cur_state.len(),
                cube_states(state@, sol_state@, dim as int),
                dim >= 2,
                1 <= y < dim / 2,
                y < x,
                map == perm_map@,
                ps == prev_state@,
                pa == prev_action@,
                total == green_edge_stage(*actions, map, ps, pa, cur_state@, sol_state@, dim as int, 1, 2),
                on_track(*actions, cur_state@, state@, moves@),
                string_views(moves@) == done,
                then_moves(done, green_edge_stage(*actions, map, ps, pa, state@, sol_state@, dim as int, y as int, x as int)) == total,
            decreases dim - x,
        {
            let ghost s0 = state@;
            proof {
                lemma_green_edge_stage(*actions, map, ps, pa, s0, sol_state@, dim as int, y as int, x as int);
            }
            if !play_edge_step(actions, &mut state, &mut moves, sol_state, perm_map, prev_state, prev_action, dim, y, x, Ghost(cur_state@)) {
                proof {
                    assert(green_edge_step(*actions, map, ps, pa, s0, sol_state@, dim as int, y as int, x as int) is None);
                    assert(green_edge_stage(*actions, map, ps, pa, s0, sol_state@, dim as int, y as int, x as int) is None);
                    assert(total is None);
                }
                return None;
            }
            proof {
                let m = green_edge_step(*actions, map, ps, pa, s0, sol_state@, dim as int, y as int, x as int)->0;
                lemma_then_assoc(done, m, green_edge_stage(*actions, map, ps, pa, state@, sol_state@, dim as int, y as int, x + 1));
                done = done + m;
            }
            x = x + 1;
        }
        proof {
            lemma_green_edge_stage(*actions, map, ps, pa, state@, sol_state@, dim as int, y as int, x as int);
        }
        y = y + 1;
    }
    proof {
        lemma_green_edge_stage(*actions, map, ps, pa, state@, sol_state@, dim as int, y as int, y + 1);
        assert(done + Seq::<Seq<char>>::empty() =~= done);
    }
    Some((state, moves))
}

/// The search tables of the edge stage as `bfs3` gives them: a table of
/// predecessors over the arrangements with their ring turns, on cheapest
/// paths from the solved positions.
pub open spec fn green_edge_tables(map: Map<u32, usize>, ps: Seq<Option<usize>>, pa: Seq<Option<usize>>) -> bool {
    exists|list: Seq<Seq<usize>>|
        list == arrangements(upto(8), 8) && code_map(list, map) && ring_tables(list, map, 16, edge_ring_moves(), ps, pa)
            && exists|cost: Seq<i32>|
            ring_cheapest(
                list,
                map,
                16,
                edge_ring_moves(),
                start_list(map, edge_ring_moves()[0].0, edge_ring_moves()[2].0, 16, 16),
                pushed_list(map, edge_ring_moves()[0].0, edge_ring_moves()[2].0, 16, 2, 16),
                ps,
                pa,
                cost,
            )
}

/// Why the edge stage can fail with the arrangement map `map`: the list
/// of arrangements is too long to index with the ring turns, the search
/// has no start or leaves the map, or the stage fails over search tables
/// built from the map.
pub open spec fn green_edge_fails(t: ActionTable, map: Map<u32, usize>, cur: Seq<usize>, sol: Seq<usize>, dim: int) -> bool {
    let list = arrangements(upto(8), 8);
    ||| list.len() > usize::MAX / 16
    ||| !starts_in_map(map, edge_ring_moves()[0].0, edge_ring_moves()[2].0)
    ||| ring_gap(list, map, 16, edge_ring_moves())
    ||| exists|ps: Seq<Option<usize>>, pa: Seq<Option<usize>>|
        green_edge_tables(map, ps, pa) && #[trigger] green_edge_stage(t, map, ps, pa, cur, sol, dim, 1, 2) is None
}

/// Solves the edge stickers of faces 2 and 5, row by row, with the edge
/// search. Gives the state reached and the moves made, which the table
/// knows and which lead from `cur_state` to that state, and which are those
/// of the edge stage (`green_edge_stage`) over the tables the edge search
/// builds; `None` when the search or a lookup fails, a path does not end,
/// or a move is unknown.
pub fn solve_green_middle_edge(
    cur_state: &Vec<usize>,
    sol_state: &Vec<usize>,
    actions: &ActionTable,
    dim: usize,
) -> (r: Option<(Vec<usize>, Vec<String>)>)
    requires
        actions.wf(),
        actions.fits(cur_state.len() as nat),
        cube_states(cur_state@, sol_state@, dim as int),
        dim >= 2,
    ensures
        r matches Some((state, moves)) ==> on_track(*actions, cur_state@, state@, moves@) && exists|
            map: Map<u32, usize>,
            ps: Seq<Option<usize>>,
            pa: Seq<Option<usize>>,
        |
            green_edge_tables(map, ps, pa) && string_views(moves@) == green_edge_stage(
                *actions,
                map,
                ps,
                pa,
                cur_state@,
                sol_state@,
                dim as int,
                1,
                2,
            )->0,
        r is None ==> exists|map: Map<u32, usize>|
            #[trigger] code_map(arrangements(upto(8), 8), map) && green_edge_fails(*actions, map, cur_state@, sol_state@, dim as int),
{
    let (perm_list, perm_map) = get_perm_map();
    let (prev_state, prev_action) = match bfs3(&perm_list, &perm_map) {
        Some(v) => v,
        None => {
            proof {
                assert(perm_list.len() == index_views(perm_list@).len());
                assert(green_edge_fails(*actions, perm_map@, cur_state@, sol_state@, dim as int));
                assert(code_map(arrangements(upto(8), 8), perm_map@));
            }
            return None;
        },
    };
    let r = solve_green_middle_edge_with(cur_state, sol_state, actions, dim, &perm_map, &prev_state, &prev_action);
    proof {
        assert(green_edge_tables(perm_map@, prev_state@, prev_action@));
        if r is None {
            assert(green_edge_fails(*actions, perm_map@, cur_state@, sol_state@, dim as int));
            assert(code_map(arrangements(upto(8), 8), perm_map@));
        }
    }
    r
}

} // verus!
