//! The edge stage of an N x N x N cube: the stickers of the edges are
//! labelled by the edge slots they belong to, and the positions of those
//! labels are what the edge search moves about.
use vstd::prelude::*;
use crate::cube_index::{cell, cell_index, cube_fits, face_fits, lemma_cube_faces_fit, same_ints};
use crate::moves::{layer_move, turn};
use crate::pieces::string_views;

verus! {

/// The numbers of `v`.
pub open spec fn ints(v: Seq<usize>) -> Seq<int> {
    v.map_values(|x: usize| x as int)
}

/// A sticker next to an edge of face `f`: `kind` 0 is the top row at
/// column `v`, 1 the left column at row `v`, 2 the right column at row
/// `v`, 3 the bottom row at column `v`.
pub open spec fn strip_cell(dim: int, f: int, kind: int, v: int) -> int {
    if kind == 0 {
        cell_index(dim, f, 0, v)
    } else if kind == 1 {
        cell_index(dim, f, v, 0)
    } else if kind == 2 {
        cell_index(dim, f, v, dim - 1)
    } else {
        cell_index(dim, f, dim - 1, v)
    }
}

/// The stickers of the strip `kind` of face `f` at the offsets `xs`.
pub open spec fn strip_cells(dim: int, f: int, kind: int, xs: Seq<int>) -> Seq<int> {
    xs.map_values(|v: int| strip_cell(dim, f, kind, v))
}

/// The stickers at the offsets `xs` along the four edges of face `f`: top
/// row, left column, right column, bottom row.
pub open spec fn edge_strip_cells(dim: int, f: int, xs: Seq<int>) -> Seq<int> {
    strip_cells(dim, f, 0, xs) + strip_cells(dim, f, 1, xs) + strip_cells(dim, f, 2, xs)
        + strip_cells(dim, f, 3, xs)
}

/// `edge_strip_cells` of the faces `0` to `n - 1`, face by face.
pub open spec fn edge_strip_targets(dim: int, xs: Seq<int>, n: int) -> Seq<int>
    decreases n,
{
    if n <= 0 {
        Seq::empty()
    } else {
        edge_strip_targets(dim, xs, n - 1) + edge_strip_cells(dim, n - 1, xs)
    }
}

/// The offsets of the edge wing at distance `pos`, the middle, and the
/// opposite wing.
pub open spec fn wing_offsets(dim: int, pos: int) -> Seq<int> {
    seq![pos, dim / 2, dim - 1 - pos]
}

/// The offsets of the two middle wings of an even cube.
pub open spec fn middle_wing_offsets(dim: int) -> Seq<int> {
    seq![dim / 2 - 1, dim - 1 - (dim / 2 - 1)]
}

fn push_strip(res: &mut Vec<usize>, dim: usize, f: usize, kind: usize, xs: &Vec<usize>, Ghost(w): Ghost<Seq<int>>)
    requires
        face_fits(dim as int, f as int),
        kind < 4,
        forall|k: int| 0 <= k < xs.len() ==> #[trigger] xs@[k] < dim,
        same_ints(old(res)@, w),
    ensures
        same_ints(final(res)@, w + strip_cells(dim as int, f as int, kind as int, ints(xs@))),
{
    let ghost start = res@;
    let mut k: usize = 0;
    while k < xs.len()
        invariant
            face_fits(dim as int, f as int),
            kind < 4,
            forall|j: int| 0 <= j < xs.len() ==> #[trigger] xs@[j] < dim,
            k <= xs.len(),
            same_ints(start, w),
            same_ints(res@, w + strip_cells(dim as int, f as int, kind as int, ints(xs@.take(k as int)))),
        decreases xs.len() - k,
    {
        let v = xs[k];
        assert(xs@[k as int] < dim);
        let c = if kind == 0 {
            cell(dim, f, 0, v)
        } else if kind == 1 {
            cell(dim, f, v, 0)
        } else if kind == 2 {
            cell(dim, f, v, dim - 1)
        } else {
            cell(dim, f, dim - 1, v)
        };
        let ghost before = res@;
        res.push(c);
        proof {
            let t = xs@.take(k + 1);
            assert(ints(t) =~= ints(xs@.take(k as int)).push(v as int));
            let ww = w + strip_cells(dim as int, f as int, kind as int, ints(t));
            let wo = w + strip_cells(dim as int, f as int, kind as int, ints(xs@.take(k as int)));
            assert(ww =~= wo.push(strip_cell(dim as int, f as int, kind as int, v as int)));
            assert forall|j: int| 0 <= j < res@.len() implies #[trigger] res@[j] as int == ww[j] by {
                if j < before.len() {
                    assert(res@[j] == before[j]);
                }
            }
        }
        k = k + 1;
    }
    assert(xs@.take(xs.len() as int) =~= xs@);
}

fn push_edge_strips(res: &mut Vec<usize>, dim: usize, f: usize, xs: &Vec<usize>, Ghost(w): Ghost<Seq<int>>)
    requires
        face_fits(dim as int, f as int),
        forall|k: int| 0 <= k < xs.len() ==> #[trigger] xs@[k] < dim,
        same_ints(old(res)@, w),
    ensures
        same_ints(final(res)@, w + edge_strip_cells(dim as int, f as int, ints(xs@))),
{
    let ghost xi = ints(xs@);
    let ghost d = dim as int;
    let ghost fi = f as int;
    push_strip(res, dim, f, 0, xs, Ghost(w));
    push_strip(res, dim, f, 1, xs, Ghost(w + strip_cells(d, fi, 0, xi)));
    push_strip(res, dim, f, 2, xs, Ghost(w + strip_cells(d, fi, 0, xi) + strip_cells(d, fi, 1, xi)));
    push_strip(
        res,
        dim,
        f,
        3,
        xs,
        Ghost(w + strip_cells(d, fi, 0, xi) + strip_cells(d, fi, 1, xi) + strip_cells(d, fi, 2, xi)),
    );
    assert(w + strip_cells(d, fi, 0, xi) + strip_cells(d, fi, 1, xi) + strip_cells(d, fi, 2, xi)
        + strip_cells(d, fi, 3, xi) =~= w + edge_strip_cells(d, fi, xi));
}

fn edge_strips_all_faces(dim: usize, xs: &Vec<usize>) -> (r: Vec<usize>)
    requires
        cube_fits(dim as int),
        forall|k: int| 0 <= k < xs.len() ==> #[trigger] xs@[k] < dim,
    ensures
        same_ints(r@, edge_strip_targets(dim as int, ints(xs@), 6)),
{
    proof {
        lemma_cube_faces_fit(dim as int);
    }
    let mut res: Vec<usize> = Vec::new();
    let mut i: usize = 0;
    while i < 6
        invariant
            i <= 6,
            forall|f: int| 0 <= f < 6 ==> #[trigger] face_fits(dim as int, f),
            forall|k: int| 0 <= k < xs.len() ==> #[trigger] xs@[k] < dim,
            same_ints(res@, edge_strip_targets(dim as int, ints(xs@), i as int)),
        decreases 6 - i,
    {
        assert(face_fits(dim as int, i as int));
        push_edge_strips(&mut res, dim, i, xs, Ghost(edge_strip_targets(dim as int, ints(xs@), i as int)));
        i = i + 1;
    }
    res
}

/// The edge stickers of the wing at distance `pos` from the corners, of
/// the middle and of the opposite wing, on all six faces
/// (`edge_strip_targets` of `wing_offsets`).
pub fn target_idx_cube_edge(dim: usize, pos: usize) -> (r: Vec<usize>)
    requires
        cube_fits(dim as int),
        pos < dim,
    ensures
        same_ints(r@, edge_strip_targets(dim as int, wing_offsets(dim as int, pos as int), 6)),
{
    let rev_pos = dim - 1 - pos;
    let half = dim / 2;
    let xs: Vec<usize> = vec![pos, half, rev_pos];
    assert(ints(xs@) =~= wing_offsets(dim as int, pos as int));
    edge_strips_all_faces(dim, &xs)
}

/// The edge stickers of the two middle wings of an even cube, on all six
/// faces (`edge_strip_targets` of `middle_wing_offsets`).
pub fn target_idx_cube_edge_first_even(dim: usize) -> (r: Vec<usize>)
    requires
        cube_fits(dim as int),
        dim >= 2,
    ensures
        same_ints(r@, edge_strip_targets(dim as int, middle_wing_offsets(dim as int), 6)),
{
    let pos = dim / 2 - 1;
    let rev_pos = dim - 1 - pos;
    let xs: Vec<usize> = vec![pos, rev_pos];
    assert(ints(xs@) =~= middle_wing_offsets(dim as int));
    edge_strips_all_faces(dim, &xs)
}


/// The last position `i < n` of `target` whose solved sticker is `v`.
pub open spec fn last_label(sol: Seq<usize>, target: Seq<usize>, v: usize, n: int) -> Option<int>
    decreases n,
{
    if n <= 0 {
        None
    } else if sol[target[n - 1] as int] == v {
        Some(n - 1)
    } else {
        last_label(sol, target, v, n - 1)
    }
}

/// The label of the sticker at `t`: the last target position whose solved
/// sticker the state holds at `t`; when there is none, that of the sticker
/// one row up (on the left or right column) or one column left (elsewhere).
pub open spec fn sticker_label(cur: Seq<usize>, sol: Seq<usize>, target: Seq<usize>, dim: int, t: int) -> Option<int> {
    match last_label(sol, target, cur[t], target.len() as int) {
        Some(i) => Some(i),
        None => {
            let u = if t % dim == 0 || t % dim == dim - 1 {
                t - dim
            } else {
                t - 1
            };
            if 0 <= u < cur.len() {
                last_label(sol, target, cur[u], target.len() as int)
            } else {
                None
            }
        },
    }
}

/// Every target sticker has a label.
pub open spec fn all_labelled(cur: Seq<usize>, sol: Seq<usize>, target: Seq<usize>, dim: int) -> bool {
    forall|k: int| 0 <= k < target.len() ==> (#[trigger] sticker_label(cur, sol, target, dim, target[k] as int)) is Some
}

proof fn lemma_last_label_range(sol: Seq<usize>, target: Seq<usize>, v: usize, n: int)
    ensures
        last_label(sol, target, v, n) matches Some(i) ==> 0 <= i < n,
    decreases n,
{
    if n > 0 {
        lemma_last_label_range(sol, target, v, n - 1);
    }
}

fn find_label(sol: &Vec<usize>, target: &Vec<usize>, v: usize) -> (r: Option<usize>)
    requires
        forall|k: int| 0 <= k < target.len() ==> #[trigger] target@[k] < sol.len(),
    ensures
        match r {
            Some(i) => last_label(sol@, target@, v, target.len() as int) == Some(i as int),
            None => last_label(sol@, target@, v, target.len() as int) is None,
        },
{
    let mut n: usize = target.len();
    while n > 0
        invariant
            n <= target.len(),
            forall|k: int| 0 <= k < target.len() ==> #[trigger] target@[k] < sol.len(),
            last_label(sol@, target@, v, target.len() as int) == last_label(sol@, target@, v, n as int),
        decreases n,
    {
        assert(target@[n - 1] < sol.len());
        if sol[target[n - 1]] == v {
            return Some(n - 1);
        }
        n = n - 1;
    }
    None
}

/// The labels of the target stickers (`sticker_label`), in target order;
/// `None` when one of them has no label.
pub fn cube_edge_to_perm(cur_state: &Vec<usize>, sol_state: &Vec<usize>, target_idx: &Vec<usize>, dim: usize) -> (r: Option<Vec<u8>>)
    requires
        dim >= 1,
        target_idx.len() <= 256,
        cur_state.len() == sol_state.len(),
        forall|k: int| 0 <= k < target_idx.len() ==> #[trigger] target_idx@[k] < sol_state.len(),
    ensures
        r is Some <==> all_labelled(cur_state@, sol_state@, target_idx@, dim as int),
        r matches Some(p) ==> p.len() == target_idx.len() && forall|k: int| 0 <= k < p.len() ==>
            #[trigger] p@[k] as int == sticker_label(cur_state@, sol_state@, target_idx@, dim as int, target_idx@[k] as int)->0,
{
    let ghost cur = cur_state@;
    let ghost sol = sol_state@;
    let ghost tg = target_idx@;
    let mut res: Vec<u8> = Vec::new();
    let mut k: usize = 0;
    while k < target_idx.len()
        invariant
            dim >= 1,
            target_idx.len() <= 256,
            cur_state.len() == sol_state.len(),
            cur == cur_state@,
            sol == sol_state@,
            tg == target_idx@,
            forall|j: int| 0 <= j < target_idx.len() ==> #[trigger] target_idx@[j] < sol_state.len(),
            k <= target_idx.len(),
            res.len() == k,
            forall|j: int| 0 <= j < k ==> (#[trigger] sticker_label(cur, sol, tg, dim as int, tg[j] as int)) is Some,
            forall|j: int| 0 <= j < k ==> #[trigger] res@[j] as int == sticker_label(cur, sol, tg, dim as int, tg[j] as int)->0,
        decreases target_idx.len() - k,
    {
        let t = target_idx[k];
        assert(tg[k as int] < sol.len());
        let first = find_label(sol_state, target_idx, cur_state[t]);
        let label = match first {
            Some(i) => Some(i),
            None => {
                let u_ok = if t % dim == 0 || t % dim == dim - 1 {
                    t >= dim
                } else {
                    t >= 1
                };
                if u_ok {
                    let u = if t % dim == 0 || t % dim == dim - 1 {
                        t - dim
                    } else {
                        t - 1
                    };
                    find_label(sol_state, target_idx, cur_state[u])
                } else {
                    None
                }
            },
        };
        match label {
            Some(i) => {
                proof {
                    lemma_last_label_range(sol, tg, cur[t as int], tg.len() as int);
                    if first is None {
                        let u = if t % dim == 0 || t % dim == dim - 1 { t - dim } else { t - 1 };
                        lemma_last_label_range(sol, tg, cur[u as int], tg.len() as int);
                    }
                }
                res.push(i as u8);
            },
            None => {
                assert(sticker_label(cur, sol, tg, dim as int, tg[k as int] as int) is None);
                return None;
            },
        }
        k = k + 1;
    }
    Some(res)
}


/// The table entry of the `i`-th triple of labels of `p`.
pub open spec fn triple_entry(p: Seq<u8>, t: Seq<Vec<Vec<i32>>>, i: int) -> int {
    t[p[3 * i] as int]@[p[3 * i + 1] as int]@[p[3 * i + 2] as int] as int
}

/// The sum of the table entries of the first `n` triples of `p`.
pub open spec fn triple_sum(p: Seq<u8>, t: Seq<Vec<Vec<i32>>>, n: int) -> int
    decreases n,
{
    if n <= 0 {
        0
    } else {
        triple_sum(p, t, n - 1) + triple_entry(p, t, n - 1)
    }
}

/// Every triple of `p` indexes the table at a known, non-negative distance.
pub open spec fn triples_known(p: Seq<u8>, t: Seq<Vec<Vec<i32>>>) -> bool {
    forall|i: int| 0 <= i < p.len() / 3 ==> {
        &&& (p[3 * i] as int) < t.len()
        &&& (p[3 * i + 1] as int) < (#[trigger] t[p[3 * i] as int])@.len()
        &&& (p[3 * i + 2] as int) < t[p[3 * i] as int]@[p[3 * i + 1] as int]@.len()
        &&& 0 <= triple_entry(p, t, i) < i32::MAX
    }
}

proof fn lemma_triple_sum_grows(p: Seq<u8>, t: Seq<Vec<Vec<i32>>>, m: int, n: int)
    requires
        triples_known(p, t),
        0 <= m <= n <= p.len() / 3,
    ensures
        0 <= triple_sum(p, t, m) <= triple_sum(p, t, n),
    decreases n,
{
    if n > 0 {
        if m < n {
            lemma_triple_sum_grows(p, t, m, n - 1);
        } else {
            lemma_triple_sum_grows(p, t, n - 1, n - 1);
        }
        assert(0 <= triple_entry(p, t, n - 1));
    }
}

/// Half the sum of the table distances of the label triples of
/// `cur_perm`: a lower bound on the moves left, each move shifting two
/// triples.
pub fn calc_heuristic_cube_edge(cur_perm: &Vec<u8>, heuristic_table: &Vec<Vec<Vec<i32>>>) -> (r: i32)
    requires
        triples_known(cur_perm@, heuristic_table@),
        triple_sum(cur_perm@, heuristic_table@, (cur_perm.len() / 3) as int) <= i32::MAX,
    ensures
        r == triple_sum(cur_perm@, heuristic_table@, (cur_perm.len() / 3) as int) / 2,
{
    let ghost p = cur_perm@;
    let ghost t = heuristic_table@;
    let n = cur_perm.len() / 3;
    let mut res: i32 = 0;
    let mut i: usize = 0;
    while i < n
        invariant
            p == cur_perm@,
            t == heuristic_table@,
            n == cur_perm.len() / 3,
            i <= n,
            triples_known(p, t),
            triple_sum(p, t, n as int) <= i32::MAX,
            res == triple_sum(p, t, i as int),
        decreases n - i,
    {
        proof {
            lemma_triple_sum_grows(p, t, i + 1, n as int);
        }
        let p0 = cur_perm[3 * i] as usize;
        let p1 = cur_perm[3 * i + 1] as usize;
        let p2 = cur_perm[3 * i + 2] as usize;
        assert(0 <= triple_entry(p, t, i as int));
        res = res + heuristic_table[p0][p1][p2];
        i = i + 1;
    }
    proof {
        lemma_triple_sum_grows(p, t, 0, n as int);
    }
    res / 2
}

/// The table entry of the `i`-th pair of labels of `p`.
pub open spec fn pair_entry(p: Seq<u8>, t: Seq<Vec<i32>>, i: int) -> int {
    t[p[2 * i] as int]@[p[2 * i + 1] as int] as int
}

/// The sum of the table entries of the first `n` pairs of `p`.
pub open spec fn pair_sum(p: Seq<u8>, t: Seq<Vec<i32>>, n: int) -> int
    decreases n,
{
    if n <= 0 {
        0
    } else {
        pair_sum(p, t, n - 1) + pair_entry(p, t, n - 1)
    }
}

/// Every pair of `p` indexes the table at a known, non-negative distance.
pub open spec fn pairs_known(p: Seq<u8>, t: Seq<Vec<i32>>) -> bool {
    forall|i: int| 0 <= i < p.len() / 2 ==> {
        &&& (p[2 * i] as int) < t.len()
        &&& (p[2 * i + 1] as int) < (#[trigger] t[p[2 * i] as int])@.len()
        &&& 0 <= pair_entry(p, t, i) < i32::MAX
    }
}

proof fn lemma_pair_sum_grows(p: Seq<u8>, t: Seq<Vec<i32>>, m: int, n: int)
    requires
        pairs_known(p, t),
        0 <= m <= n <= p.len() / 2,
    ensures
        0 <= pair_sum(p, t, m) <= pair_sum(p, t, n),
    decreases n,
{
    if n > 0 {
        if m < n {
            lemma_pair_sum_grows(p, t, m, n - 1);
        } else {
            lemma_pair_sum_grows(p, t, n - 1, n - 1);
        }
        assert(0 <= pair_entry(p, t, n - 1));
    }
}

/// Half the sum of the table distances of the label pairs of `cur_perm`.
pub fn calc_heuristic_cube_edge_first_even(cur_perm: &Vec<u8>, heuristic_table: &Vec<Vec<i32>>) -> (r: i32)
    requires
        pairs_known(cur_perm@, heuristic_table@),
        pair_sum(cur_perm@, heuristic_table@, (cur_perm.len() / 2) as int) <= i32::MAX,
    ensures
        r == pair_sum(cur_perm@, heuristic_table@, (cur_perm.len() / 2) as int) / 2,
{
    let ghost p = cur_perm@;
    let ghost t = heuristic_table@;
    let n = cur_perm.len() / 2;
    let mut res: i32 = 0;
    let mut i: usize = 0;
    while i < n
        invariant
            p == cur_perm@,
            t == heuristic_table@,
            n == cur_perm.len() / 2,
            i <= n,
            pairs_known(p, t),
            pair_sum(p, t, n as int) <= i32::MAX,
            res == pair_sum(p, t, i as int),
        decreases n - i,
    {
        proof {
            lemma_pair_sum_grows(p, t, i + 1, n as int);
        }
        let p0 = cur_perm[2 * i] as usize;
        let p1 = cur_perm[2 * i + 1] as usize;
        assert(0 <= pair_entry(p, t, i as int));
        res = res + heuristic_table[p0][p1];
        i = i + 1;
    }
    proof {
        lemma_pair_sum_grows(p, t, 0, n as int);
    }
    res / 2
}


/// The turns `[-]side<i>` of the layers `rows`, in order.
pub open spec fn row_turns(rows: Seq<usize>, neg: bool, side: char) -> Seq<Seq<char>> {
    rows.map_values(|i: usize| layer_move(neg, side, i as nat))
}

/// The sequence that fixes the parity of the wings of the layers `rows`:
/// the rows turned by `r`, the outer `f` layers turned, four rounds of the
/// rows turned back by `-d` and a half turn of `r0`, the rows by `-d` once
/// more, the outer `f` layers turned back, and the rows turned back by `-r`.
pub open spec fn parity_fix_moves(rows: Seq<usize>, dim: int) -> Seq<Seq<char>> {
    let d = row_turns(rows, true, 'd');
    let r0 = layer_move(false, 'r', 0);
    let round = d + seq![r0, r0];
    row_turns(rows, false, 'r') + seq![layer_move(false, 'f', 0), layer_move(false, 'f', (dim - 1) as nat)]
        + round + round + round + round + d + seq![layer_move(true, 'f', 0), layer_move(true, 'f', (dim - 1) as nat)]
        + row_turns(rows, true, 'r')
}

fn push_row_turns(out: &mut Vec<String>, rows: &Vec<usize>, neg: bool, side: char)
    ensures
        string_views(final(out)@) == string_views(old(out)@) + row_turns(rows@, neg, side),
{
    let ghost start = string_views(out@);
    let mut k: usize = 0;
    while k < rows.len()
        invariant
            k <= rows.len(),
            string_views(out@) == start + row_turns(rows@.take(k as int), neg, side),
        decreases rows.len() - k,
    {
        let t = turn(neg, side, rows[k]);
        let ghost before = out@;
        out.push(t);
        proof {
            assert(string_views(out@) =~= string_views(before).push(t@));
            assert(row_turns(rows@.take(k + 1), neg, side) =~= row_turns(rows@.take(k as int), neg, side).push(
                layer_move(neg, side, rows@[k as int] as nat),
            ));
            assert(string_views(out@) =~= start + row_turns(rows@.take(k + 1), neg, side));
        }
        k = k + 1;
    }
    assert(rows@.take(rows.len() as int) =~= rows@);
}

fn push_turn(out: &mut Vec<String>, neg: bool, side: char, i: usize)
    ensures
        string_views(final(out)@) == string_views(old(out)@).push(layer_move(neg, side, i as nat)),
{
    let t = turn(neg, side, i);
    let ghost before = out@;
    out.push(t);
    assert(string_views(out@) =~= string_views(before).push(t@));
}

/// The moves that fix the parity of the wings of the layers `invalid_row`
/// (`parity_fix_moves`).
pub fn sequence_to_resolve_parity(invalid_row: &Vec<usize>, dim: usize) -> (r: Vec<String>)
    requires
        dim >= 1,
    ensures
        string_views(r@) == parity_fix_moves(invalid_row@, dim as int),
{
    let ghost rows = invalid_row@;
    let ghost d = row_turns(rows, true, 'd');
    let ghost r0 = layer_move(false, 'r', 0);
    let ghost round = d + seq![r0, r0];
    let mut out: Vec<String> = Vec::new();
    assert(string_views(out@) =~= Seq::<Seq<char>>::empty());
    push_row_turns(&mut out, invalid_row, false, 'r');
    push_turn(&mut out, false, 'f', 0);
    push_turn(&mut out, false, 'f', dim - 1);
    let ghost head = string_views(out@);
    let mut k: usize = 0;
    while k < 4
        invariant
            k <= 4,
            rows == invalid_row@,
            d == row_turns(rows, true, 'd'),
            r0 == layer_move(false, 'r', 0),
            round == d + seq![r0, r0],
            string_views(out@) == head + (if k == 0 {
                Seq::empty()
            } else if k == 1 {
                round
            } else if k == 2 {
                round + round
            } else if k == 3 {
                round + round + round
            } else {
                round + round + round + round
            }),
        decreases 4 - k,
    {
        let ghost before = string_views(out@);
        push_row_turns(&mut out, invalid_row, true, 'd');
        push_turn(&mut out, false, 'r', 0);
        push_turn(&mut out, false, 'r', 0);
        proof {
            assert(string_views(out@) =~= before + round);
            if k == 0 {
                assert(string_views(out@) =~= head + round);
            } else if k == 1 {
                assert(string_views(out@) =~= head + (round + round));
            } else if k == 2 {
                assert(string_views(out@) =~= head + (round + round + round));
            } else {
                assert(string_views(out@) =~= head + (round + round + round + round));
            }
        }
        k = k + 1;
    }
    push_row_turns(&mut out, invalid_row, true, 'd');
    push_turn(&mut out, true, 'f', 0);
    push_turn(&mut out, true, 'f', dim - 1);
    push_row_turns(&mut out, invalid_row, true, 'r');
    assert(string_views(out@) =~= parity_fix_moves(invalid_row@, dim as int));
    out
}

} // verus!
