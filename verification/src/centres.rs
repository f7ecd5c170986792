//! The centre pieces of an odd cube with distinct pieces: how far each has
//! been turned by a solution, and the turns of the middle slices that put
//! the centres and the parity of the edge orbits right before the faces are
//! solved.
use vstd::prelude::*;
use crate::cube_index::{cell, cell_index, edge_targets, four_faces, lemma_cube_faces_fit, lemma_edge_targets_bound, same_ints, target_idx_four_edge};
use crate::four_solve::{cube_states, on_track};
use crate::green_solve::last_place;
use crate::moves::{layer_move, turn};
use crate::perm::{all_known, apply_named, apply_named_move, apply_pairs, lemma_apply_pairs_values, values_below, ActionTable};
use crate::pieces::string_views;

verus! {

/// The turns of an outer layer that turn a face's centre piece: the move,
/// the face whose centre sticker is looked at, and the quarter turns (1 or 3)
/// it adds to the piece found there.
pub open spec fn centre_rules(dim: nat) -> Seq<(Seq<char>, int, int)> {
    let top = (dim - 1) as nat;
    seq![
        (layer_move(false, 'f', 0), 1, 1),
        (layer_move(true, 'f', 0), 1, 3),
        (layer_move(false, 'f', top), 3, 3),
        (layer_move(true, 'f', top), 3, 1),
        (layer_move(false, 'd', 0), 0, 1),
        (layer_move(true, 'd', 0), 0, 3),
        (layer_move(false, 'd', top), 5, 3),
        (layer_move(true, 'd', top), 5, 1),
        (layer_move(false, 'r', 0), 2, 1),
        (layer_move(true, 'r', 0), 2, 3),
        (layer_move(false, 'r', top), 4, 3),
        (layer_move(true, 'r', top), 4, 1),
    ]
}

/// The face whose piece sits at the centre of face `f`.
pub open spec fn centre_owner(state: Seq<usize>, dim: nat, f: int) -> int {
    state[f * (dim * dim) + (dim * dim) / 2] as int / (dim * dim) as int
}

/// `counts` after each rule of `rules` that names the move `m` adds its
/// quarter turns to the owner of its face's centre.
pub open spec fn credit_rules(
    counts: Seq<int>,
    state: Seq<usize>,
    m: Seq<char>,
    dim: nat,
    rules: Seq<(Seq<char>, int, int)>,
) -> Seq<int>
    decreases rules.len(),
{
    if rules.len() == 0 {
        counts
    } else {
        let c = credit_rules(counts, state, m, dim, rules.drop_last());
        let r = rules.last();
        if m == r.0 {
            let k = centre_owner(state, dim, r.1);
            c.update(k, c[k] + r.2)
        } else {
            c
        }
    }
}

/// The quarter turns of each face's centre piece over the moves `moves`,
/// each move counted in the state it is made from.
pub open spec fn centre_rots(t: ActionTable, cur: Seq<usize>, moves: Seq<Seq<char>>, dim: nat) -> Seq<int>
    decreases moves.len(),
{
    if moves.len() == 0 {
        seq![0int, 0, 0, 0, 0, 0]
    } else {
        credit_rules(
            centre_rots(t, cur, moves.drop_last(), dim),
            apply_named(t, cur, moves.drop_last()),
            moves.last(),
            dim,
            centre_rules(dim),
        )
    }
}

/// `v` holds the numbers `w`.
pub open spec fn counts_of(v: Seq<usize>, w: Seq<int>) -> bool {
    v.len() == w.len() && forall|k: int| 0 <= k < v.len() ==> #[trigger] v[k] as int == w[k]
}

/// Each of six counts is at most `bound`.
spec fn counts_within(w: Seq<int>, bound: int) -> bool {
    w.len() == 6 && forall|k: int| 0 <= k < 6 ==> 0 <= #[trigger] w[k] <= bound
}

proof fn lemma_credit_within(counts: Seq<int>, state: Seq<usize>, m: Seq<char>, dim: nat, rules: Seq<(Seq<char>, int, int)>, bound: int)
    requires
        counts_within(counts, bound),
        dim >= 1,
        forall|j: int| 0 <= j < rules.len() ==> 0 <= #[trigger] rules[j].1 < 6 && 0 <= rules[j].2 <= 3,
        forall|j: int| 0 <= j < rules.len() ==> 0 <= centre_owner(state, dim, #[trigger] rules[j].1) < 6,
    ensures
        counts_within(credit_rules(counts, state, m, dim, rules), bound + 3 * rules.len()),
    decreases rules.len(),
{
    if rules.len() > 0 {
        let l = rules.len() - 1;
        assert forall|j: int| 0 <= j < rules.drop_last().len() implies 0 <= #[trigger] rules.drop_last()[j].1 < 6 && 0 <= rules.drop_last()[j].2 <= 3 by {
            assert(rules.drop_last()[j] == rules[j]);
        }
        assert forall|j: int| 0 <= j < rules.drop_last().len() implies 0 <= centre_owner(state, dim, #[trigger] rules.drop_last()[j].1) < 6 by {
            assert(rules.drop_last()[j] == rules[j]);
        }
        lemma_credit_within(counts, state, m, dim, rules.drop_last(), bound);
        assert(0 <= rules[l].1 < 6 && 0 <= rules[l].2 <= 3);
        assert(0 <= centre_owner(state, dim, rules[l].1) < 6);
    }
}

/// How many quarter turns each face's centre piece has made over the moves
/// `moves` from `cur_state` (all six zero on an even cube, which has no
/// fixed centres). Moves of an outer layer count for the piece at that
/// face's centre: one for a clockwise turn of faces 0, 1 and 2 and for a
/// counter-clockwise turn of the opposite faces, three otherwise.
pub fn count_center_cube_rot(
    cur_state: &Vec<usize>,
    moves: &Vec<String>,
    actions: &ActionTable,
    dim: usize,
) -> (r: Vec<usize>)
    requires
        actions.wf(),
        actions.fits(cur_state.len() as nat),
        dim >= 1,
        cur_state.len() == 6 * dim * dim,
        values_below(cur_state@, (6 * dim * dim) as nat),
        all_known(*actions, string_views(moves@)),
        moves.len() <= usize::MAX / 40,
    ensures
        dim % 2 == 0 ==> r@ == seq![0usize, 0, 0, 0, 0, 0],
        dim % 2 == 1 ==> counts_of(r@, centre_rots(*actions, cur_state@, string_views(moves@), dim as nat)),
{
    let mut res: Vec<usize> = vec![0, 0, 0, 0, 0, 0];
    assert(res@ =~= seq![0usize, 0, 0, 0, 0, 0]);
    if dim % 2 == 0 {
        return res;
    }
    proof {
        assert(dim * dim <= 6 * dim * dim) by (nonlinear_arith);
        assert(6 * dim * dim == 6 * (dim * dim)) by (nonlinear_arith);
        lemma_rules_shape(dim as nat);
    }
    let dd = dim * dim;
    let names = centre_rule_texts(dim);
    let ghost t = *actions;
    let ghost mv = string_views(moves@);
    let mut state = cur_state.clone();
    assert(state@ =~= cur_state@);
    assert(mv.take(0) =~= Seq::<Seq<char>>::empty());
    let mut i: usize = 0;
    while i < moves.len()
        invariant
            i <= moves.len(),
            actions.wf(),
            t == *actions,
            mv == string_views(moves@),
            actions.fits(cur_state.len() as nat),
            dim >= 1,
            dd == dim * dim,
            cur_state.len() == 6 * dd,
            state.len() == 6 * dd,
            values_below(state@, (6 * dd) as nat),
            all_known(t, mv),
            moves.len() <= usize::MAX / 40,
            rule_texts(names@, dim as nat),
            state@ == apply_named(t, cur_state@, mv.take(i as int)),
            counts_of(res@, centre_rots(t, cur_state@, mv.take(i as int), dim as nat)),
            counts_within(centre_rots(t, cur_state@, mv.take(i as int), dim as nat), 36 * i),
        decreases moves.len() - i,
    {
        let m = &moves[i];
        assert(mv.take(i + 1).drop_last() =~= mv.take(i as int));
        assert(mv.take(i + 1).last() == m@);
        let ghost before = centre_rots(t, cur_state@, mv.take(i as int), dim as nat);
        proof {
            lemma_rules_shape(dim as nat);
            assert forall|j: int| 0 <= j < 12 implies 0 <= centre_owner(state@, dim as nat, #[trigger] centre_rules(dim as nat)[j].1) < 6 by {
                lemma_owner_below(state@, dim as nat, centre_rules(dim as nat)[j].1);
            }
            lemma_credit_within(before, state@, m@, dim as nat, centre_rules(dim as nat), 36 * i);
        }
        let mut k: usize = 0;
        while k < 12
            invariant
                k <= 12,
                dim >= 1,
                dd == dim * dim,
                state.len() == 6 * dd,
                values_below(state@, (6 * dd) as nat),
                rule_texts(names@, dim as nat),
                i < moves.len() <= usize::MAX / 40,
                counts_within(before, 36 * i),
                forall|j: int| 0 <= j < 12 ==> 0 <= #[trigger] centre_rules(dim as nat)[j].1 < 6 && 0 <= centre_rules(dim as nat)[j].2 <= 3,
                forall|j: int| 0 <= j < 12 ==> 0 <= centre_owner(state@, dim as nat, #[trigger] centre_rules(dim as nat)[j].1) < 6,
                counts_of(res@, credit_rules(before, state@, m@, dim as nat, centre_rules(dim as nat).take(k as int))),
                counts_within(credit_rules(before, state@, m@, dim as nat, centre_rules(dim as nat).take(k as int)), 36 * i + 3 * k),
            decreases 12 - k,
        {
            let ghost rules = centre_rules(dim as nat);
            assert(rules.take(k + 1).drop_last() =~= rules.take(k as int));
            assert(rules.take(k + 1).last() == rules[k as int]);
            assert(names@[k as int].0@ == rules[k as int].0);
            if *m == names[k].0 {
                let f = names[k].1;
                proof {
                    lemma_owner_below(state@, dim as nat, f as int);
                    assert((f + 1) * dd <= 6 * dd) by (nonlinear_arith)
                        requires
                            f < 6,
                    ;
                    assert(f * dd + dd / 2 < (f + 1) * dd) by (nonlinear_arith)
                        requires
                            dd >= 1,
                    ;
                }
                let owner = state[f * dd + dd / 2] / dd;
                let add = names[k].2;
                let cur = res[owner];
                proof {
                    assert forall|j: int| 0 <= j < rules.take(k as int).len() implies 0 <= #[trigger] rules.take(k as int)[j].1 < 6 && 0 <= rules.take(k as int)[j].2 <= 3 by {
                        assert(rules.take(k as int)[j] == rules[j]);
                    }
                    assert forall|j: int| 0 <= j < rules.take(k as int).len() implies 0 <= centre_owner(state@, dim as nat, #[trigger] rules.take(k as int)[j].1) < 6 by {
                        assert(rules.take(k as int)[j] == rules[j]);
                    }
                    lemma_credit_within(before, state@, m@, dim as nat, rules.take(k as int), 36 * i);
                    assert(cur <= 36 * i + 3 * k);
                    assert(36 * (i + 1) <= usize::MAX) by (nonlinear_arith)
                        requires
                            i < usize::MAX / 40,
                    ;
                }
                res.set(owner, cur + add);
            }
            k = k + 1;
        }
        assert(centre_rules(dim as nat).take(12) =~= centre_rules(dim as nat));
        let a = actions.get(m).unwrap();
        proof {
            assert(t.knows(mv[i as int]));
            let kk = choose|kk: int| 0 <= kk < t.names.len() && #[trigger] t.names[kk]@ == m@ && t.actions[kk]@ == a@;
            assert(crate::perm::action_fits(t.actions[kk]@, state.len() as nat));
            lemma_apply_pairs_values(state@, state@, a@, (6 * dd) as nat);
        }
        state = crate::perm::apply_action(&state, a);
        i = i + 1;
    }
    assert(mv.take(moves.len() as int) =~= mv);
    res
}

proof fn lemma_owner_below(state: Seq<usize>, dim: nat, f: int)
    requires
        0 <= f < 6,
        dim >= 1,
        state.len() == 6 * (dim * dim),
        values_below(state, 6 * (dim * dim)),
    ensures
        0 <= centre_owner(state, dim, f) < 6,
        f * (dim * dim) + (dim * dim) / 2 < state.len(),
{
    let dd = dim * dim;
    assert(dd >= 1) by (nonlinear_arith)
        requires
            dim >= 1,
            dd == dim * dim,
    ;
    assert(f * dd + dd / 2 < 6 * dd) by (nonlinear_arith)
        requires
            0 <= f < 6,
            dd >= 1,
    ;
    let v = state[f * dd + dd / 2];
    assert(v < 6 * dd);
    assert((v as int) / (dd as int) < 6) by (nonlinear_arith)
        requires
            v < 6 * dd,
            dd >= 1,
    ;
}

/// The shares of the rules: a face and at most three quarter turns.
proof fn lemma_rules_shape(dim: nat)
    ensures
        centre_rules(dim).len() == 12,
        forall|j: int| 0 <= j < 12 ==> 0 <= #[trigger] centre_rules(dim)[j].1 < 6 && 0 <= centre_rules(dim)[j].2 <= 3,
{
    let c = centre_rules(dim);
    assert forall|j: int| 0 <= j < 12 implies 0 <= #[trigger] c[j].1 < 6 && 0 <= c[j].2 <= 3 by {
        if j == 0 {
        } else if j == 1 {
        } else if j == 2 {
        } else if j == 3 {
        } else if j == 4 {
        } else if j == 5 {
        } else if j == 6 {
        } else if j == 7 {
        } else if j == 8 {
        } else if j == 9 {
        } else if j == 10 {
        } else {
        }
    }
}

/// The rule table of `centre_rules` as texts.
spec fn rule_texts(v: Seq<(String, usize, usize)>, dim: nat) -> bool {
    &&& v.len() == 12
    &&& forall|k: int|
        0 <= k < 12 ==> {
            &&& (#[trigger] v[k]).0@ == centre_rules(dim)[k].0
            &&& v[k].1 as int == centre_rules(dim)[k].1
            &&& v[k].2 as int == centre_rules(dim)[k].2
            &&& v[k].1 < 6
            &&& v[k].2 <= 3
        }
}

fn centre_rule_texts(dim: usize) -> (r: Vec<(String, usize, usize)>)
    requires
        dim >= 1,
    ensures
        rule_texts(r@, dim as nat),
{
    let top = dim - 1;
    let mut r: Vec<(String, usize, usize)> = Vec::new();
    r.push((turn(false, 'f', 0), 1, 1));
    r.push((turn(true, 'f', 0), 1, 3));
    r.push((turn(false, 'f', top), 3, 3));
    r.push((turn(true, 'f', top), 3, 1));
    r.push((turn(false, 'd', 0), 0, 1));
    r.push((turn(true, 'd', 0), 0, 3));
    r.push((turn(false, 'd', top), 5, 3));
    r.push((turn(true, 'd', top), 5, 1));
    r.push((turn(false, 'r', 0), 2, 1));
    r.push((turn(true, 'r', 0), 2, 3));
    r.push((turn(false, 'r', top), 4, 3));
    r.push((turn(true, 'r', top), 4, 1));
    proof {
        let c = centre_rules(dim as nat);
        assert forall|k: int| 0 <= k < 12 implies {
            &&& (#[trigger] r@[k]).0@ == c[k].0
            &&& r@[k].1 as int == c[k].1
            &&& r@[k].2 as int == c[k].2
            &&& r@[k].1 < 6
            &&& r@[k].2 <= 3
        } by {
            if k == 0 {
            } else if k == 1 {
            } else if k == 2 {
            } else if k == 3 {
            } else if k == 4 {
            } else if k == 5 {
            } else if k == 6 {
            } else if k == 7 {
            } else if k == 8 {
            } else if k == 9 {
            } else if k == 10 {
            } else {
            }
        }
    }
    r
}

/// For each target, the last target whose solved piece is now there;
/// `None` when some target holds a piece that belongs to none.
pub open spec fn places_of(cur: Seq<usize>, sol: Seq<usize>, t: Seq<int>) -> Option<Seq<usize>> {
    if forall|i: int| 0 <= i < t.len() ==> #[trigger] last_place(sol, t, cur[t[i]], t.len() as int) is Some {
        Some(Seq::new(t.len(), |i: int| last_place(sol, t, cur[t[i]], t.len() as int)->0 as usize))
    } else {
        None
    }
}

/// How many entries of `s` exceed `v`.
pub open spec fn count_above(s: Seq<usize>, v: usize) -> nat
    decreases s.len(),
{
    if s.len() == 0 {
        0
    } else {
        count_above(s.drop_last(), v) + if s.last() > v {
            1nat
        } else {
            0nat
        }
    }
}

/// The pairs of entries of `p` out of order.
pub open spec fn inversions(p: Seq<usize>) -> nat
    decreases p.len(),
{
    if p.len() == 0 {
        0
    } else {
        inversions(p.drop_last()) + count_above(p.drop_last(), p.last())
    }
}

/// The edge orbit at row `y`, column `x` of faces 0, 2, 4, 5 is checked
/// for parity: rows `1 .. dim / 2`, columns past the row, before the
/// mirrored column and within the first half.
pub open spec fn in_grid(dim: int, y: int, x: int) -> bool {
    &&& 1 <= y < dim / 2
    &&& y + 1 <= x
    &&& x < dim - y - 1
    &&& x < (dim + 1) / 2
}

/// Whether the pieces of the edge orbit at row `y`, column `x` are an even
/// permutation of their solved places; `None` when a piece belongs to none.
pub open spec fn orbit_even(cur: Seq<usize>, sol: Seq<usize>, dim: int, y: int, x: int) -> Option<bool> {
    match places_of(cur, sol, edge_targets(dim, y, x, four_faces())) {
        Some(p) => Some(inversions(p) % 2 == 0),
        None => None,
    }
}

/// Every checked orbit can be read.
pub open spec fn grid_known(cur: Seq<usize>, sol: Seq<usize>, dim: int) -> bool {
    forall|y: int, x: int| #[trigger] in_grid(dim, y, x) ==> orbit_even(cur, sol, dim, y, x) is Some
}

/// The parity of each checked orbit (`true` when even), `true` elsewhere.
pub open spec fn parity_grid(cur: Seq<usize>, sol: Seq<usize>, dim: int) -> Seq<Seq<bool>> {
    Seq::new(
        (dim / 2) as nat,
        |y: int|
            Seq::new(
                ((dim + 1) / 2) as nat,
                |x: int|
                    if in_grid(dim, y, x) {
                        orbit_even(cur, sol, dim, y, x)->0
                    } else {
                        true
                    },
            ),
    )
}

/// The grid after turning layer `j`: column `j` of the rows above and row
/// `j` from column `j + 1` to `m` change.
pub open spec fn flip_row(g: Seq<Seq<bool>>, j: int, m: int) -> Seq<Seq<bool>> {
    Seq::new(
        g.len(),
        |k: int|
            Seq::new(
                g[k].len(),
                |c: int|
                    if (k < j && c == j) || (k == j && j + 1 <= c <= m) {
                        !g[k][c]
                    } else {
                        g[k][c]
                    },
            ),
    )
}

/// Row `j` holds `v` from column `j + 1` on.
pub open spec fn row_all(g: Seq<Seq<bool>>, j: int, v: bool) -> bool {
    forall|c: int| j + 1 <= c < g[j].len() ==> #[trigger] g[j][c] == v
}

/// The layers to turn, from row `j` up to row 1, so that every row reads
/// `true`: a row already `true` needs nothing, a row all `false` is turned,
/// a mixed row cannot be mended.
pub open spec fn settle(g: Seq<Seq<bool>>, j: int, m: int) -> Option<Seq<int>>
    decreases j,
{
    if j < 1 {
        Some(Seq::<int>::empty())
    } else if row_all(g, j, true) {
        settle(g, j - 1, m)
    } else if row_all(g, j, false) {
        match settle(flip_row(g, j, m), j - 1, m) {
            Some(rest) => Some(seq![j] + rest),
            None => None,
        }
    } else {
        None
    }
}

/// The grid with every entry negated.
pub open spec fn negated(g: Seq<Seq<bool>>) -> Seq<Seq<bool>> {
    Seq::new(g.len(), |k: int| Seq::new(g[k].len(), |c: int| !g[k][c]))
}

/// Whether to turn `r0` first (which swaps every parity), and the layers
/// to turn: settled as it is when possible, else after negation.
pub open spec fn parity_plan(g: Seq<Seq<bool>>, dim: int) -> Option<(bool, Seq<int>)> {
    let m = (dim - 1) / 2;
    match settle(g, m - 1, m) {
        Some(a) => Some((false, a)),
        None => match settle(negated(g), m - 1, m) {
            Some(a) => Some((true, a)),
            None => None,
        },
    }
}

/// The moves of a plan: `r0` when asked, then `f<j>` for each layer.
pub open spec fn plan_moves(p: (bool, Seq<int>)) -> Seq<Seq<char>> {
    (if p.0 {
        seq![layer_move(false, 'r', 0)]
    } else {
        Seq::<Seq<char>>::empty()
    }) + p.1.map_values(|j: int| layer_move(false, 'f', j as nat))
}

/// On an odd cube whose face 0 lacks its centre piece: turn the middle `f`
/// slice once when face 5 has it, then once more when face 4 has it, or
/// back once when face 2 has it.
pub open spec fn centre_fix(t: ActionTable, cur: Seq<usize>, sol: Seq<usize>, dim: int) -> Seq<Seq<char>> {
    let h = dim / 2;
    let c0 = cell_index(dim, 0, h, h);
    let fp = layer_move(false, 'f', h as nat);
    let fm = layer_move(true, 'f', h as nat);
    if dim % 2 == 1 && cur[c0] != sol[c0] {
        let first = if cur[cell_index(dim, 5, h, h)] == sol[c0] {
            seq![fp]
        } else {
            Seq::<Seq<char>>::empty()
        };
        let s1 = apply_named(t, cur, first);
        if s1[cell_index(dim, 4, h, h)] == sol[c0] {
            first.push(fp)
        } else if s1[cell_index(dim, 2, h, h)] == sol[c0] {
            first.push(fm)
        } else {
            first
        }
    } else {
        Seq::<Seq<char>>::empty()
    }
}

/// The last of the targets `t` whose solved piece is `v`.
fn last_target(sol: &Vec<usize>, t: &Vec<usize>, v: usize, Ghost(ti): Ghost<Seq<int>>) -> (r: Option<usize>)
    requires
        same_ints(t@, ti),
        forall|k: int| 0 <= k < ti.len() ==> 0 <= #[trigger] ti[k] < sol.len(),
    ensures
        match r {
            Some(j) => last_place(sol@, ti, v, ti.len() as int) == Some(j as int),
            None => last_place(sol@, ti, v, ti.len() as int) is None,
        },
{
    let mut j: usize = t.len();
    while j > 0
        invariant
            j <= t.len(),
            same_ints(t@, ti),
            forall|k: int| 0 <= k < ti.len() ==> 0 <= #[trigger] ti[k] < sol.len(),
            last_place(sol@, ti, v, ti.len() as int) == last_place(sol@, ti, v, j as int),
        decreases j,
    {
        assert(t@[j - 1] as int == ti[j - 1]);
        if sol[t[j - 1]] == v {
            return Some(j - 1);
        }
        j = j - 1;
    }
    None
}

proof fn lemma_last_place_range(sol: Seq<usize>, t: Seq<int>, v: usize, k: int)
    ensures
        last_place(sol, t, v, k) matches Some(j) ==> 0 <= j < k,
    decreases k,
{
    if k > 0 {
        lemma_last_place_range(sol, t, v, k - 1);
    }
}

/// Where the pieces at the targets belong (`places_of`).
fn target_places(cur: &Vec<usize>, sol: &Vec<usize>, t: &Vec<usize>, Ghost(ti): Ghost<Seq<int>>) -> (r: Option<Vec<usize>>)
    requires
        same_ints(t@, ti),
        forall|k: int| 0 <= k < ti.len() ==> 0 <= #[trigger] ti[k] < cur.len(),
        sol.len() == cur.len(),
    ensures
        match r {
            Some(p) => places_of(cur@, sol@, ti) == Some(p@),
            None => places_of(cur@, sol@, ti) is None,
        },
{
    let n = t.len();
    let mut p: Vec<usize> = Vec::new();
    let mut i: usize = 0;
    while i < n
        invariant
            i <= n,
            n == t.len(),
            same_ints(t@, ti),
            forall|k: int| 0 <= k < ti.len() ==> 0 <= #[trigger] ti[k] < cur.len(),
            sol.len() == cur.len(),
            p.len() == i,
            forall|k: int| 0 <= k < i ==> #[trigger] last_place(sol@, ti, cur@[ti[k]], n as int) == Some(p@[k] as int),
        decreases n - i,
    {
        assert(t@[i as int] as int == ti[i as int]);
        let v = cur[t[i]];
        match last_target(sol, t, v, Ghost(ti)) {
            Some(j) => {
                p.push(j);
            },
            None => {
                proof {
                    assert(last_place(sol@, ti, cur@[ti[i as int]], n as int) is None);
                }
                return None;
            },
        }
        i = i + 1;
    }
    proof {
        assert forall|k: int| 0 <= k < n implies #[trigger] last_place(sol@, ti, cur@[ti[k]], n as int) is Some by {
            assert(last_place(sol@, ti, cur@[ti[k]], n as int) == Some(p@[k] as int));
        }
        assert(p@ =~= Seq::new(n as nat, |k: int| last_place(sol@, ti, cur@[ti[k]], n as int)->0 as usize));
    }
    Some(p)
}

/// The number of pairs out of order in `p`.
fn count_inversions(p: &Vec<usize>) -> (r: usize)
    requires
        p.len() <= 1000,
    ensures
        r == inversions(p@),
{
    let mut cnt: usize = 0;
    let mut j: usize = 0;
    while j < p.len()
        invariant
            j <= p.len() <= 1000,
            cnt == inversions(p@.take(j as int)),
            cnt <= j * j,
        decreases p.len() - j,
    {
        let ghost base = cnt;
        assert(j * j <= 1000000) by (nonlinear_arith)
            requires
                j <= 1000,
        ;
        let mut i: usize = 0;
        while i < j
            invariant
                i <= j < p.len() <= 1000,
                base == inversions(p@.take(j as int)),
                base <= j * j,
                base <= 1000000,
                cnt == base + count_above(p@.take(i as int), p@[j as int]),
                cnt <= base + i,
            decreases j - i,
        {
            assert(p@.take(i + 1).drop_last() =~= p@.take(i as int));
            if p[i] > p[j] {
                cnt = cnt + 1;
            }
            i = i + 1;
        }
        assert(p@.take(j + 1).drop_last() =~= p@.take(j as int));
        assert(p@.take(j as int) =~= p@.take(j as int).take(j as int));
        assert(cnt <= (j + 1) * (j + 1)) by (nonlinear_arith)
            requires
                cnt <= base + j,
                base <= j * j,
        ;
        j = j + 1;
    }
    assert(p@.take(p.len() as int) =~= p@);
    cnt
}

/// The views of the rows of a grid.
pub open spec fn grid_view(g: Seq<Vec<bool>>) -> Seq<Seq<bool>> {
    g.map_values(|r: Vec<bool>| r@)
}

/// `rows` rows of `cols` entries each.
pub open spec fn grid_shape(g: Seq<Seq<bool>>, rows: int, cols: int) -> bool {
    g.len() == rows && forall|k: int| 0 <= k < rows ==> #[trigger] g[k].len() == cols
}

/// The parity grid with the orbits before row `y0`, column `x0` read, and
/// `true` elsewhere.
spec fn partial_grid(cur: Seq<usize>, sol: Seq<usize>, dim: int, y0: int, x0: int) -> Seq<Seq<bool>> {
    Seq::new(
        (dim / 2) as nat,
        |y: int|
            Seq::new(
                ((dim + 1) / 2) as nat,
                |x: int|
                    if in_grid(dim, y, x) && (y < y0 || (y == y0 && x < x0)) {
                        orbit_even(cur, sol, dim, y, x)->0
                    } else {
                        true
                    },
            ),
    )
}

/// Sets entry `c` of row `k` to `v`.
fn set_cell(g: &mut Vec<Vec<bool>>, k: usize, c: usize, v: bool)
    requires
        k < old(g).len(),
        c < old(g)@[k as int].len(),
    ensures
        grid_view(final(g)@) == grid_view(old(g)@).update(k as int, grid_view(old(g)@)[k as int].update(c as int, v)),
{
    let ghost before = grid_view(g@);
    let mut row = g[k].clone();
    assert(row@ =~= g@[k as int]@);
    row.set(c, v);
    g.set(k, row);
    assert(grid_view(g@) =~= before.update(k as int, before[k as int].update(c as int, v)));
}

/// `rows` rows of `cols` entries `true`.
fn true_grid(rows: usize, cols: usize) -> (g: Vec<Vec<bool>>)
    ensures
        grid_view(g@) == Seq::new(rows as nat, |y: int| Seq::new(cols as nat, |x: int| true)),
{
    let mut g: Vec<Vec<bool>> = Vec::new();
    let mut k: usize = 0;
    while k < rows
        invariant
            k <= rows,
            grid_view(g@) == Seq::new(k as nat, |y: int| Seq::new(cols as nat, |x: int| true)),
        decreases rows - k,
    {
        let row: Vec<bool> = vec![true; cols];
        let ghost before = grid_view(g@);
        let ghost rv = row@;
        assert(rv =~= Seq::new(cols as nat, |x: int| true));
        g.push(row);
        assert(grid_view(g@) =~= before.push(rv));
        assert(grid_view(g@) =~~= Seq::new((k + 1) as nat, |y: int| Seq::new(cols as nat, |x: int| true)));
        k = k + 1;
    }
    g
}

/// The parity of each checked edge orbit (`parity_grid`); `None` when a
/// piece belongs to none of its orbit's places.
pub fn inversion_grid(cur: &Vec<usize>, sol: &Vec<usize>, dim: usize) -> (r: Option<Vec<Vec<bool>>>)
    requires
        cube_states(cur@, sol@, dim as int),
    ensures
        match r {
            Some(g) => grid_known(cur@, sol@, dim as int) && grid_view(g@) == parity_grid(cur@, sol@, dim as int),
            None => !grid_known(cur@, sol@, dim as int),
        },
{
    let rows = dim / 2;
    let cols = dim / 2 + dim % 2;
    assert(cols == (dim + 1) / 2);
    let mut g = true_grid(rows, cols);
    let ghost d = dim as int;
    assert(grid_view(g@) =~~= partial_grid(cur@, sol@, d, 1, 2));
    assert(grid_view(g@) =~~= partial_grid(cur@, sol@, d, 1, 0));
    let mut y: usize = 1;
    while y < rows
        invariant
            rows == dim / 2,
            cols == (dim + 1) / 2,
            d == dim as int,
            cube_states(cur@, sol@, d),
            1 <= y,
            y >= rows ==> grid_view(g@) == partial_grid(cur@, sol@, d, y as int, 0),
            y < rows ==> grid_view(g@) == partial_grid(cur@, sol@, d, y as int, y + 1),
            forall|yy: int, xx: int| #[trigger] in_grid(d, yy, xx) && yy < y ==> orbit_even(cur@, sol@, d, yy, xx) is Some,
        decreases rows - y,
    {
        let mut x = y + 1;
        while x < dim - y - 1 && x < cols
            invariant
                rows == dim / 2,
                cols == (dim + 1) / 2,
                d == dim as int,
                cube_states(cur@, sol@, d),
                1 <= y < rows,
                y + 1 <= x,
                grid_view(g@) == partial_grid(cur@, sol@, d, y as int, x as int),
                forall|yy: int, xx: int| #[trigger] in_grid(d, yy, xx) && (yy < y || (yy == y && xx < x)) ==> orbit_even(cur@, sol@, d, yy, xx) is Some,
            decreases dim - x,
        {
            let t = target_idx_four_edge(dim, y, x);
            let ghost ti = edge_targets(d, y as int, x as int, four_faces());
            proof {
                assert forall|k: int| 0 <= k < four_faces().len() implies #[trigger] four_faces()[k] < 6 by {}
                lemma_edge_targets_bound(d, y as int, x as int, four_faces());
            }
            let p = match target_places(cur, sol, &t, Ghost(ti)) {
                Some(p) => p,
                None => {
                    proof {
                        assert(in_grid(d, y as int, x as int));
                        assert(orbit_even(cur@, sol@, d, y as int, x as int) is None);
                    }
                    return None;
                },
            };
            let cnt = count_inversions(&p);
            let ghost before = grid_view(g@);
            assert(partial_grid(cur@, sol@, d, y as int, x as int).len() == rows);
            assert(before.len() == g@.len());
            assert(y < g@.len());
            assert(before[y as int] == g@[y as int]@);
            assert(before[y as int].len() == cols);
            if cnt % 2 == 1 {
                set_cell(&mut g, y, x, false);
            }
            proof {
                assert(in_grid(d, y as int, x as int));
                assert(orbit_even(cur@, sol@, d, y as int, x as int) == Some(cnt % 2 == 0));
                assert(grid_view(g@) =~~= partial_grid(cur@, sol@, d, y as int, x + 1));
            }
            x = x + 1;
        }
        proof {
            assert forall|xx: int| #[trigger] in_grid(d, y as int, xx) implies xx < x by {}
            if y + 1 < rows {
                assert(grid_view(g@) =~~= partial_grid(cur@, sol@, d, y + 1, y + 2));
            } else {
                assert(grid_view(g@) =~~= partial_grid(cur@, sol@, d, y + 1, 0));
            }
        }
        y = y + 1;
    }
    proof {
        assert forall|yy: int, xx: int| #[trigger] in_grid(d, yy, xx) implies orbit_even(cur@, sol@, d, yy, xx) is Some by {
            assert(yy < y);
        }
        assert(grid_view(g@) =~~= parity_grid(cur@, sol@, d));
    }
    Some(g)
}

/// The grid after turning, for `kk < k`, entry `j` of row `kk`.
spec fn flipped_column(g: Seq<Seq<bool>>, j: int, k: int) -> Seq<Seq<bool>> {
    Seq::new(
        g.len(),
        |kk: int| Seq::new(g[kk].len(), |c: int| if kk < k && c == j { !g[kk][c] } else { g[kk][c] }),
    )
}

/// Turns layer `j` in the grid (`flip_row`).
fn flip_grid(g: &mut Vec<Vec<bool>>, j: usize, m: usize, Ghost(cols): Ghost<int>)
    requires
        grid_shape(grid_view(old(g)@), old(g).len() as int, cols),
        j < old(g).len(),
        j <= m,
        m < cols,
        m < usize::MAX,
    ensures
        grid_view(final(g)@) == flip_row(grid_view(old(g)@), j as int, m as int),
        final(g).len() == old(g).len(),
{
    let ghost g0 = grid_view(g@);
    assert(grid_view(g@) =~~= flipped_column(g0, j as int, 0));
    let mut k: usize = 0;
    while k < j
        invariant
            k <= j < g0.len(),
            g.len() == g0.len(),
            grid_shape(g0, g0.len() as int, cols),
            j <= m < cols,
            grid_view(g@) == flipped_column(g0, j as int, k as int),
        decreases j - k,
    {
        assert(grid_view(g@)[k as int] == g@[k as int]@);
        let v = g[k][j];
        set_cell(g, k, j, !v);
        assert(grid_view(g@) =~~= flipped_column(g0, j as int, k + 1));
        k = k + 1;
    }
    let ghost mid = grid_view(g@);
    let mut c = j + 1;
    assert(grid_view(g@) =~~= Seq::new(
        g0.len(),
        |kk: int|
            Seq::new(
                g0[kk].len(),
                |cc: int|
                    if (kk < j && cc == j) || (kk == j && j + 1 <= cc < c) {
                        !g0[kk][cc]
                    } else {
                        g0[kk][cc]
                    },
            ),
    ));
    while c <= m
        invariant
            j < c <= m + 1,
            m < cols,
            m < usize::MAX,
            j < g0.len(),
            g.len() == g0.len(),
            grid_shape(g0, g0.len() as int, cols),
            grid_view(g@) == Seq::new(
                g0.len(),
                |kk: int|
                    Seq::new(
                        g0[kk].len(),
                        |cc: int|
                            if (kk < j && cc == j) || (kk == j && j + 1 <= cc < c) {
                                !g0[kk][cc]
                            } else {
                                g0[kk][cc]
                            },
                    ),
            ),
        decreases m + 1 - c,
    {
        assert(grid_view(g@)[j as int] == g@[j as int]@);
        let v = g[j][c];
        set_cell(g, j, c, !v);
        assert(grid_view(g@) =~~= Seq::new(
            g0.len(),
            |kk: int|
                Seq::new(
                    g0[kk].len(),
                    |cc: int|
                        if (kk < j && cc == j) || (kk == j && j + 1 <= cc < c + 1) {
                            !g0[kk][cc]
                        } else {
                            g0[kk][cc]
                        },
                ),
        ));
        c = c + 1;
    }
    assert(grid_view(g@) =~~= flip_row(g0, j as int, m as int));
}

/// Entries `from ..` of `row` all equal `v`.
fn row_from(row: &Vec<bool>, from: usize, v: bool) -> (r: bool)
    ensures
        r == forall|c: int| from <= c < row.len() ==> #[trigger] row@[c] == v,
{
    let mut c = from;
    while c < row.len()
        invariant
            from <= c || row.len() <= c,
            forall|cc: int| from <= cc < c && cc < row.len() ==> #[trigger] row@[cc] == v,
        decreases row.len() - c,
    {
        if row[c] != v {
            return false;
        }
        c = c + 1;
    }
    true
}

/// The usize entries as integers.
pub open spec fn as_ints(a: Seq<usize>) -> Seq<int> {
    a.map_values(|v: usize| v as int)
}

spec fn prefixed_ints(acts: Seq<usize>, o: Option<Seq<int>>) -> Option<Seq<int>> {
    match o {
        Some(r) => Some(as_ints(acts) + r),
        None => None,
    }
}

/// The layers to turn from row `top` up (`settle`).
fn settle_rows(grid: Vec<Vec<bool>>, top: usize, m: usize, Ghost(cols): Ghost<int>) -> (r: Option<Vec<usize>>)
    requires
        grid_shape(grid_view(grid@), grid.len() as int, cols),
        top < grid.len(),
        top < m,
        m < cols,
    ensures
        match r {
            Some(a) => settle(grid_view(grid@), top as int, m as int) == Some(as_ints(a@)),
            None => settle(grid_view(grid@), top as int, m as int) is None,
        },
{
    let ghost g0 = grid_view(grid@);
    let mut g = grid;
    let mut acts: Vec<usize> = Vec::new();
    let mut j = top;
    assert(as_ints(acts@) + Seq::<int>::empty() =~= Seq::<int>::empty());
    proof {
        match settle(g0, top as int, m as int) {
            Some(rest) => {
                assert(as_ints(acts@) + rest =~= rest);
            },
            None => {},
        }
    }
    while j >= 1
        invariant
            j <= top < m < cols,
            g0 == grid_view(grid@),
            top < g.len(),
            grid_shape(grid_view(g@), g.len() as int, cols),
            settle(g0, top as int, m as int) == prefixed_ints(acts@, settle(grid_view(g@), j as int, m as int)),
        decreases j,
    {
        let ghost gv = grid_view(g@);
        assert(gv[j as int] == g@[j as int]@);
        let all_true = row_from(&g[j], j + 1, true);
        if all_true {
            assert(row_all(gv, j as int, true));
            j = j - 1;
        } else {
            assert(!row_all(gv, j as int, true));
            let all_false = row_from(&g[j], j + 1, false);
            if all_false {
                assert(row_all(gv, j as int, false));
                assert(m < usize::MAX);
                flip_grid(&mut g, j, m, Ghost(cols));
                proof {
                    assert(grid_shape(grid_view(g@), g.len() as int, cols)) by {
                        assert forall|k: int| 0 <= k < g.len() implies #[trigger] grid_view(g@)[k].len() == cols by {
                            assert(grid_view(g@)[k] == flip_row(gv, j as int, m as int)[k]);
                        }
                    }
                    match settle(grid_view(g@), j - 1, m as int) {
                        Some(rest) => {
                            assert(as_ints(acts@.push(j)) =~= as_ints(acts@).push(j as int));
                            assert(as_ints(acts@) + (seq![j as int] + rest) =~= as_ints(acts@.push(j)) + rest);
                        },
                        None => {},
                    }
                }
                acts.push(j);
                j = j - 1;
            } else {
                assert(!row_all(gv, j as int, false));
                assert(settle(gv, j as int, m as int) is None);
                assert(settle(g0, top as int, m as int) is None);
                return None;
            }
        }
    }
    proof {
        assert(as_ints(acts@) + Seq::<int>::empty() =~= as_ints(acts@));
    }
    Some(acts)
}

/// The grid with every entry negated.
fn negate_grid(g: &Vec<Vec<bool>>) -> (r: Vec<Vec<bool>>)
    ensures
        grid_view(r@) == negated(grid_view(g@)),
{
    let ghost g0 = grid_view(g@);
    let mut r: Vec<Vec<bool>> = Vec::new();
    let mut k: usize = 0;
    while k < g.len()
        invariant
            k <= g.len(),
            g0 == grid_view(g@),
            grid_view(r@) == negated(g0).take(k as int),
        decreases g.len() - k,
    {
        let row = &g[k];
        assert(g0[k as int] == row@);
        let mut nr: Vec<bool> = Vec::new();
        let mut c: usize = 0;
        while c < row.len()
            invariant
                c <= row.len(),
                nr@ == Seq::new(c as nat, |cc: int| !row@[cc]),
            decreases row.len() - c,
        {
            nr.push(!row[c]);
            assert(nr@ =~= Seq::new((c + 1) as nat, |cc: int| !row@[cc]));
            c = c + 1;
        }
        let ghost before = grid_view(r@);
        let ghost nv = nr@;
        r.push(nr);
        assert(grid_view(r@) =~= before.push(nv));
        assert(grid_view(r@) =~~= negated(g0).take(k + 1));
        k = k + 1;
    }
    assert(negated(g0).take(g.len() as int) =~= negated(g0));
    r
}

/// Whether to turn `r0` first and which layers to turn (`parity_plan`).
fn plan_parity(g: Vec<Vec<bool>>, dim: usize) -> (r: Option<(bool, Vec<usize>)>)
    requires
        dim >= 5,
        grid_shape(grid_view(g@), (dim / 2) as int, ((dim + 1) / 2) as int),
    ensures
        match r {
            Some((neg, a)) => parity_plan(grid_view(g@), dim as int) == Some((neg, as_ints(a@))),
            None => parity_plan(grid_view(g@), dim as int) is None,
        },
{
    let ghost g0 = grid_view(g@);
    let ghost cols = ((dim + 1) / 2) as int;
    let m = (dim - 1) / 2;
    let neg = negate_grid(&g);
    assert(grid_shape(grid_view(neg@), neg.len() as int, cols)) by {
        assert forall|k: int| 0 <= k < neg.len() implies #[trigger] grid_view(neg@)[k].len() == cols by {
            assert(grid_view(neg@)[k] == negated(g0)[k]);
        }
    }
    match settle_rows(g, m - 1, m, Ghost(cols)) {
        Some(a) => Some((false, a)),
        None => match settle_rows(neg, m - 1, m, Ghost(cols)) {
            Some(a) => Some((true, a)),
            None => None,
        },
    }
}

/// The moves of `resolve_center_and_inversion`: the centre fix, then on
/// cubes of side 5 and more the parity plan of the grid read after it.
pub open spec fn resolve_moves(t: ActionTable, cur: Seq<usize>, sol: Seq<usize>, dim: int) -> Seq<Seq<char>> {
    let fix = centre_fix(t, cur, sol, dim);
    let s1 = apply_named(t, cur, fix);
    if dim >= 5 {
        fix + plan_moves(parity_plan(parity_grid(s1, sol, dim), dim)->0)
    } else {
        fix
    }
}

/// When `resolve_center_and_inversion` gives up: a move of the centre fix
/// is unknown; or, on cubes of side 5 and more, an orbit cannot be read,
/// no plan settles the grid, or a move of the plan is unknown.
pub open spec fn resolve_fails(t: ActionTable, cur: Seq<usize>, sol: Seq<usize>, dim: int) -> bool {
    let fix = centre_fix(t, cur, sol, dim);
    let s1 = apply_named(t, cur, fix);
    ||| !all_known(t, fix)
    ||| (dim >= 5 && (!grid_known(s1, sol, dim) || parity_plan(parity_grid(s1, sol, dim), dim) is None
        || !all_known(t, resolve_moves(t, cur, sol, dim))))
}

proof fn lemma_known_push(t: ActionTable, a: Seq<Seq<char>>, m: Seq<char>)
    requires
        all_known(t, a),
        t.knows(m),
    ensures
        all_known(t, a.push(m)),
{
    assert forall|i: int| 0 <= i < a.push(m).len() implies t.knows(#[trigger] a.push(m)[i]) by {
        if i < a.len() {
            assert(a.push(m)[i] == a[i]);
        }
    }
}

proof fn lemma_unknown_in(t: ActionTable, a: Seq<Seq<char>>, m: Seq<char>, rest: Seq<Seq<char>>)
    requires
        !t.knows(m),
    ensures
        !all_known(t, a.push(m) + rest),
{
    assert((a.push(m) + rest)[a.len() as int] == m);
}

/// Turns the middle slices so that the centre pieces are in place (odd
/// cubes), then, on cubes of side 5 and more, reads the parity of every
/// edge orbit of faces 0, 2, 4, 5 and turns the layers (after `r0` when
/// needed) that make all of them even. Gives the state reached and the
/// moves made (`resolve_moves`), which lead from `cur_state` to it;
/// `None` exactly when `resolve_fails`.
pub fn resolve_center_and_inversion(
    cur_state: &Vec<usize>,
    sol_state: &Vec<usize>,
    actions: &ActionTable,
    dim: usize,
) -> (r: Option<(Vec<usize>, Vec<String>)>)
    requires
        actions.wf(),
        actions.fits(cur_state.len() as nat),
        cube_states(cur_state@, sol_state@, dim as int),
    ensures
        match r {
            Some((s, m)) => on_track(*actions, cur_state@, s@, m@) && string_views(m@) == resolve_moves(
                *actions,
                cur_state@,
                sol_state@,
                dim as int,
            ) && !resolve_fails(*actions, cur_state@, sol_state@, dim as int),
            None => resolve_fails(*actions, cur_state@, sol_state@, dim as int),
        },
{
    let ghost t = *actions;
    let ghost cur = cur_state@;
    let ghost sol = sol_state@;
    let ghost d = dim as int;
    let ghost fix = centre_fix(t, cur, sol, d);
    let mut state = cur_state.clone();
    let mut moves: Vec<String> = Vec::new();
    assert(state@ =~= cur_state@);
    assert(string_views(moves@) =~= Seq::<Seq<char>>::empty());
    if dim % 2 == 1 {
        let half = dim / 2;
        proof {
            lemma_cube_faces_fit(dim as int);
        }
        let c0 = cell(dim, 0, half, half);
        let c5 = cell(dim, 5, half, half);
        let c4 = cell(dim, 4, half, half);
        let c2 = cell(dim, 2, half, half);
        assert(6 * dim * dim == (5 + 1) * dim * dim);
        assert((2 + 1) * dim * dim <= 6 * dim * dim) by (nonlinear_arith);
        assert((4 + 1) * dim * dim <= 6 * dim * dim) by (nonlinear_arith);
        if cur_state[c0] != sol_state[c0] {
            let ghost first = if cur[c5 as int] == sol[c0 as int] {
                seq![layer_move(false, 'f', half as nat)]
            } else {
                Seq::<Seq<char>>::empty()
            };
            if cur_state[c5] == sol_state[c0] {
                let mv = turn(false, 'f', half);
                let ghost mvv = mv@;
                if !apply_named_move(actions, &mut state, &mut moves, mv, Ghost(cur)) {
                    proof {
                        assert(fix[0] == mvv);
                        assert(!all_known(t, fix));
                    }
                    return None;
                }
            }
            assert(string_views(moves@) =~= first);
            assert(state@ == apply_named(t, cur, first));
            if state[c4] == sol_state[c0] {
                let mv = turn(false, 'f', half);
                let ghost mvv = mv@;
                if !apply_named_move(actions, &mut state, &mut moves, mv, Ghost(cur)) {
                    proof {
                        assert(fix == first.push(mvv));
                        assert(fix[first.len() as int] == mvv);
                    }
                    return None;
                }
            } else if state[c2] == sol_state[c0] {
                let mv = turn(true, 'f', half);
                let ghost mvv = mv@;
                if !apply_named_move(actions, &mut state, &mut moves, mv, Ghost(cur)) {
                    proof {
                        assert(fix == first.push(mvv));
                        assert(fix[first.len() as int] == mvv);
                    }
                    return None;
                }
            }
        }
    }
    assert(string_views(moves@) == fix);
    let ghost s1 = state@;
    assert(s1 == apply_named(t, cur, fix));
    if dim < 5 {
        return Some((state, moves));
    }
    let grid = match inversion_grid(&state, sol_state, dim) {
        Some(g) => g,
        None => {
            return None;
        },
    };
    assert(grid_shape(grid_view(grid@), (dim / 2) as int, ((dim + 1) / 2) as int)) by {
        assert forall|k: int| 0 <= k < dim / 2 implies #[trigger] grid_view(grid@)[k].len() == (dim + 1) / 2 by {
            assert(grid_view(grid@)[k] == parity_grid(s1, sol, d)[k]);
        }
    }
    let (neg, layers) = match plan_parity(grid, dim) {
        Some(p) => p,
        None => {
            return None;
        },
    };
    let ghost plan = parity_plan(parity_grid(s1, sol, d), d)->0;
    let ghost pm = plan_moves(plan);
    assert(plan == (neg, as_ints(layers@)));
    let ghost head = if neg {
        seq![layer_move(false, 'r', 0)]
    } else {
        Seq::<Seq<char>>::empty()
    };
    if neg {
        let mv = turn(false, 'r', 0);
        let ghost mvv = mv@;
        if !apply_named_move(actions, &mut state, &mut moves, mv, Ghost(cur)) {
            proof {
                assert(resolve_moves(t, cur, sol, d) == fix + pm);
                assert(pm =~= seq![mvv] + as_ints(layers@).map_values(|j: int| layer_move(false, 'f', j as nat)));
                assert(fix + pm =~= fix.push(mvv) + as_ints(layers@).map_values(|j: int| layer_move(false, 'f', j as nat)));
                lemma_unknown_in(t, fix, mvv, as_ints(layers@).map_values(|j: int| layer_move(false, 'f', j as nat)));
            }
            return None;
        }
    }
    assert(string_views(moves@) =~= fix + head);
    assert(resolve_moves(t, cur, sol, d) == fix + pm);
    let mut k: usize = 0;
    while k < layers.len()
        invariant
            k <= layers.len(),
            d == dim as int,
            dim >= 5,
            cur == cur_state@,
            sol == sol_state@,
            resolve_moves(t, cur, sol, d) == fix + pm,
            actions.wf(),
            t == *actions,
            actions.fits(state.len() as nat),
            state.len() == cur_state.len(),
            on_track(t, cur, state@, moves@),
            pm == head + as_ints(layers@).map_values(|j: int| layer_move(false, 'f', j as nat)),
            string_views(moves@) == fix + head + as_ints(layers@).take(k as int).map_values(|j: int| layer_move(false, 'f', j as nat)),
        decreases layers.len() - k,
    {
        let mv = turn(false, 'f', layers[k]);
        let ghost mvv = mv@;
        let ghost before = string_views(moves@);
        assert(as_ints(layers@)[k as int] == layers@[k as int] as int);
        if !apply_named_move(actions, &mut state, &mut moves, mv, Ghost(cur)) {
            proof {
                let tail = as_ints(layers@).skip(k + 1).map_values(|j: int| layer_move(false, 'f', j as nat));
                assert(fix + pm =~= before.push(mvv) + tail);
                lemma_unknown_in(t, before, mvv, tail);
                assert(resolve_moves(t, cur, sol, d) == fix + pm);
            }
            return None;
        }
        assert(as_ints(layers@).take(k + 1).map_values(|j: int| layer_move(false, 'f', j as nat)) =~= as_ints(layers@).take(k as int).map_values(|j: int| layer_move(false, 'f', j as nat)).push(mvv));
        assert(string_views(moves@) =~= fix + head + as_ints(layers@).take(k + 1).map_values(|j: int| layer_move(false, 'f', j as nat)));
        k = k + 1;
    }
    assert(as_ints(layers@).take(layers.len() as int) =~= as_ints(layers@));
    assert(string_views(moves@) =~= fix + pm);
    assert(resolve_moves(t, cur, sol, d) == fix + pm);
    Some((state, moves))
}


/// The centre sticker of face `f` on a cube of odd side `dim`.
pub open spec fn centre_cell(dim: int, f: int) -> int {
    cell_index(dim, f, dim / 2, dim / 2)
}

/// The middle `f` slice turns of the table move the face centres in the
/// cycle 5 -> 4 -> 0 -> 2 -> 5: after `f{dim / 2}` the centre of face 4
/// holds what face 5's held, face 0 what face 4's held, face 2 what face
/// 0's held and face 5 what face 2's held; `-f{dim / 2}` moves them back.
pub open spec fn slice_cycles(t: ActionTable, dim: int) -> bool {
    let fp = t.named(layer_move(false, 'f', (dim / 2) as nat));
    let fm = t.named(layer_move(true, 'f', (dim / 2) as nat));
    let c0 = centre_cell(dim, 0);
    let c2 = centre_cell(dim, 2);
    let c4 = centre_cell(dim, 4);
    let c5 = centre_cell(dim, 5);
    &&& forall|s: Seq<usize>|
        s.len() == 6 * dim * dim ==> {
            &&& (#[trigger] apply_pairs(s, s, fp)).len() == s.len()
            &&& apply_pairs(s, s, fp)[c4] == s[c5]
            &&& apply_pairs(s, s, fp)[c0] == s[c4]
            &&& apply_pairs(s, s, fp)[c2] == s[c0]
            &&& apply_pairs(s, s, fp)[c5] == s[c2]
        }
    &&& forall|s: Seq<usize>|
        s.len() == 6 * dim * dim ==> {
            &&& (#[trigger] apply_pairs(s, s, fm)).len() == s.len()
            &&& apply_pairs(s, s, fm)[c5] == s[c4]
            &&& apply_pairs(s, s, fm)[c4] == s[c0]
            &&& apply_pairs(s, s, fm)[c0] == s[c2]
            &&& apply_pairs(s, s, fm)[c2] == s[c5]
        }
}

/// The centres of faces 0, 2, 4 and 5 of `s` hold different pieces, one of
/// them `p`.
pub open spec fn centre_among(s: Seq<usize>, dim: int, p: usize) -> bool {
    let c0 = centre_cell(dim, 0);
    let c2 = centre_cell(dim, 2);
    let c4 = centre_cell(dim, 4);
    let c5 = centre_cell(dim, 5);
    &&& s[c0] != s[c2] && s[c0] != s[c4] && s[c0] != s[c5]
    &&& s[c2] != s[c4] && s[c2] != s[c5] && s[c4] != s[c5]
    &&& (s[c0] == p || s[c2] == p || s[c4] == p || s[c5] == p)
}

proof fn lemma_apply_one(t: ActionTable, s: Seq<usize>, m: Seq<char>)
    ensures
        apply_named(t, s, seq![m]) == apply_pairs(s, s, t.named(m)),
{
    assert(seq![m].drop_last() =~= Seq::<Seq<char>>::empty());
    assert(apply_named(t, s, Seq::<Seq<char>>::empty()) == s);
    assert(seq![m].last() == m);
}

proof fn lemma_apply_two(t: ActionTable, s: Seq<usize>, m: Seq<char>)
    ensures
        apply_named(t, s, seq![m, m]) == apply_pairs(apply_pairs(s, s, t.named(m)), apply_pairs(s, s, t.named(m)), t.named(m)),
{
    assert(seq![m, m].drop_last() =~= seq![m]);
    lemma_apply_one(t, s, m);
}

/// The centre turns of `centre_fix` bring the centre piece of face 0 home:
/// on an odd cube whose middle `f` slice turns cycle the centres
/// (`slice_cycles`), when face 0's solved centre piece sits at the centre
/// of face 0, 2, 4 or 5 (those four holding different pieces), the centre
/// of face 0 holds it after the turns.
pub proof fn lemma_centre_fix_home(t: ActionTable, cur: Seq<usize>, sol: Seq<usize>, dim: int)
    requires
        dim >= 1,
        dim % 2 == 1,
        cur.len() == 6 * dim * dim,
        slice_cycles(t, dim),
        centre_among(cur, dim, sol[centre_cell(dim, 0)]),
    ensures
        apply_named(t, cur, centre_fix(t, cur, sol, dim))[centre_cell(dim, 0)] == sol[centre_cell(dim, 0)],
{
    let h = dim / 2;
    let fp = layer_move(false, 'f', h as nat);
    let fm = layer_move(true, 'f', h as nat);
    let c0 = centre_cell(dim, 0);
    let c2 = centre_cell(dim, 2);
    let c4 = centre_cell(dim, 4);
    let p = sol[c0];
    assert(apply_named(t, cur, Seq::<Seq<char>>::empty()) == cur);
    lemma_apply_one(t, cur, fp);
    lemma_apply_one(t, cur, fm);
    lemma_apply_two(t, cur, fp);
    let a = apply_pairs(cur, cur, t.named(fp));
    assert(a.len() == cur.len());
    assert(seq![fp].push(fp) =~= seq![fp, fp]);
    assert(Seq::<Seq<char>>::empty().push(fp) =~= seq![fp]);
    assert(Seq::<Seq<char>>::empty().push(fm) =~= seq![fm]);
    if cur[c0] == p {
    } else if cur[centre_cell(dim, 5)] == p {
        assert(a[c4] == p);
    } else if cur[c4] == p {
    } else {
        assert(cur[c2] == p);
    }
}

/// The grid after turning the layers `a` in order.
pub open spec fn flips(g: Seq<Seq<bool>>, a: Seq<int>, m: int) -> Seq<Seq<bool>>
    decreases a.len(),
{
    if a.len() == 0 {
        g
    } else {
        flips(flip_row(g, a[0], m), a.drop_first(), m)
    }
}

/// Every row of `g` has at most `m + 1` entries.
pub open spec fn rows_within(g: Seq<Seq<bool>>, m: int) -> bool {
    forall|k: int| 0 <= k < g.len() ==> (#[trigger] g[k]).len() <= m + 1
}

proof fn lemma_flips_shape(g: Seq<Seq<bool>>, a: Seq<int>, m: int)
    ensures
        flips(g, a, m).len() == g.len(),
        forall|k: int| 0 <= k < g.len() ==> (#[trigger] flips(g, a, m)[k]).len() == g[k].len(),
    decreases a.len(),
{
    if a.len() > 0 {
        let h = flip_row(g, a[0], m);
        lemma_flips_shape(h, a.drop_first(), m);
        assert forall|k: int| 0 <= k < g.len() implies (#[trigger] flips(g, a, m)[k]).len() == g[k].len() by {
            assert(h[k].len() == g[k].len());
        }
    }
}

/// Turning layers below row `r` leaves row `r` as it is.
proof fn lemma_flips_keep(g: Seq<Seq<bool>>, a: Seq<int>, m: int, r: int)
    requires
        0 <= r < g.len(),
        forall|i: int| 0 <= i < a.len() ==> #[trigger] a[i] < r,
    ensures
        flips(g, a, m)[r] == g[r],
    decreases a.len(),
{
    if a.len() > 0 {
        let h = flip_row(g, a[0], m);
        assert(h[r] =~= g[r]);
        assert forall|i: int| 0 <= i < a.drop_first().len() implies #[trigger] a.drop_first()[i] < r by {
            assert(a.drop_first()[i] == a[i + 1]);
        }
        lemma_flips_keep(h, a.drop_first(), m, r);
    }
}

/// The layers that `settle` gives lie between 1 and `j`.
proof fn lemma_settle_range(g: Seq<Seq<bool>>, j: int, m: int)
    requires
        settle(g, j, m) is Some,
    ensures
        forall|i: int| 0 <= i < settle(g, j, m)->0.len() ==> 1 <= #[trigger] settle(g, j, m)->0[i] <= j,
    decreases j,
{
    if j >= 1 {
        if row_all(g, j, true) {
            lemma_settle_range(g, j - 1, m);
        } else if row_all(g, j, false) {
            let h = flip_row(g, j, m);
            lemma_settle_range(h, j - 1, m);
            let rest = settle(h, j - 1, m)->0;
            assert forall|i: int| 0 <= i < settle(g, j, m)->0.len() implies 1 <= #[trigger] settle(g, j, m)->0[i] <= j by {
                if i > 0 {
                    assert(settle(g, j, m)->0[i] == rest[i - 1]);
                }
            }
        }
    }
}

/// What `settle` gives mends the grid: turning its layers in order leaves
/// every row from 1 to `j` true past its diagonal.
pub proof fn lemma_settle_mends(g: Seq<Seq<bool>>, j: int, m: int)
    requires
        j < g.len(),
        rows_within(g, m),
        settle(g, j, m) is Some,
    ensures
        forall|k: int| 1 <= k <= j ==> #[trigger] row_all(flips(g, settle(g, j, m)->0, m), k, true),
    decreases j,
{
    if j >= 1 {
        let a = settle(g, j, m)->0;
        if row_all(g, j, true) {
            lemma_settle_mends(g, j - 1, m);
            lemma_settle_range(g, j - 1, m);
            lemma_flips_keep(g, a, m, j);
        } else {
            assert(row_all(g, j, false));
            let h = flip_row(g, j, m);
            assert(rows_within(h, m)) by {
                assert forall|k: int| 0 <= k < h.len() implies (#[trigger] h[k]).len() <= m + 1 by {
                    assert(h[k].len() == g[k].len());
                }
            }
            lemma_settle_mends(h, j - 1, m);
            lemma_settle_range(h, j - 1, m);
            let rest = settle(h, j - 1, m)->0;
            assert(a == seq![j] + rest);
            assert(a[0] == j);
            assert(a.drop_first() =~= rest);
            assert(flips(g, a, m) == flips(h, rest, m));
            lemma_flips_keep(h, rest, m, j);
            assert forall|c: int| j + 1 <= c < flips(g, a, m)[j].len() implies #[trigger] flips(g, a, m)[j][c] == true by {
                assert(g[j][c] == false);
            }
        }
    }
}

/// The grid a plan starts from: negated when it turns `r0` first.
pub open spec fn plan_start(g: Seq<Seq<bool>>, p: (bool, Seq<int>)) -> Seq<Seq<bool>> {
    if p.0 {
        negated(g)
    } else {
        g
    }
}

/// The parity plan mends the grid: on the grid, negated when the plan turns
/// `r0` first, the layers of the plan leave every row from 1 to
/// `(dim - 1) / 2 - 1` true past its diagonal.
pub proof fn lemma_parity_plan_mends(g: Seq<Seq<bool>>, dim: int)
    requires
        g.len() == dim / 2,
        rows_within(g, (dim - 1) / 2),
    ensures
        parity_plan(g, dim) matches Some(p) ==> forall|k: int|
            1 <= k < (dim - 1) / 2 ==> #[trigger] row_all(flips(plan_start(g, p), p.1, (dim - 1) / 2), k, true),
{
    let m = (dim - 1) / 2;
    if settle(g, m - 1, m) is Some {
        lemma_settle_mends(g, m - 1, m);
    } else if settle(negated(g), m - 1, m) is Some {
        assert(rows_within(negated(g), m)) by {
            assert forall|k: int| 0 <= k < negated(g).len() implies (#[trigger] negated(g)[k]).len() <= m + 1 by {
                assert(negated(g)[k].len() == g[k].len());
            }
        }
        lemma_settle_mends(negated(g), m - 1, m);
    }
}

} // verus!
