//! Solving the up and left faces of a cube with distinct pieces from the
//! one-face search tables: the position of the tracked pieces is looked
//! up, the predecessor chain followed back to a solved position, and each
//! move sequence on the way undone.
use vstd::prelude::*;
use crate::cube_seq::{four_corner_sequences, four_edge_base, seq_views, sequence_moves_four_corner, sequence_moves_four_edge, with_inverses};
use crate::cube_index::{face_rot_spec, same_ints, corner_targets, face_fits, lemma_corner_targets_bound, lemma_cube_faces_fit, target_idx_corner_distinct, calc_face_rot};
use crate::face_bfs::{face_place, face_result, face_starts, places_of, bfs_left_impl, bfs_up_impl, calc_permutation_idx_left, calc_permutation_idx_up, face_moves_ok, face_moves_view, gen_perm_map_left_corner, gen_perm_map_up_corner, move_closed, targets_in};
use crate::four_solve::{chain, cube_states, on_track, then_moves};
use crate::moves::{rev_move, rev_move_spec};
use crate::perm::{all_known, apply_named, apply_named_move, lemma_apply_named_len, ActionTable};
use crate::pieces::string_views;

verus! {

/// The position where the predecessor chain from `i` ends, with at most
/// `fuel` positions visited; `None` when the chain leaves the tables, has a
/// step without its action, or is longer.
pub open spec fn chain_end(ps: Seq<Option<usize>>, pa: Seq<Option<usize>>, i: int, fuel: nat) -> Option<int>
    decreases fuel,
{
    if fuel == 0 || i < 0 || i >= ps.len() {
        None
    } else {
        match ps[i] {
            None => Some(i),
            Some(n) => if i >= pa.len() || pa[i] is None {
                None
            } else {
                chain_end(ps, pa, n as int, (fuel - 1) as nat)
            },
        }
    }
}

/// The moves that undo sequence `s`: the inverse of each, last first.
pub open spec fn undo_seq(s: Seq<Seq<char>>) -> Seq<Seq<char>> {
    s.reverse().map_values(|m: Seq<char>| rev_move_spec(m))
}

/// The moves that undo, in turn, the sequences `seqs[a]` of the actions `acts`.
pub open spec fn undo_moves(seqs: Seq<Seq<Seq<char>>>, acts: Seq<usize>) -> Seq<Seq<char>>
    decreases acts.len(),
{
    if acts.len() == 0 {
        Seq::empty()
    } else {
        undo_moves(seqs, acts.drop_last()) + undo_seq(seqs[acts.last() as int])
    }
}

/// Every action names a sequence of `seqs`.
pub open spec fn acts_in(seqs: Seq<Seq<Seq<char>>>, acts: Seq<usize>) -> bool {
    forall|k: int| 0 <= k < acts.len() ==> #[trigger] acts[k] < seqs.len()
}

/// The path that `construct_path_from_bfs` plays from position `idx`: the
/// undoing moves along the chain, when the chain ends at a position of cost
/// 0 and names only sequences of `seqs`.
pub open spec fn bfs_path(
    ps: Seq<Option<usize>>,
    pa: Seq<Option<usize>>,
    cost: Seq<i32>,
    seqs: Seq<Seq<Seq<char>>>,
    idx: int,
) -> Option<Seq<Seq<char>>> {
    match (chain(ps, pa, idx, ps.len()), chain_end(ps, pa, idx, ps.len())) {
        (Some(acts), Some(end)) => if 0 <= end < cost.len() && cost[end] == 0 && acts_in(seqs, acts) {
            Some(undo_moves(seqs, acts))
        } else {
            None
        },
        _ => None,
    }
}

proof fn lemma_undo_prefix(seqs: Seq<Seq<Seq<char>>>, acts: Seq<usize>, i: int)
    requires
        0 <= i <= acts.len(),
    ensures
        undo_moves(seqs, acts.take(i)).len() <= undo_moves(seqs, acts).len(),
        forall|t: int|
            0 <= t < undo_moves(seqs, acts.take(i)).len() ==> #[trigger] undo_moves(seqs, acts)[t] == undo_moves(
                seqs,
                acts.take(i),
            )[t],
    decreases acts.len(),
{
    if i == acts.len() {
        assert(acts.take(i) =~= acts);
    } else {
        let d = acts.drop_last();
        assert(d.take(i) =~= acts.take(i));
        lemma_undo_prefix(seqs, d, i);
    }
}

proof fn lemma_chain_step(ps: Seq<Option<usize>>, pa: Seq<Option<usize>>, i: int, fuel: nat)
    requires
        fuel > 0,
        0 <= i < ps.len(),
        i < pa.len(),
        ps[i] is Some,
        pa[i] is Some,
    ensures
        chain_end(ps, pa, i, fuel) == chain_end(ps, pa, ps[i]->0 as int, (fuel - 1) as nat),
        chain(ps, pa, i, fuel) == match chain(ps, pa, ps[i]->0 as int, (fuel - 1) as nat) {
            Some(rest) => Some(seq![pa[i]->0] + rest),
            None => None,
        },
{
}

/// The actions along the predecessor chain from `start` and the position
/// where it ends.
fn follow_to_end(prev_state: &Vec<Option<usize>>, prev_action: &Vec<Option<usize>>, start: usize) -> (r: Option<(Vec<usize>, usize)>)
    ensures
        match r {
            Some((acts, end)) => chain(prev_state@, prev_action@, start as int, prev_state.len() as nat) == Some(acts@)
                && chain_end(prev_state@, prev_action@, start as int, prev_state.len() as nat) == Some(end as int),
            None => chain_end(prev_state@, prev_action@, start as int, prev_state.len() as nat) is None,
        },
{
    let ghost ps = prev_state@;
    let ghost pa = prev_action@;
    let ghost total = ps.len();
    let mut acts: Vec<usize> = Vec::new();
    let mut idx = start;
    let mut fuel = prev_state.len();
    proof {
        if chain(ps, pa, idx as int, fuel as nat) is Some {
            assert(acts@ + chain(ps, pa, idx as int, fuel as nat)->0 =~= chain(ps, pa, idx as int, fuel as nat)->0);
        }
    }
    while fuel > 0
        invariant
            ps == prev_state@,
            pa == prev_action@,
            total == ps.len(),
            chain_end(ps, pa, start as int, total) == chain_end(ps, pa, idx as int, fuel as nat),
            chain(ps, pa, start as int, total) is Some <==> chain(ps, pa, idx as int, fuel as nat) is Some,
            chain(ps, pa, idx as int, fuel as nat) is Some ==> chain(ps, pa, start as int, total) == Some(
                acts@ + chain(ps, pa, idx as int, fuel as nat)->0,
            ),
        decreases fuel,
    {
        if idx >= prev_state.len() {
            return None;
        }
        match prev_state[idx] {
            None => {
                assert(chain(ps, pa, idx as int, fuel as nat) == Some(Seq::<usize>::empty()));
                assert(acts@ + Seq::<usize>::empty() =~= acts@);
                return Some((acts, idx));
            },
            Some(n) => {
                if idx >= prev_action.len() {
                    return None;
                }
                match prev_action[idx] {
                    None => {
                        return None;
                    },
                    Some(a) => {
                        proof {
                            lemma_chain_step(ps, pa, idx as int, fuel as nat);
                            match chain(ps, pa, n as int, (fuel - 1) as nat) {
                                Some(rest) => {
                                    assert(acts@ + (seq![a] + rest) =~= acts@.push(a) + rest);
                                },
                                None => {},
                            }
                        }
                        acts.push(a);
                        idx = n;
                        fuel = fuel - 1;
                    },
                }
            },
        }
    }
    None
}

/// Plays the moves that undo `seq` (`undo_seq`); `false` when one of them
/// is missing from the table, and then some move of `undo_seq` is unknown.
pub(crate) fn undo_one(
    actions: &ActionTable,
    state: &mut Vec<usize>,
    moves: &mut Vec<String>,
    seq: &Vec<String>,
    Ghost(start): Ghost<Seq<usize>>,
) -> (ok: bool)
    requires
        actions.wf(),
        actions.fits(old(state).len() as nat),
        old(state)@ == apply_named(*actions, start, string_views(old(moves)@)),
        all_known(*actions, string_views(old(moves)@)),
    ensures
        final(state).len() == old(state).len(),
        final(state)@ == apply_named(*actions, start, string_views(final(moves)@)),
        all_known(*actions, string_views(final(moves)@)),
        ok ==> string_views(final(moves)@) == string_views(old(moves)@) + undo_seq(string_views(seq@)),
        !ok ==> !all_known(*actions, undo_seq(string_views(seq@))),
{
    let ghost sq = string_views(seq@);
    let ghost base = string_views(moves@);
    let mut j = seq.len();
    proof {
        assert(undo_seq(sq.subrange(j as int, sq.len() as int)) =~= Seq::<Seq<char>>::empty());
        assert(base + Seq::<Seq<char>>::empty() =~= base);
    }
    while j > 0
        invariant
            j <= seq.len(),
            sq == string_views(seq@),
            actions.wf(),
            actions.fits(state.len() as nat),
            state.len() == old(state).len(),
            state@ == apply_named(*actions, start, string_views(moves@)),
            all_known(*actions, string_views(moves@)),
            string_views(moves@) == base + undo_seq(sq.subrange(j as int, sq.len() as int)),
        decreases j,
    {
        j = j - 1;
        let inv = rev_move(&seq[j]);
        assert(sq[j as int] == seq@[j as int]@);
        let ghost before = string_views(moves@);
        if !apply_named_move(actions, state, moves, inv, Ghost(start)) {
            proof {
                assert(undo_seq(sq)[sq.len() - 1 - j] == rev_move_spec(sq[j as int]));
                assert(!all_known(*actions, undo_seq(sq)));
            }
            return false;
        }
        assert(undo_seq(sq.subrange(j as int, sq.len() as int)) =~= undo_seq(sq.subrange(j + 1, sq.len() as int)).push(
            rev_move_spec(sq[j as int]),
        ));
        assert(string_views(moves@) =~= before.push(rev_move_spec(sq[j as int])));
        assert(string_views(moves@) =~= base + undo_seq(sq.subrange(j as int, sq.len() as int)));
    }
    assert(sq.subrange(0, sq.len() as int) =~= sq);
    true
}

pub(crate) proof fn lemma_undo_unknown(t: ActionTable, seqs: Seq<Seq<Seq<char>>>, acts: Seq<usize>, k: int)
    requires
        0 <= k < acts.len(),
        !all_known(t, undo_seq(seqs[acts[k] as int])),
    ensures
        !all_known(t, undo_moves(seqs, acts)),
{
    let u = undo_seq(seqs[acts[k] as int]);
    let w = choose|w: int| 0 <= w < u.len() && !t.knows(#[trigger] u[w]);
    assert(acts.take(k + 1).drop_last() =~= acts.take(k));
    let pre = undo_moves(seqs, acts.take(k + 1));
    assert(pre == undo_moves(seqs, acts.take(k)) + u);
    let i = undo_moves(seqs, acts.take(k)).len() + w;
    assert(pre[i] == u[w]);
    lemma_undo_prefix(seqs, acts, k + 1);
    assert(undo_moves(seqs, acts)[i] == u[w]);
}

/// Follows the predecessor chain from `cur_state_idx` back to a position
/// of cost 0 and plays, from `cur_state`, the undoing moves of each
/// sequence on the way (`bfs_path`). Returns the state reached and the
/// moves; `None` when the chain does not end at cost 0, names a sequence
/// that is not there, or a move is missing from the table.
pub fn construct_path_from_bfs(
    cur_state: &Vec<usize>,
    actions: &ActionTable,
    prev_state: &Vec<Option<usize>>,
    prev_action: &Vec<Option<usize>>,
    cost_table: &Vec<i32>,
    moves: &Vec<Vec<String>>,
    cur_state_idx: usize,
) -> (r: Option<(Vec<usize>, Vec<String>)>)
    requires
        actions.wf(),
        actions.fits(cur_state.len() as nat),
    ensures
        match r {
            Some((s, m)) => bfs_path(prev_state@, prev_action@, cost_table@, seq_views(moves@), cur_state_idx as int)
                == Some(string_views(m@)) && s@ == apply_named(*actions, cur_state@, string_views(m@)) && all_known(
                *actions,
                string_views(m@),
            ),
            None => match bfs_path(prev_state@, prev_action@, cost_table@, seq_views(moves@), cur_state_idx as int) {
                Some(p) => !all_known(*actions, p),
                None => true,
            },
        },
{
    let ghost ps = prev_state@;
    let ghost pa = prev_action@;
    let ghost sv = seq_views(moves@);
    let (acts, end) = match follow_to_end(prev_state, prev_action, cur_state_idx) {
        Some(v) => v,
        None => {
            return None;
        },
    };
    if end >= cost_table.len() || cost_table[end] != 0 {
        return None;
    }
    let mut state = cur_state.clone();
    let mut moves_str: Vec<String> = Vec::new();
    let mut k: usize = 0;
    proof {
        assert(string_views(moves_str@) =~= undo_moves(sv, acts@.take(0)));
    }
    while k < acts.len()
        invariant
            k <= acts.len(),
            sv == seq_views(moves@),
            ps == prev_state@,
            pa == prev_action@,
            actions.wf(),
            actions.fits(state.len() as nat),
            state.len() == cur_state.len(),
            state@ == apply_named(*actions, cur_state@, string_views(moves_str@)),
            all_known(*actions, string_views(moves_str@)),
            acts_in(sv, acts@.take(k as int)),
            string_views(moves_str@) == undo_moves(sv, acts@.take(k as int)),
            chain(ps, pa, cur_state_idx as int, ps.len() as nat) == Some(acts@),
            chain_end(ps, pa, cur_state_idx as int, ps.len() as nat) == Some(end as int),
            end < cost_table.len(),
            cost_table@[end as int] == 0,
        decreases acts.len() - k,
    {
        let a = acts[k];
        if a >= moves.len() {
            proof {
                assert(!acts_in(sv, acts@)) by {
                    assert(acts@[k as int] == a);
                }
                assert(bfs_path(ps, pa, cost_table@, sv, cur_state_idx as int) is None);
            }
            return None;
        }
        assert(sv[a as int] == string_views(moves@[a as int]@));
        let ghost before = string_views(moves_str@);
        if !undo_one(actions, &mut state, &mut moves_str, &moves[a], Ghost(cur_state@)) {
            proof {
                if bfs_path(ps, pa, cost_table@, sv, cur_state_idx as int) is Some {
                    assert(bfs_path(ps, pa, cost_table@, sv, cur_state_idx as int) == Some(undo_moves(sv, acts@)));
                    assert(acts@[k as int] == a);
                    lemma_undo_unknown(*actions, sv, acts@, k as int);
                }
            }
            return None;
        }
        proof {
            assert(acts@.take(k + 1).drop_last() =~= acts@.take(k as int));
            assert(acts@.take(k + 1).last() == a);
            assert(string_views(moves_str@) == undo_moves(sv, acts@.take(k + 1)));
            assert(acts_in(sv, acts@.take(k + 1))) by {
                assert forall|j: int| 0 <= j < k + 1 implies #[trigger] acts@.take(k + 1)[j] < sv.len() by {
                    if j < k {
                        assert(acts@.take(k + 1)[j] == acts@.take(k as int)[j]);
                    }
                }
            }
        }
        k = k + 1;
    }
    assert(acts@.take(acts.len() as int) =~= acts@);
    Some((state, moves_str))
}

/// The places of the corner sequences kept for the left face.
pub open spec fn left_corner_filter() -> Seq<usize> {
    seq![0usize, 1, 2, 3, 4, 5, 8, 9, 10, 11, 12, 13, 14, 15, 16, 17, 18, 19, 32, 33, 34, 35, 36, 37]
}

/// `left_corner_filter`.
pub fn generate_sequence_filter_for_left_corner() -> (r: Vec<usize>)
    ensures
        r@ == left_corner_filter(),
{
    let r: Vec<usize> = vec![0, 1, 2, 3, 4, 5, 8, 9, 10, 11, 12, 13, 14, 15, 16, 17, 18, 19, 32, 33, 34, 35, 36, 37];
    assert(r@ =~= left_corner_filter());
    r
}

proof fn lemma_with_inverses_len(rs: Seq<Seq<Seq<char>>>)
    ensures
        with_inverses(rs).len() == 2 * rs.len(),
    decreases rs.len(),
{
    if rs.len() > 0 {
        lemma_with_inverses_len(rs.drop_last());
    }
}

proof fn lemma_four_edge_len(dim: int, y: int, x: int)
    ensures
        with_inverses(four_edge_base(dim, y, x)).len() == 140,
{
    assert(four_edge_base(dim, y, x).len() == 70);
    lemma_with_inverses_len(four_edge_base(dim, y, x));
}

/// The sequences of `base` at places `idxs`, in order.
pub open spec fn picked(base: Seq<Seq<Seq<char>>>, idxs: Seq<usize>) -> Seq<Seq<Seq<char>>> {
    idxs.map_values(|i: usize| base[i as int])
}

fn copy_sequence(s: &Vec<String>) -> (r: Vec<String>)
    ensures
        string_views(r@) == string_views(s@),
{
    let mut r: Vec<String> = Vec::new();
    let mut i: usize = 0;
    while i < s.len()
        invariant
            i <= s.len(),
            string_views(r@) == string_views(s@).take(i as int),
        decreases s.len() - i,
    {
        crate::cube_seq::append_move(&mut r, &s[i]);
        assert(string_views(r@) =~= string_views(s@).take(i + 1));
        i = i + 1;
    }
    assert(string_views(s@).take(s.len() as int) =~= string_views(s@));
    r
}

fn pick_sequences(base: &Vec<Vec<String>>, idxs: &Vec<usize>) -> (r: Vec<Vec<String>>)
    requires
        forall|k: int| 0 <= k < idxs.len() ==> #[trigger] idxs@[k] < base.len(),
    ensures
        seq_views(r@) == picked(seq_views(base@), idxs@),
{
    let mut res: Vec<Vec<String>> = Vec::new();
    let mut k: usize = 0;
    while k < idxs.len()
        invariant
            k <= idxs.len(),
            forall|j: int| 0 <= j < idxs.len() ==> #[trigger] idxs@[j] < base.len(),
            seq_views(res@) == picked(seq_views(base@), idxs@.take(k as int)),
        decreases idxs.len() - k,
    {
        let ghost before = seq_views(res@);
        let copy = copy_sequence(&base[idxs[k]]);
        assert(seq_views(base@)[idxs@[k as int] as int] == string_views(base@[idxs@[k as int] as int]@));
        res.push(copy);
        assert(seq_views(res@) =~= before.push(string_views(base@[idxs@[k as int] as int]@)));
        assert(seq_views(res@) =~= picked(seq_views(base@), idxs@.take(k + 1)));
        k = k + 1;
    }
    assert(idxs@.take(idxs.len() as int) =~= idxs@);
    res
}

/// The places of the edge sequences kept for the left face.
pub open spec fn left_edge_filter() -> Seq<usize> {
    seq![
        0usize, 1, 2, 3, 4, 5, 8, 9, 10, 11, 16, 17, 18, 19, 24, 25, 26, 27, 28, 29, 30, 31, 32, 33, 34, 35, 36, 37,
        38, 39, 44, 45, 46, 47, 52, 53, 54, 55, 104, 105, 106, 107, 108, 109, 110, 111, 120, 121, 122, 123, 124, 125,
        126, 127, 136, 137,
    ]
}

/// `left_edge_filter`.
pub fn generate_sequence_filter_for_left_edge() -> (r: Vec<usize>)
    ensures
        r@ == left_edge_filter(),
{
    let r: Vec<usize> = vec![
        0, 1, 2, 3, 4, 5, 8, 9, 10, 11, 16, 17, 18, 19, 24, 25, 26, 27, 28, 29, 30, 31, 32, 33, 34, 35, 36, 37,
        38, 39, 44, 45, 46, 47, 52, 53, 54, 55, 104, 105, 106, 107, 108, 109, 110, 111, 120, 121, 122, 123, 124, 125,
        126, 127, 136, 137,
    ];
    assert(r@ =~= left_edge_filter());
    r
}

/// The corner sequences of ring `pos` kept for the left face.
pub fn sequence_moves_left_corner(dim: usize, pos: usize) -> (r: Vec<Vec<String>>)
    requires
        pos < dim,
    ensures
        seq_views(r@) == picked(four_corner_sequences(dim as int, pos as int), left_corner_filter()),
{
    let base = sequence_moves_four_corner(dim, pos);
    let idxs = generate_sequence_filter_for_left_corner();
    assert(four_corner_sequences(dim as int, pos as int).len() == 44);
    assert forall|k: int| 0 <= k < idxs.len() implies #[trigger] idxs@[k] < base.len() by {
        assert(idxs@[k] <= 37);
    }
    pick_sequences(&base, &idxs)
}

/// The edge sequences at `(y, x)` kept for the left face.
#[verifier::rlimit(40)]
pub fn sequence_moves_left_edge(dim: usize, y: usize, x: usize) -> (r: Vec<Vec<String>>)
    requires
        y != x,
        y < dim,
        x < dim,
    ensures
        seq_views(r@) == picked(with_inverses(four_edge_base(dim as int, y as int, x as int)), left_edge_filter()),
{
    let base = sequence_moves_four_edge(dim, y, x);
    let idxs = generate_sequence_filter_for_left_edge();
    proof {
        lemma_four_edge_len(dim as int, y as int, x as int);
    }
    assert forall|k: int| 0 <= k < idxs.len() implies #[trigger] idxs@[k] < base.len() by {
        assert(idxs@[k] <= 137);
    }
    pick_sequences(&base, &idxs)
}

/// The places of the corner sequences kept for the back face.
pub open spec fn back_corner_filter() -> Seq<usize> {
    seq![
        0usize, 1, 2, 3, 4, 5, 6, 7, 8, 9, 10, 11, 12, 13, 14, 15, 16, 17, 18, 19, 20, 21, 22, 23, 24, 25, 26, 27, 28,
        29, 30, 31, 32, 33, 34, 35, 36, 37, 38, 39, 40, 41, 42, 43, 44, 45, 46, 47, 48, 49, 52, 53, 54, 55, 56, 57, 58,
        59, 60, 61, 62, 63, 76, 77, 78, 79, 80, 81, 90, 91, 92, 93, 94, 95, 102, 103, 104, 105, 106, 107, 108, 109, 110,
        111, 112, 113, 126, 127, 128, 129, 130, 131,
    ]
}

/// `back_corner_filter`.
pub fn generate_sequence_filter_for_back_corner() -> (r: Vec<usize>)
    ensures
        r@ == back_corner_filter(),
{
    let r: Vec<usize> = vec![
        0, 1, 2, 3, 4, 5, 6, 7, 8, 9, 10, 11, 12, 13, 14, 15, 16, 17, 18, 19, 20, 21, 22, 23, 24, 25, 26, 27, 28,
        29, 30, 31, 32, 33, 34, 35, 36, 37, 38, 39, 40, 41, 42, 43, 44, 45, 46, 47, 48, 49, 52, 53, 54, 55, 56, 57, 58,
        59, 60, 61, 62, 63, 76, 77, 78, 79, 80, 81, 90, 91, 92, 93, 94, 95, 102, 103, 104, 105, 106, 107, 108, 109, 110,
        111, 112, 113, 126, 127, 128, 129, 130, 131,
    ];
    assert(r@ =~= back_corner_filter());
    r
}

/// The places of the edge sequences kept for the back face.
pub open spec fn back_edge_filter() -> Seq<usize> {
    seq![
        0usize, 1, 2, 3, 4, 5, 6, 7, 8, 9, 10, 11, 12, 13, 14, 15, 16, 17, 18, 19, 20, 21, 22, 23, 24, 25, 26, 27, 28,
        29, 30, 31, 32, 33, 34, 35, 36, 37, 38, 39, 40, 41, 42, 43, 44, 45, 46, 47, 48, 49, 50, 51, 52, 53, 54, 55, 56,
        57, 58, 59, 60, 61, 62, 63, 64, 65, 66, 67, 68, 69, 70, 71, 72, 73, 74, 75, 76, 77, 78, 79, 80, 81, 82, 83, 84,
        85, 86, 87, 88, 89, 90, 91, 92, 93, 94, 95, 96, 97, 98, 99, 100, 101, 102, 103, 104, 105, 106, 107, 108, 109,
        110, 111, 112, 113, 114, 115, 116, 117, 118, 119, 120, 121, 122, 123, 124, 125, 126, 127, 128, 129, 130, 131,
        132, 133, 134, 135, 136, 137, 138, 139, 140, 141, 142, 143, 144, 145, 148, 149, 150, 151, 156, 157, 158, 159,
        164, 165, 166, 167, 168, 169, 170, 171, 172, 173, 174, 175, 176, 177, 178, 179, 184, 185, 186, 187, 192, 193,
        194, 195, 244, 245, 246, 247, 248, 249, 250, 251, 260, 261, 262, 263, 264, 265, 266, 267, 276, 277, 282, 283,
        284, 285, 286, 287, 304, 305, 306, 307, 312, 313, 314, 315, 320, 321, 322, 323, 324, 325, 326, 327, 328, 329,
        330, 331, 332, 333, 334, 335, 340, 341, 342, 343, 348, 349, 350, 351, 392, 393, 394, 395, 396, 397, 398, 399,
        408, 409, 410, 411, 412, 413, 414, 415, 418, 419,
    ]
}

/// `back_edge_filter`.
pub fn generate_sequence_filter_for_back_edge() -> (r: Vec<usize>)
    ensures
        r@ == back_edge_filter(),
{
    let r: Vec<usize> = vec![
        0, 1, 2, 3, 4, 5, 6, 7, 8, 9, 10, 11, 12, 13, 14, 15, 16, 17, 18, 19, 20, 21, 22, 23, 24, 25, 26, 27, 28,
        29, 30, 31, 32, 33, 34, 35, 36, 37, 38, 39, 40, 41, 42, 43, 44, 45, 46, 47, 48, 49, 50, 51, 52, 53, 54, 55, 56,
        57, 58, 59, 60, 61, 62, 63, 64, 65, 66, 67, 68, 69, 70, 71, 72, 73, 74, 75, 76, 77, 78, 79, 80, 81, 82, 83, 84,
        85, 86, 87, 88, 89, 90, 91, 92, 93, 94, 95, 96, 97, 98, 99, 100, 101, 102, 103, 104, 105, 106, 107, 108, 109,
        110, 111, 112, 113, 114, 115, 116, 117, 118, 119, 120, 121, 122, 123, 124, 125, 126, 127, 128, 129, 130, 131,
        132, 133, 134, 135, 136, 137, 138, 139, 140, 141, 142, 143, 144, 145, 148, 149, 150, 151, 156, 157, 158, 159,
        164, 165, 166, 167, 168, 169, 170, 171, 172, 173, 174, 175, 176, 177, 178, 179, 184, 185, 186, 187, 192, 193,
        194, 195, 244, 245, 246, 247, 248, 249, 250, 251, 260, 261, 262, 263, 264, 265, 266, 267, 276, 277, 282, 283,
        284, 285, 286, 287, 304, 305, 306, 307, 312, 313, 314, 315, 320, 321, 322, 323, 324, 325, 326, 327, 328, 329,
        330, 331, 332, 333, 334, 335, 340, 341, 342, 343, 348, 349, 350, 351, 392, 393, 394, 395, 396, 397, 398, 399,
        408, 409, 410, 411, 412, 413, 414, 415, 418, 419,
    ];
    assert(r@ =~= back_edge_filter());
    r
}

/// Playing `a` and then `b` is playing `a + b`.
pub proof fn lemma_apply_named_concat(t: ActionTable, s: Seq<usize>, a: Seq<Seq<char>>, b: Seq<Seq<char>>)
    ensures
        apply_named(t, s, a + b) == apply_named(t, apply_named(t, s, a), b),
    decreases b.len(),
{
    if b.len() == 0 {
        assert(a + b =~= a);
    } else {
        assert((a + b).drop_last() =~= a + b.drop_last());
        assert((a + b).last() == b.last());
        lemma_apply_named_concat(t, s, a, b.drop_last());
    }
}

/// Whether every entry of the move is a place of it (`move_closed`).
fn is_closed(perm: &Vec<usize>) -> (b: bool)
    ensures
        b == move_closed(perm@),
{
    let mut i: usize = 0;
    while i < perm.len()
        invariant
            i <= perm.len(),
            forall|j: int| 0 <= j < i ==> #[trigger] perm@[j] < perm.len(),
        decreases perm.len() - i,
    {
        if perm[i] >= perm.len() {
            assert(!move_closed(perm@));
            return false;
        }
        i = i + 1;
    }
    true
}

/// Whether every move of a one-face search table is well formed (`face_moves_ok`).
#[verifier::spinoff_prover]
pub fn face_moves_fit(face_moves: &Vec<(Vec<usize>, usize, i32)>) -> (b: bool)
    ensures
        b == face_moves_ok(face_moves_view(face_moves@)),
{
    let ghost ms = face_moves_view(face_moves@);
    let mut k: usize = 0;
    while k < face_moves.len()
        invariant
            k <= face_moves.len(),
            ms == face_moves_view(face_moves@),
            forall|j: int| 0 <= j < k ==> {
                &&& move_closed(#[trigger] ms[j].0)
                &&& ms[j].1 < 4
                &&& ms[j].2 >= 1
            },
        decreases face_moves.len() - k,
    {
        assert(ms[k as int] == (face_moves@[k as int].0@, face_moves@[k as int].1, face_moves@[k as int].2));
        let closed = is_closed(&face_moves[k].0);
        if face_moves[k].1 >= 4 || face_moves[k].2 < 1 || !closed {
            proof {
                let m = ms[k as int];
                assert(m.0 == face_moves@[k as int].0@);
                assert(m.1 == face_moves@[k as int].1);
                assert(m.2 == face_moves@[k as int].2);
                assert(!(move_closed(m.0) && m.1 < 4 && m.2 >= 1));
                assert(!face_moves_ok(ms));
            }
            return false;
        }
        proof {
            let m = ms[k as int];
            assert(m.0 == face_moves@[k as int].0@);
            assert(m.1 == face_moves@[k as int].1);
            assert(m.2 == face_moves@[k as int].2);
            assert(move_closed(m.0));
            assert(m.1 < 4);
            assert(m.2 >= 1);
            assert forall|j: int| 0 <= j < k + 1 implies {
                &&& move_closed(#[trigger] ms[j].0)
                &&& ms[j].1 < 4
                &&& ms[j].2 >= 1
            } by {
                if j == k {
                    assert(ms[j] == m);
                }
            }
        }
        k = k + 1;
    }
    assert(ms.len() == face_moves@.len());
    assert(k == face_moves.len());
    assert forall|j: int| 0 <= j < ms.len() implies {
        &&& move_closed(#[trigger] ms[j].0)
        &&& ms[j].1 < 4
        &&& ms[j].2 >= 1
    } by {
        assert(j < k);
    }
    assert(face_moves_ok(ms));
    true
}

/// The corner targets of ring `pos` on faces `faces`.
fn distinct_targets(dim: usize, pos: usize, faces: &Vec<usize>, Ghost(cur): Ghost<Seq<usize>>, Ghost(sol): Ghost<Seq<usize>>) -> (r: Vec<usize>)
    requires
        cube_states(cur, sol, dim as int),
        pos < dim,
        forall|k: int| 0 <= k < faces.len() ==> #[trigger] faces@[k] < 6,
    ensures
        targets_in(r@, cur, sol),
        r.len() == 4 * faces.len(),
        same_ints(r@, corner_targets(dim as int, pos as int, faces@)),
{
    proof {
        lemma_cube_faces_fit(dim as int);
        assert forall|k: int| 0 <= k < faces.len() implies face_fits(dim as int, #[trigger] faces@[k] as int) by {
            assert(faces@[k] < 6);
        }
        lemma_corner_targets_bound(dim as int, pos as int, faces@);
    }
    let r = target_idx_corner_distinct(dim, pos, faces);
    assert forall|k: int| 0 <= k < r.len() implies #[trigger] r@[k] < cur.len() && r@[k] < sol.len() by {
        assert(r@[k] as int == corner_targets(dim as int, pos as int, faces@)[k]);
    }
    r
}

/// The faces tracked for the up face: 0, 2, 4, 5.
pub open spec fn up_faces() -> Seq<usize> {
    seq![0usize, 2, 4, 5]
}

/// The faces tracked for the left face: 2, 4, 5.
pub open spec fn left_faces() -> Seq<usize> {
    seq![2usize, 4, 5]
}

/// The four places `a` to `a + 3` of a ring in a one-face search.
pub open spec fn ring_places(a: usize) -> Seq<usize> {
    seq![a, (a + 1) as usize, (a + 2) as usize, (a + 3) as usize]
}

/// `m` is what a one-face search gives for the ring whose stickers are
/// `cells`: `tables` are the search's tables (`face_result`, without
/// turns), `target` the cells as indexes, `i` the place of the ring's
/// arrangement of the pieces at `pos`, and `m` the undoing moves of the
/// sequences on the chain from `i` (`bfs_path`).
pub open spec fn ring_path_played(
    cur: Seq<usize>,
    sol: Seq<usize>,
    cells: Seq<int>,
    pos: Seq<usize>,
    places: (Seq<Seq<usize>>, Map<u32, usize>),
    starts: Seq<(Seq<usize>, usize)>,
    fm: Seq<(Seq<usize>, usize, i32)>,
    seqs: Seq<Seq<Seq<char>>>,
    tables: (Vec<Option<usize>>, Vec<Option<usize>>, Vec<i32>),
    target: Seq<usize>,
    i: usize,
    m: Seq<Seq<char>>,
) -> bool {
    &&& face_result(places.0, places.1, 1, fm, starts, Some(tables))
    &&& same_ints(target, cells)
    &&& face_place(cur, sol, target, pos, places.1) == Some(i)
    &&& bfs_path(tables.0@, tables.1@, tables.2@, seqs, i as int) == Some(m)
}

/// Why a first ring fails once the search tables `tables` are built: the
/// ring's arrangement has no place, or the chain from its place does not
/// end at cost 0, names a sequence that is not there, or asks for a move
/// that the table `t` does not know.
pub open spec fn ring_path_fails(
    t: ActionTable,
    cur: Seq<usize>,
    sol: Seq<usize>,
    cells: Seq<int>,
    pos: Seq<usize>,
    places: (Seq<Seq<usize>>, Map<u32, usize>),
    starts: Seq<(Seq<usize>, usize)>,
    fm: Seq<(Seq<usize>, usize, i32)>,
    seqs: Seq<Seq<Seq<char>>>,
    tables: (Vec<Option<usize>>, Vec<Option<usize>>, Vec<i32>),
) -> bool {
    &&& face_result(places.0, places.1, 1, fm, starts, Some(tables))
    &&& match face_place(cur, sol, as_places(cells), pos, places.1) {
        Some(i) => match bfs_path(tables.0@, tables.1@, tables.2@, seqs, i as int) {
            Some(m) => !all_known(t, m),
            None => true,
        },
        None => true,
    }
}

/// Solves the corner ring `dim / 2 - 1` of the up face (faces 0, 2, 4, 5
/// tracked) from the search without turns: the moves played and the state
/// they lead to. `None` when the search table is malformed or the search
/// fails, the ring's arrangement has no place, or the path cannot be played.
pub fn solve_up_first_corner(
    cur_state: &Vec<usize>,
    sol_state: &Vec<usize>,
    actions: &ActionTable,
    dim: usize,
    face_moves: &Vec<(Vec<usize>, usize, i32)>,
) -> (r: Option<(Vec<usize>, Vec<String>)>)
    requires
        actions.wf(),
        actions.fits(cur_state.len() as nat),
        cube_states(cur_state@, sol_state@, dim as int),
        dim >= 2,
    ensures
        r matches Some((s, m)) ==> on_track(*actions, cur_state@, s@, m@) && exists|
            tables: (Vec<Option<usize>>, Vec<Option<usize>>, Vec<i32>),
            target: Seq<usize>,
            i: usize,
        |
            #[trigger] ring_path_played(
                cur_state@,
                sol_state@,
                corner_targets(dim as int, dim / 2 - 1, up_faces()),
                ring_places(0),
                places_of(16),
                face_starts(0, 1, 2, 3),
                face_moves_view(face_moves@),
                four_corner_sequences(dim as int, dim / 2 - 1),
                tables,
                target,
                i,
                string_views(m@),
            ),
        r is None ==> !face_moves_ok(face_moves_view(face_moves@)) || face_result(
            places_of(16).0,
            places_of(16).1,
            1,
            face_moves_view(face_moves@),
            face_starts(0, 1, 2, 3),
            None,
        ) || exists|tables: (Vec<Option<usize>>, Vec<Option<usize>>, Vec<i32>)|
            #[trigger] ring_path_fails(
                *actions,
                cur_state@,
                sol_state@,
                corner_targets(dim as int, dim / 2 - 1, up_faces()),
                ring_places(0),
                places_of(16),
                face_starts(0, 1, 2, 3),
                face_moves_view(face_moves@),
                four_corner_sequences(dim as int, dim / 2 - 1),
                tables,
            ),
{
    if !face_moves_fit(face_moves) {
        return None;
    }
    let (_, perm_map) = gen_perm_map_up_corner();
    let (prev_state, prev_action, cost_table) = match bfs_up_impl(face_moves, false) {
        Some(t) => t,
        None => {
            return None;
        },
    };
    let pos = dim / 2 - 1;
    let faces: Vec<usize> = vec![0, 2, 4, 5];
    let target_idx = distinct_targets(dim, pos, &faces, Ghost(cur_state@), Ghost(sol_state@));
    let moves = sequence_moves_four_corner(dim, pos);
    let state_idx = match calc_permutation_idx_up(cur_state, sol_state, &perm_map, &target_idx) {
        Some(i) => i,
        None => {
            proof {
                lemma_as_places(target_idx@, corner_targets(dim as int, dim / 2 - 1, faces@));
                assert(ring_places(0) =~= seq![0usize, 1, 2, 3]);
                assert(up_faces() =~= faces@);
                assert(perm_map@ == places_of(16).1);
                assert(ring_path_fails(
                    *actions,
                    cur_state@,
                    sol_state@,
                    corner_targets(dim as int, dim / 2 - 1, up_faces()),
                    ring_places(0),
                    places_of(16),
                    face_starts(0, 1, 2, 3),
                    face_moves_view(face_moves@),
                    four_corner_sequences(dim as int, dim / 2 - 1),
                    (prev_state, prev_action, cost_table),
                ));
            }
            return None;
        },
    };
    let r = construct_path_from_bfs(cur_state, actions, &prev_state, &prev_action, &cost_table, &moves, state_idx);
    proof {
        assert(ring_places(0) =~= seq![0usize, 1, 2, 3]);
        assert(up_faces() =~= faces@);
        assert(perm_map@ == places_of(16).1);
        lemma_as_places(target_idx@, corner_targets(dim as int, dim / 2 - 1, faces@));
        if r is None {
            assert(ring_path_fails(
                *actions,
                cur_state@,
                sol_state@,
                corner_targets(dim as int, dim / 2 - 1, up_faces()),
                ring_places(0),
                places_of(16),
                face_starts(0, 1, 2, 3),
                face_moves_view(face_moves@),
                four_corner_sequences(dim as int, dim / 2 - 1),
                (prev_state, prev_action, cost_table),
            ));
        }
        if r is Some {
            let pair = r->0;
            let m = pair.1;
            assert(ring_path_played(
                cur_state@,
                sol_state@,
                corner_targets(dim as int, dim / 2 - 1, up_faces()),
                ring_places(0),
                places_of(16),
                face_starts(0, 1, 2, 3),
                face_moves_view(face_moves@),
                four_corner_sequences(dim as int, dim / 2 - 1),
                (prev_state, prev_action, cost_table),
                target_idx@,
                state_idx,
                string_views(m@),
            ));
        }
    }
    r
}

/// Solves the corner rings `dim / 2 - 2` down to 1 of the up face from the
/// search with turns, the up face's turn read from its inner ring: the
/// moves played, ring after ring, and the state they lead to. `None` as
/// for `solve_up_first_corner`.
pub fn solve_up_corner(
    cur_state: &Vec<usize>,
    sol_state: &Vec<usize>,
    actions: &ActionTable,
    dim: usize,
    face_moves: &Vec<(Vec<usize>, usize, i32)>,
) -> (r: Option<(Vec<usize>, Vec<String>)>)
    requires
        actions.wf(),
        actions.fits(cur_state.len() as nat),
        cube_states(cur_state@, sol_state@, dim as int),
        dim >= 2,
    ensures
        r matches Some((s, m)) ==> on_track(*actions, cur_state@, s@, m@) && exists|
            tables: (Vec<Option<usize>>, Vec<Option<usize>>, Vec<i32>),
        |
            #[trigger] face_ring_tables(true, face_moves_view(face_moves@), tables) && string_views(m@) == face_ring_stage(
                *actions,
                true,
                places_of(16).1,
                tables.0@,
                tables.1@,
                tables.2@,
                cur_state@,
                sol_state@,
                dim as int,
                dim / 2 - 2,
            )->0,
        r is None ==> face_rings_fail(*actions, true, face_moves_view(face_moves@), cur_state@, sol_state@, dim as int),
{
    corner_rings(cur_state, sol_state, actions, dim, face_moves, true)
}

/// The cells as places.
pub open spec fn as_places(cells: Seq<int>) -> Seq<usize> {
    cells.map_values(|c: int| c as usize)
}

/// The sequences of the rings of the up face (`up`) or the left face.
pub open spec fn face_ring_sequences(up: bool, dim: int, pos: int) -> Seq<Seq<Seq<char>>> {
    if up {
        four_corner_sequences(dim, pos)
    } else {
        picked(four_corner_sequences(dim, pos), left_corner_filter())
    }
}

/// One ring `pos` of the up face (`up`) or the left face from `state`:
/// the place of the ring's arrangement and the face's turn (of face 0 or
/// 4) give the position, whose chain in the tables (`bfs_path`) gives the
/// moves. `None` when the place is missing or too large, the chain fails,
/// or a move is unknown.
pub open spec fn face_ring_step(
    t: ActionTable,
    up: bool,
    map: Map<u32, usize>,
    ps: Seq<Option<usize>>,
    pa: Seq<Option<usize>>,
    cost: Seq<i32>,
    state: Seq<usize>,
    sol: Seq<usize>,
    dim: int,
    pos: int,
) -> Option<Seq<Seq<char>>> {
    let faces = if up { up_faces() } else { left_faces() };
    let first = if up { 0usize } else { 4usize };
    let face = if up { 0int } else { 4int };
    match face_place(state, sol, as_places(corner_targets(dim, pos, faces)), ring_places(first), map) {
        Some(p) => if p >= usize::MAX / 4 {
            None
        } else {
            match bfs_path(ps, pa, cost, face_ring_sequences(up, dim, pos), p * 4 + face_rot_spec(state, sol, dim, face)) {
                Some(m) => if all_known(t, m) {
                    Some(m)
                } else {
                    None
                },
                None => None,
            }
        },
        None => None,
    }
}

/// The rings `pos` down to 1, each from the state the ones before leave.
#[verifier::opaque]
pub open spec fn face_ring_stage(
    t: ActionTable,
    up: bool,
    map: Map<u32, usize>,
    ps: Seq<Option<usize>>,
    pa: Seq<Option<usize>>,
    cost: Seq<i32>,
    state: Seq<usize>,
    sol: Seq<usize>,
    dim: int,
    pos: int,
) -> Option<Seq<Seq<char>>>
    decreases pos,
{
    if pos < 1 {
        Some(Seq::empty())
    } else {
        match face_ring_step(t, up, map, ps, pa, cost, state, sol, dim, pos) {
            Some(m) => then_moves(m, face_ring_stage(t, up, map, ps, pa, cost, apply_named(t, state, m), sol, dim, pos - 1)),
            None => None,
        }
    }
}

proof fn lemma_face_ring_stage(
    t: ActionTable,
    up: bool,
    map: Map<u32, usize>,
    ps: Seq<Option<usize>>,
    pa: Seq<Option<usize>>,
    cost: Seq<i32>,
    s: Seq<usize>,
    sol: Seq<usize>,
    dim: int,
    pos: int,
)
    ensures
        pos < 1 ==> face_ring_stage(t, up, map, ps, pa, cost, s, sol, dim, pos) == Some(Seq::<Seq<char>>::empty()),
        pos >= 1 ==> face_ring_stage(t, up, map, ps, pa, cost, s, sol, dim, pos) == match face_ring_step(t, up, map, ps, pa, cost, s, sol, dim, pos) {
            Some(m) => then_moves(m, face_ring_stage(t, up, map, ps, pa, cost, apply_named(t, s, m), sol, dim, pos - 1)),
            None => None,
        },
{
    reveal(face_ring_stage);
}

proof fn lemma_then_assoc(done: Seq<Seq<char>>, m: Seq<Seq<char>>, rest: Option<Seq<Seq<char>>>)
    ensures
        then_moves(done, then_moves(m, rest)) == then_moves(done + m, rest),
{
    match rest {
        Some(r) => {
            assert(done + (m + r) =~= (done + m) + r);
        },
        None => {},
    }
}

proof fn lemma_as_places(t: Seq<usize>, cells: Seq<int>)
    requires
        same_ints(t, cells),
    ensures
        t == as_places(cells),
{
    assert forall|k: int| 0 <= k < t.len() implies t[k] == as_places(cells)[k] by {
        assert(t[k] as int == cells[k]);
    }
    assert(t =~= as_places(cells));
}

/// The rings `dim / 2 - 2` down to 1 of the up face (`up`) or the left
/// face with the given tables (`face_ring_stage`); `None` exactly when the
/// stage fails.
pub fn face_rings_with(
    cur_state: &Vec<usize>,
    sol_state: &Vec<usize>,
    actions: &ActionTable,
    dim: usize,
    up: bool,
    perm_map: &std::collections::HashMap<u32, usize>,
    prev_state: &Vec<Option<usize>>,
    prev_action: &Vec<Option<usize>>,
    cost_table: &Vec<i32>,
) -> (r: Option<(Vec<usize>, Vec<String>)>)
    requires
        actions.wf(),
        actions.fits(cur_state.len() as nat),
        cube_states(cur_state@, sol_state@, dim as int),
        dim >= 2,
    ensures
        r is Some <==> face_ring_stage(*actions, up, perm_map@, prev_state@, prev_action@, cost_table@, cur_state@, sol_state@, dim as int, dim / 2 - 2) is Some,
        r matches Some((s, m)) ==> on_track(*actions, cur_state@, s@, m@) && string_views(m@) == face_ring_stage(
            *actions,
            up,
            perm_map@,
            prev_state@,
            prev_action@,
            cost_table@,
            cur_state@,
            sol_state@,
            dim as int,
            dim / 2 - 2,
        )->0,
{
    let ghost map = perm_map@;
    let ghost ps = prev_state@;
    let ghost pa = prev_action@;
    let ghost ct = cost_table@;
    let ghost total = face_ring_stage(*actions, up, map, ps, pa, ct, cur_state@, sol_state@, dim as int, dim / 2 - 2);
    let faces: Vec<usize> = if up { vec![0, 2, 4, 5] } else { vec![2, 4, 5] };
    let face: usize = if up { 0 } else { 4 };
    proof {
        if up {
            assert(faces@ =~= up_faces());
        } else {
            assert(faces@ =~= left_faces());
        }
    }
    let mut state = cur_state.clone();
    let mut moves_str: Vec<String> = Vec::new();
    let ghost mut done: Seq<Seq<char>> = Seq::empty();
    proof {
        assert(state@ =~= cur_state@);
        assert(string_views(moves_str@) =~= Seq::<Seq<char>>::empty());
        match total {
            Some(r) => {
                assert(Seq::<Seq<char>>::empty() + r =~= r);
            },
            None => {},
        }
    }
    if dim / 2 < 2 {
        proof {
            lemma_face_ring_stage(*actions, up, map, ps, pa, ct, cur_state@, sol_state@, dim as int, dim / 2 - 2);
        }
        return Some((state, moves_str));
    }
    let mut pos = dim / 2 - 1;
    while pos > 1
        invariant
            1 <= pos <= dim / 2 - 1,
            dim >= 2,
            actions.wf(),
            actions.fits(state.len() as nat),
            state.len() == cur_state.len(),
            cube_states(state@, sol_state@, dim as int),
            forall|k: int| 0 <= k < faces.len() ==> #[trigger] faces@[k] < 6,
            faces.len() == (if up { 4int } else { 3int }),
            faces@ == (if up { up_faces() } else { left_faces() }),
            face == (if up { 0usize } else { 4usize }),
            map == perm_map@,
            ps == prev_state@,
            pa == prev_action@,
            ct == cost_table@,
            total == face_ring_stage(*actions, up, map, ps, pa, ct, cur_state@, sol_state@, dim as int, dim / 2 - 2),
            on_track(*actions, cur_state@, state@, moves_str@),
            string_views(moves_str@) == done,
            then_moves(done, face_ring_stage(*actions, up, map, ps, pa, ct, state@, sol_state@, dim as int, pos - 1)) == total,
        decreases pos,
    {
        pos = pos - 1;
        let ghost s0 = state@;
        proof {
            lemma_face_ring_stage(*actions, up, map, ps, pa, ct, s0, sol_state@, dim as int, pos as int);
        }
        let target_idx = distinct_targets(dim, pos, &faces, Ghost(state@), Ghost(sol_state@));
        proof {
            lemma_as_places(target_idx@, corner_targets(dim as int, pos as int, faces@));
            if up {
                assert(ring_places(0) =~= seq![0usize, 1, 2, 3]);
            } else {
                assert(ring_places(4) =~= seq![4usize, 5, 6, 7]);
            }
        }
        let found = if up {
            calc_permutation_idx_up(&state, sol_state, perm_map, &target_idx)
        } else {
            calc_permutation_idx_left(&state, sol_state, perm_map, &target_idx)
        };
        let perm_idx = match found {
            Some(i) => i,
            None => {
                proof {
                    assert(total is None);
                }
                return None;
            },
        };
        proof {
            lemma_cube_faces_fit(dim as int);
            assert((face + 1) * dim * dim <= 6 * dim * dim) by (nonlinear_arith)
                requires
                    face < 6,
            ;
        }
        let rot0 = calc_face_rot(&state, sol_state, dim, face);
        if perm_idx >= usize::MAX / 4 {
            proof {
                assert(total is None);
            }
            return None;
        }
        let state_idx = perm_idx * 4 + rot0;
        let moves = if up { sequence_moves_four_corner(dim, pos) } else { sequence_moves_left_corner(dim, pos) };
        let (last_state, m) = match construct_path_from_bfs(&state, actions, prev_state, prev_action, cost_table, &moves, state_idx) {
            Some(v) => v,
            None => {
                proof {
                    assert(face_ring_step(*actions, up, map, ps, pa, ct, s0, sol_state@, dim as int, pos as int) is None);
                    assert(total is None);
                }
                return None;
            },
        };
        proof {
            lemma_apply_named_concat(*actions, cur_state@, string_views(moves_str@), string_views(m@));
            lemma_apply_named_len(*actions, state@, string_views(m@));
        }
        let ghost before = moves_str@;
        let ghost added = m@;
        let mut m = m;
        moves_str.append(&mut m);
        proof {
            assert(string_views(moves_str@) =~= string_views(before) + string_views(added));
            let mm = string_views(added);
            assert(face_ring_step(*actions, up, map, ps, pa, ct, s0, sol_state@, dim as int, pos as int) == Some(mm));
            lemma_then_assoc(done, mm, face_ring_stage(*actions, up, map, ps, pa, ct, last_state@, sol_state@, dim as int, pos - 1));
            done = done + mm;
        }
        state = last_state;
    }
    proof {
        lemma_face_ring_stage(*actions, up, map, ps, pa, ct, state@, sol_state@, dim as int, pos - 1);
        assert(done + Seq::<Seq<char>>::empty() =~= done);
    }
    Some((state, moves_str))
}

/// The search tables of the ring stages of the up face (`up`) or the left
/// face, as the one-face search with turns gives them.
pub open spec fn face_ring_tables(
    up: bool,
    fm: Seq<(Seq<usize>, usize, i32)>,
    tables: (Vec<Option<usize>>, Vec<Option<usize>>, Vec<i32>),
) -> bool {
    if up {
        face_result(places_of(16).0, places_of(16).1, 4, fm, face_starts(0, 1, 2, 3), Some(tables))
    } else {
        face_result(places_of(12).0, places_of(12).1, 4, fm, face_starts(4, 5, 6, 7), Some(tables))
    }
}

/// Why the ring stage of the up face (`up`) or the left face fails: the
/// move table is malformed, the search fails, or the stage fails over the
/// tables it builds.
pub open spec fn face_rings_fail(
    t: ActionTable,
    up: bool,
    fm: Seq<(Seq<usize>, usize, i32)>,
    cur: Seq<usize>,
    sol: Seq<usize>,
    dim: int,
) -> bool {
    let places = if up { places_of(16) } else { places_of(12) };
    let starts = if up { face_starts(0, 1, 2, 3) } else { face_starts(4, 5, 6, 7) };
    ||| !face_moves_ok(fm)
    ||| face_result(places.0, places.1, 4, fm, starts, None)
    ||| exists|tables: (Vec<Option<usize>>, Vec<Option<usize>>, Vec<i32>)|
        #[trigger] face_ring_tables(up, fm, tables) && face_ring_stage(t, up, places.1, tables.0@, tables.1@, tables.2@, cur, sol, dim, dim / 2 - 2) is None
}

/// The rings `dim / 2 - 2` down to 1 of the up face (`up`) or the left face.
fn corner_rings(
    cur_state: &Vec<usize>,
    sol_state: &Vec<usize>,
    actions: &ActionTable,
    dim: usize,
    face_moves: &Vec<(Vec<usize>, usize, i32)>,
    up: bool,
) -> (r: Option<(Vec<usize>, Vec<String>)>)
    requires
        actions.wf(),
        actions.fits(cur_state.len() as nat),
        cube_states(cur_state@, sol_state@, dim as int),
        dim >= 2,
    ensures
        r matches Some((s, m)) ==> on_track(*actions, cur_state@, s@, m@) && exists|
            tables: (Vec<Option<usize>>, Vec<Option<usize>>, Vec<i32>),
        |
            #[trigger] face_ring_tables(up, face_moves_view(face_moves@), tables) && string_views(m@) == face_ring_stage(
                *actions,
                up,
                if up { places_of(16).1 } else { places_of(12).1 },
                tables.0@,
                tables.1@,
                tables.2@,
                cur_state@,
                sol_state@,
                dim as int,
                dim / 2 - 2,
            )->0,
        r is None ==> face_rings_fail(*actions, up, face_moves_view(face_moves@), cur_state@, sol_state@, dim as int),
{
    if !face_moves_fit(face_moves) {
        return None;
    }
    let (perm_list, perm_map) = if up { gen_perm_map_up_corner() } else { gen_perm_map_left_corner() };
    let tables = if up { bfs_up_impl(face_moves, true) } else { bfs_left_impl(face_moves, true) };
    let (prev_state, prev_action, cost_table) = match tables {
        Some(t) => t,
        None => {
            return None;
        },
    };
    let r = face_rings_with(cur_state, sol_state, actions, dim, up, &perm_map, &prev_state, &prev_action, &cost_table);
    proof {
        if up {
            assert(perm_map@ == places_of(16).1);
        } else {
            assert(perm_map@ == places_of(12).1);
        }
        assert(face_ring_tables(up, face_moves_view(face_moves@), (prev_state, prev_action, cost_table)));
        if r is None {
            assert(face_rings_fail(*actions, up, face_moves_view(face_moves@), cur_state@, sol_state@, dim as int));
        }
    }
    r
}

/// Solves the corner ring `dim / 2 - 1` of the left face (faces 2, 4, 5
/// tracked) from the search without turns: the moves played and the state
/// they lead to. `None` as for `solve_up_first_corner`.
pub fn solve_left_first_corner(
    cur_state: &Vec<usize>,
    sol_state: &Vec<usize>,
    actions: &ActionTable,
    dim: usize,
    face_moves: &Vec<(Vec<usize>, usize, i32)>,
) -> (r: Option<(Vec<usize>, Vec<String>)>)
    requires
        actions.wf(),
        actions.fits(cur_state.len() as nat),
        cube_states(cur_state@, sol_state@, dim as int),
        dim >= 2,
    ensures
        r matches Some((s, m)) ==> on_track(*actions, cur_state@, s@, m@) && exists|
            tables: (Vec<Option<usize>>, Vec<Option<usize>>, Vec<i32>),
            target: Seq<usize>,
            i: usize,
        |
            #[trigger] ring_path_played(
                cur_state@,
                sol_state@,
                corner_targets(dim as int, dim / 2 - 1, left_faces()),
                ring_places(4),
                places_of(12),
                face_starts(4, 5, 6, 7),
                face_moves_view(face_moves@),
                picked(four_corner_sequences(dim as int, dim / 2 - 1), left_corner_filter()),
                tables,
                target,
                i,
                string_views(m@),
            ),
        r is None ==> !face_moves_ok(face_moves_view(face_moves@)) || face_result(
            places_of(12).0,
            places_of(12).1,
            1,
            face_moves_view(face_moves@),
            face_starts(4, 5, 6, 7),
            None,
        ) || exists|tables: (Vec<Option<usize>>, Vec<Option<usize>>, Vec<i32>)|
            #[trigger] ring_path_fails(
                *actions,
                cur_state@,
                sol_state@,
                corner_targets(dim as int, dim / 2 - 1, left_faces()),
                ring_places(4),
                places_of(12),
                face_starts(4, 5, 6, 7),
                face_moves_view(face_moves@),
                picked(four_corner_sequences(dim as int, dim / 2 - 1), left_corner_filter()),
                tables,
            ),
{
    if !face_moves_fit(face_moves) {
        return None;
    }
    let (_, perm_map) = gen_perm_map_left_corner();
    let (prev_state, prev_action, cost_table) = match bfs_left_impl(face_moves, false) {
        Some(t) => t,
        None => {
            return None;
        },
    };
    let pos = dim / 2 - 1;
    let faces: Vec<usize> = vec![2, 4, 5];
    let target_idx = distinct_targets(dim, pos, &faces, Ghost(cur_state@), Ghost(sol_state@));
    let moves = sequence_moves_left_corner(dim, pos);
    let state_idx = match calc_permutation_idx_left(cur_state, sol_state, &perm_map, &target_idx) {
        Some(i) => i,
        None => {
            proof {
                lemma_as_places(target_idx@, corner_targets(dim as int, dim / 2 - 1, faces@));
                assert(ring_places(4) =~= seq![4usize, 5, 6, 7]);
                assert(left_faces() =~= faces@);
                assert(perm_map@ == places_of(12).1);
                assert(ring_path_fails(
                    *actions,
                    cur_state@,
                    sol_state@,
                    corner_targets(dim as int, dim / 2 - 1, left_faces()),
                    ring_places(4),
                    places_of(12),
                    face_starts(4, 5, 6, 7),
                    face_moves_view(face_moves@),
                    picked(four_corner_sequences(dim as int, dim / 2 - 1), left_corner_filter()),
                    (prev_state, prev_action, cost_table),
                ));
            }
            return None;
        },
    };
    let r = construct_path_from_bfs(cur_state, actions, &prev_state, &prev_action, &cost_table, &moves, state_idx);
    proof {
        assert(ring_places(4) =~= seq![4usize, 5, 6, 7]);
        assert(left_faces() =~= faces@);
        assert(perm_map@ == places_of(12).1);
        lemma_as_places(target_idx@, corner_targets(dim as int, dim / 2 - 1, faces@));
        if r is None {
            assert(ring_path_fails(
                *actions,
                cur_state@,
                sol_state@,
                corner_targets(dim as int, dim / 2 - 1, left_faces()),
                ring_places(4),
                places_of(12),
                face_starts(4, 5, 6, 7),
                face_moves_view(face_moves@),
                picked(four_corner_sequences(dim as int, dim / 2 - 1), left_corner_filter()),
                (prev_state, prev_action, cost_table),
            ));
        }
        if r is Some {
            let pair = r->0;
            let m = pair.1;
            assert(ring_path_played(
                cur_state@,
                sol_state@,
                corner_targets(dim as int, dim / 2 - 1, left_faces()),
                ring_places(4),
                places_of(12),
                face_starts(4, 5, 6, 7),
                face_moves_view(face_moves@),
                picked(four_corner_sequences(dim as int, dim / 2 - 1), left_corner_filter()),
                (prev_state, prev_action, cost_table),
                target_idx@,
                state_idx,
                string_views(m@),
            ));
        }
    }
    r
}

/// Solves the corner rings `dim / 2 - 2` down to 1 of the left face from
/// the search with turns, the left face's turn read from face 4: the moves
/// played, ring after ring, and the state they lead to. `None` as for
/// `solve_up_first_corner`.
pub fn solve_left_corner(
    cur_state: &Vec<usize>,
    sol_state: &Vec<usize>,
    actions: &ActionTable,
    dim: usize,
    face_moves: &Vec<(Vec<usize>, usize, i32)>,
) -> (r: Option<(Vec<usize>, Vec<String>)>)
    requires
        actions.wf(),
        actions.fits(cur_state.len() as nat),
        cube_states(cur_state@, sol_state@, dim as int),
        dim >= 2,
    ensures
        r matches Some((s, m)) ==> on_track(*actions, cur_state@, s@, m@) && exists|
            tables: (Vec<Option<usize>>, Vec<Option<usize>>, Vec<i32>),
        |
            #[trigger] face_ring_tables(false, face_moves_view(face_moves@), tables) && string_views(m@) == face_ring_stage(
                *actions,
                false,
                places_of(12).1,
                tables.0@,
                tables.1@,
                tables.2@,
                cur_state@,
                sol_state@,
                dim as int,
                dim / 2 - 2,
            )->0,
        r is None ==> face_rings_fail(*actions, false, face_moves_view(face_moves@), cur_state@, sol_state@, dim as int),
{
    corner_rings(cur_state, sol_state, actions, dim, face_moves, false)
}

} // verus!
