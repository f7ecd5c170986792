//! Solving the centres of faces 0, 2, 4 and 5 together. Each ring of corner
//! stickers and each four-cycle of edge stickers is read as a four-class
//! position, looked up in the search tables, and undone by the inverse move
//! sequences along the recorded path back to the solved position.
use vstd::prelude::*;
use std::collections::HashMap;
use crate::cube_index::{
    cell, cell_index, corner_targets, cube_fits, edge_targets, four_faces, lemma_corner_targets_bound,
    lemma_cube_faces_fit, lemma_edge_targets_bound, same_ints, target_idx_four_corner,
    target_idx_four_edge,
};
use crate::cube_seq::{sequence_moves_four_corner, sequence_moves_four_edge};
use crate::four_faces::{pack_perm_for_four_faces, packed_bits};
use crate::moves::{layer_move, turn};
use crate::perm::{all_known, apply_named, apply_named_move, ActionTable};
use crate::pieces::string_views;
use crate::cube_seq::{four_corner_sequences, four_edge_base, seq_views, with_inverses};
use crate::face_solve::lemma_apply_named_concat;
use crate::face_solve::{acts_in, lemma_undo_unknown, undo_moves, undo_one, undo_seq};

verus! {

broadcast use vstd::std_specs::hash::group_hash_axioms;

/// The class of a sticker holding `c`: 0, 1 or 2 when it is the solved
/// piece at the first, fifth or ninth target, 3 otherwise.
pub open spec fn sticker_class(c: usize, sol: Seq<usize>, t: Seq<int>) -> usize {
    if c == sol[t[0]] {
        0
    } else if c == sol[t[4]] {
        1
    } else if c == sol[t[8]] {
        2
    } else {
        3
    }
}

/// The class of the sticker at each target.
pub open spec fn four_classes(cur: Seq<usize>, sol: Seq<usize>, t: Seq<int>) -> Seq<usize> {
    Seq::new(t.len(), |i: int| sticker_class(cur[t[i]], sol, t))
}

/// Between 9 and 16 targets, each an index of a state of length `n`.
pub open spec fn targets_in(t: Seq<int>, n: int) -> bool {
    &&& 9 <= t.len() <= 16
    &&& forall|k: int| 0 <= k < t.len() ==> 0 <= #[trigger] t[k] < n
}

fn four_class_vec(cur: &Vec<usize>, sol: &Vec<usize>, t: &Vec<usize>, Ghost(ti): Ghost<Seq<int>>) -> (r:
    Vec<usize>)
    requires
        same_ints(t@, ti),
        targets_in(ti, cur.len() as int),
        sol.len() == cur.len(),
    ensures
        r@ == four_classes(cur@, sol@, ti),
        r.len() <= 16,
{
    let mut p: Vec<usize> = Vec::new();
    let mut i: usize = 0;
    assert(t@[0] as int == ti[0] && t@[4] as int == ti[4] && t@[8] as int == ti[8]);
    while i < t.len()
        invariant
            i <= t.len(),
            same_ints(t@, ti),
            targets_in(ti, cur.len() as int),
            sol.len() == cur.len(),
            t@[0] as int == ti[0] && t@[4] as int == ti[4] && t@[8] as int == ti[8],
            p@ == four_classes(cur@, sol@, ti).take(i as int),
        decreases t.len() - i,
    {
        assert(t@[i as int] as int == ti[i as int]);
        let c = cur[t[i]];
        let k: usize = if c == sol[t[0]] {
            0
        } else if c == sol[t[4]] {
            1
        } else if c == sol[t[8]] {
            2
        } else {
            3
        };
        p.push(k);
        assert(p@ =~= four_classes(cur@, sol@, ti).take(i + 1));
        i = i + 1;
    }
    assert(p@ =~= four_classes(cur@, sol@, ti));
    p
}

/// The cube has side `dim` and both states cover it.
pub open spec fn cube_states(cur: Seq<usize>, sol: Seq<usize>, dim: int) -> bool {
    &&& cube_fits(dim)
    &&& cur.len() == 6 * dim * dim
    &&& sol.len() == cur.len()
}

/// The packed four-class position of the corner ring at distance `pos`.
pub open spec fn corner_key(cur: Seq<usize>, sol: Seq<usize>, dim: int, pos: int) -> u32 {
    packed_bits(four_classes(cur, sol, corner_targets(dim, pos, four_faces())))
}

/// The packed four-class position of the edge cycle at row `y`, column `x`.
pub open spec fn edge_key(cur: Seq<usize>, sol: Seq<usize>, dim: int, y: int, x: int) -> u32 {
    packed_bits(four_classes(cur, sol, edge_targets(dim, y, x, four_faces())))
}

fn four_corner_key(cur: &Vec<usize>, sol: &Vec<usize>, dim: usize, pos: usize) -> (r: u32)
    requires
        cube_states(cur@, sol@, dim as int),
        pos < dim,
    ensures
        r == corner_key(cur@, sol@, dim as int, pos as int),
{
    let t = target_idx_four_corner(dim, pos);
    proof {
        lemma_corner_targets_bound(dim as int, pos as int, four_faces());
        assert forall|k: int| 0 <= k < four_faces().len() implies #[trigger] four_faces()[k] < 6 by {}
        lemma_corner_targets_bound(dim as int, pos as int, four_faces());
    }
    let p = four_class_vec(cur, sol, &t, Ghost(corner_targets(dim as int, pos as int, four_faces())));
    pack_perm_for_four_faces(&p)
}

fn four_edge_key(cur: &Vec<usize>, sol: &Vec<usize>, dim: usize, y: usize, x: usize) -> (r: u32)
    requires
        cube_states(cur@, sol@, dim as int),
        y < dim,
        x < dim,
    ensures
        r == edge_key(cur@, sol@, dim as int, y as int, x as int),
{
    let t = target_idx_four_edge(dim, y, x);
    proof {
        assert forall|k: int| 0 <= k < four_faces().len() implies #[trigger] four_faces()[k] < 6 by {}
        lemma_edge_targets_bound(dim as int, y as int, x as int, four_faces());
    }
    let p = four_class_vec(cur, sol, &t, Ghost(edge_targets(dim as int, y as int, x as int, four_faces())));
    pack_perm_for_four_faces(&p)
}

/// Index in the search tables of the corner ring at distance `pos`.
pub fn calc_permutation_idx_four_corner(
    cur_state: &Vec<usize>,
    sol_state: &Vec<usize>,
    perm_map: &HashMap<u32, usize>,
    dim: usize,
    pos: usize,
) -> (r: usize)
    requires
        cube_states(cur_state@, sol_state@, dim as int),
        pos < dim,
        perm_map@.contains_key(corner_key(cur_state@, sol_state@, dim as int, pos as int)),
    ensures
        r == perm_map@[corner_key(cur_state@, sol_state@, dim as int, pos as int)],
{
    let key = four_corner_key(cur_state, sol_state, dim, pos);
    *perm_map.get(&key).unwrap()
}

/// Index in the search tables of the edge cycle at row `y`, column `x`.
pub fn calc_permutation_idx_four_edge(
    cur_state: &Vec<usize>,
    sol_state: &Vec<usize>,
    perm_map: &HashMap<u32, usize>,
    dim: usize,
    y: usize,
    x: usize,
) -> (r: usize)
    requires
        cube_states(cur_state@, sol_state@, dim as int),
        y < dim,
        x < dim,
        perm_map@.contains_key(edge_key(cur_state@, sol_state@, dim as int, y as int, x as int)),
    ensures
        r == perm_map@[edge_key(cur_state@, sol_state@, dim as int, y as int, x as int)],
{
    let key = four_edge_key(cur_state, sol_state, dim, y, x);
    *perm_map.get(&key).unwrap()
}

/// The actions recorded along the predecessor chain from `i`, with at most
/// `fuel` positions visited; `None` when the chain leaves the tables, has a
/// step without its action, or is longer.
pub open spec fn chain(ps: Seq<Option<usize>>, pa: Seq<Option<usize>>, i: int, fuel: nat) -> Option<
    Seq<usize>,
>
    decreases fuel,
{
    if fuel == 0 || i < 0 || i >= ps.len() {
        None
    } else {
        match ps[i] {
            None => Some(Seq::<usize>::empty()),
            Some(n) => if i >= pa.len() {
                None
            } else {
                match pa[i] {
                    None => None,
                    Some(a) => match chain(ps, pa, n as int, (fuel - 1) as nat) {
                        Some(rest) => Some(seq![a] + rest),
                        None => None,
                    },
                }
            },
        }
    }
}

spec fn prefixed(acts: Seq<usize>, o: Option<Seq<usize>>) -> Option<Seq<usize>> {
    match o {
        Some(r) => Some(acts + r),
        None => None,
    }
}

/// The actions along the predecessor chain from `start`.
pub fn follow_chain(ps: &Vec<Option<usize>>, pa: &Vec<Option<usize>>, start: usize) -> (r: Option<
    Vec<usize>,
>)
    ensures
        match r {
            Some(v) => chain(ps@, pa@, start as int, ps.len() as nat) == Some(v@),
            None => chain(ps@, pa@, start as int, ps.len() as nat) is None,
        },
{
    let mut acts: Vec<usize> = Vec::new();
    let mut idx = start;
    let mut fuel = ps.len();
    assert(prefixed(acts@, chain(ps@, pa@, idx as int, fuel as nat)) == chain(ps@, pa@, start as int, ps.len() as nat)) by {
        match chain(ps@, pa@, idx as int, fuel as nat) {
            Some(r) => {
                assert(acts@ + r =~= r);
            },
            None => {},
        }
    }
    while fuel > 0
        invariant
            prefixed(acts@, chain(ps@, pa@, idx as int, fuel as nat)) == chain(ps@, pa@, start as int, ps.len() as nat),
        decreases fuel,
    {
        if idx >= ps.len() {
            return None;
        }
        match ps[idx] {
            None => {
                assert(acts@ + Seq::<usize>::empty() =~= acts@);
                return Some(acts);
            },
            Some(n) => {
                if idx >= pa.len() {
                    return None;
                }
                match pa[idx] {
                    None => {
                        return None;
                    },
                    Some(a) => {
                        let ghost before = acts@;
                        proof {
                            match chain(ps@, pa@, n as int, (fuel - 1) as nat) {
                                Some(rest) => {
                                    assert(before + (seq![a] + rest) =~= before.push(a) + rest);
                                },
                                None => {},
                            }
                        }
                        acts.push(a);
                        idx = n;
                        fuel = fuel - 1;
                    },
                }
            },
        }
    }
    None
}

/// Plays, for each action index of `acts` in turn, the moves that undo the
/// sequence `seqs[a]` (`undo_moves`). `false` when an index is outside
/// `seqs` or one of those moves is missing from the table.
fn undo_path(
    t: &ActionTable,
    state: &mut Vec<usize>,
    moves: &mut Vec<String>,
    seqs: &Vec<Vec<String>>,
    acts: &Vec<usize>,
    Ghost(start): Ghost<Seq<usize>>,
) -> (ok: bool)
    requires
        t.wf(),
        t.fits(old(state).len() as nat),
        old(state)@ == apply_named(*t, start, string_views(old(moves)@)),
        all_known(*t, string_views(old(moves)@)),
    ensures
        final(state).len() == old(state).len(),
        final(state)@ == apply_named(*t, start, string_views(final(moves)@)),
        all_known(*t, string_views(final(moves)@)),
        ok <==> acts_in(seq_views(seqs@), acts@) && all_known(*t, undo_moves(seq_views(seqs@), acts@)),
        ok ==> string_views(final(moves)@) == string_views(old(moves)@) + undo_moves(seq_views(seqs@), acts@),
{
    let ghost sv = seq_views(seqs@);
    let ghost base = string_views(moves@);
    let mut k: usize = 0;
    proof {
        assert(undo_moves(sv, acts@.take(0)) =~= Seq::<Seq<char>>::empty());
        assert(base + Seq::<Seq<char>>::empty() =~= base);
    }
    while k < acts.len()
        invariant
            k <= acts.len(),
            sv == seq_views(seqs@),
            t.wf(),
            t.fits(state.len() as nat),
            state.len() == old(state).len(),
            state@ == apply_named(*t, start, string_views(moves@)),
            all_known(*t, string_views(moves@)),
            acts_in(sv, acts@.take(k as int)),
            string_views(moves@) == base + undo_moves(sv, acts@.take(k as int)),
        decreases acts.len() - k,
    {
        let a = acts[k];
        if a >= seqs.len() {
            proof {
                assert(!acts_in(sv, acts@)) by {
                    assert(acts@[k as int] == a);
                }
            }
            return false;
        }
        assert(sv[a as int] == string_views(seqs@[a as int]@));
        let ghost before = string_views(moves@);
        if !undo_one(t, state, moves, &seqs[a], Ghost(start)) {
            proof {
                assert(acts@[k as int] == a);
                lemma_undo_unknown(*t, sv, acts@, k as int);
            }
            return false;
        }
        proof {
            assert(acts@.take(k + 1).drop_last() =~= acts@.take(k as int));
            assert(acts@.take(k + 1).last() == a);
            assert(undo_moves(sv, acts@.take(k + 1)) == undo_moves(sv, acts@.take(k as int)) + undo_seq(sv[a as int]));
            assert(string_views(moves@) =~= base + undo_moves(sv, acts@.take(k + 1)));
            assert(acts_in(sv, acts@.take(k + 1))) by {
                assert forall|j: int| 0 <= j < k + 1 implies #[trigger] acts@.take(k + 1)[j] < sv.len() by {
                    if j < k {
                        assert(acts@.take(k + 1)[j] == acts@.take(k as int)[j]);
                    }
                }
            }
        }
        k = k + 1;
    }
    proof {
        assert(acts@.take(acts.len() as int) =~= acts@);
        let u = undo_moves(sv, acts@);
        assert forall|j: int| 0 <= j < u.len() implies #[trigger] t.knows(u[j]) by {
            assert(string_views(moves@)[base.len() + j] == u[j]);
        }
    }
    true
}

/// The four-face search tables: the index of each four-class position and
/// the predecessor tables of the corner and edge stages.
pub struct FourFaceTables {
    pub perm_map: HashMap<u32, usize>,
    pub corner_prev_state: Vec<Option<usize>>,
    pub corner_prev_action: Vec<Option<usize>>,
    pub edge_prev_state: Vec<Option<usize>>,
    pub edge_prev_action: Vec<Option<usize>>,
}

/// The moves so far lead from `start` to `state`, and the table knows them.
pub open spec fn on_track(t: ActionTable, start: Seq<usize>, state: Seq<usize>, moves: Seq<String>) -> bool {
    &&& state == apply_named(t, start, string_views(moves))
    &&& all_known(t, string_views(moves))
}

/// The moves of one step: position `key` is looked up in `map`, the
/// predecessor chain from its index is followed, and each sequence of
/// `seqs` on the way is undone (`undo_moves`). `None` when the key is
/// missing, the chain does not end, names a sequence that is not there, or
/// one of the moves is unknown to `t`.
#[verifier::opaque]
pub open spec fn step_moves(
    t: ActionTable,
    map: Map<u32, usize>,
    ps: Seq<Option<usize>>,
    pa: Seq<Option<usize>>,
    seqs: Seq<Seq<Seq<char>>>,
    key: u32,
) -> Option<Seq<Seq<char>>> {
    if !map.contains_key(key) {
        None
    } else {
        match chain(ps, pa, map[key] as int, ps.len()) {
            Some(acts) => if acts_in(seqs, acts) && all_known(t, undo_moves(seqs, acts)) {
                Some(undo_moves(seqs, acts))
            } else {
                None
            },
            None => None,
        }
    }
}

/// `m` followed by the moves of `rest`, when there are any.
pub open spec fn then_moves(m: Seq<Seq<char>>, rest: Option<Seq<Seq<char>>>) -> Option<Seq<Seq<char>>> {
    match rest {
        Some(r) => Some(m + r),
        None => None,
    }
}

/// The moves of the corner stage from `state`: the step of ring `pos`,
/// then, from the state it reaches, the rings down to 1.
#[verifier::opaque]
pub open spec fn corner_stage_moves(
    t: ActionTable,
    tables: FourFaceTables,
    state: Seq<usize>,
    sol: Seq<usize>,
    dim: int,
    pos: int,
) -> Option<Seq<Seq<char>>>
    decreases pos,
{
    if pos < 1 {
        Some(Seq::empty())
    } else {
        match step_moves(
            t,
            tables.perm_map@,
            tables.corner_prev_state@,
            tables.corner_prev_action@,
            four_corner_sequences(dim, pos),
            corner_key(state, sol, dim, pos),
        ) {
            Some(m) => then_moves(m, corner_stage_moves(t, tables, apply_named(t, state, m), sol, dim, pos - 1)),
            None => None,
        }
    }
}

/// The moves of the edge stage from `state`, starting at row `y`, column
/// `x`: row by row, columns `y + 1` to `dim - 2 - y` of the rows `1` to
/// `dim / 2 - 1`.
#[verifier::opaque]
pub open spec fn edge_stage_moves(
    t: ActionTable,
    tables: FourFaceTables,
    state: Seq<usize>,
    sol: Seq<usize>,
    dim: int,
    y: int,
    x: int,
) -> Option<Seq<Seq<char>>>
    decreases dim - y, dim - x,
{
    if y < 1 || y >= dim / 2 {
        Some(Seq::empty())
    } else if x >= dim - 1 - y {
        edge_stage_moves(t, tables, state, sol, dim, y + 1, y + 2)
    } else {
        match step_moves(
            t,
            tables.perm_map@,
            tables.edge_prev_state@,
            tables.edge_prev_action@,
            with_inverses(four_edge_base(dim, y, x)),
            edge_key(state, sol, dim, y, x),
        ) {
            Some(m) => then_moves(m, edge_stage_moves(t, tables, apply_named(t, state, m), sol, dim, y, x + 1)),
            None => None,
        }
    }
}

proof fn lemma_then_assoc(done: Seq<Seq<char>>, m: Seq<Seq<char>>, rest: Option<Seq<Seq<char>>>)
    ensures
        then_moves(done, then_moves(m, rest)) == then_moves(done + m, rest),
{
    match rest {
        Some(r) => {
            assert(done + (m + r) =~= (done + m) + r);
        },
        None => {},
    }
}

proof fn lemma_corner_step(
    t: ActionTable,
    tables: FourFaceTables,
    s: Seq<usize>,
    sol: Seq<usize>,
    dim: int,
    pos: int,
    m: Seq<Seq<char>>,
)
    requires
        pos >= 1,
        step_moves(
            t,
            tables.perm_map@,
            tables.corner_prev_state@,
            tables.corner_prev_action@,
            four_corner_sequences(dim, pos),
            corner_key(s, sol, dim, pos),
        ) == Some(m),
    ensures
        corner_stage_moves(t, tables, s, sol, dim, pos) == then_moves(
            m,
            corner_stage_moves(t, tables, apply_named(t, s, m), sol, dim, pos - 1),
        ),
{
    reveal(corner_stage_moves);
}

proof fn lemma_edge_step(
    t: ActionTable,
    tables: FourFaceTables,
    s: Seq<usize>,
    sol: Seq<usize>,
    dim: int,
    y: int,
    x: int,
    m: Seq<Seq<char>>,
)
    requires
        1 <= y < dim / 2,
        x < dim - 1 - y,
        step_moves(
            t,
            tables.perm_map@,
            tables.edge_prev_state@,
            tables.edge_prev_action@,
            with_inverses(four_edge_base(dim, y, x)),
            edge_key(s, sol, dim, y, x),
        ) == Some(m),
    ensures
        edge_stage_moves(t, tables, s, sol, dim, y, x) == then_moves(
            m,
            edge_stage_moves(t, tables, apply_named(t, s, m), sol, dim, y, x + 1),
        ),
{
    reveal(edge_stage_moves);
}

proof fn lemma_corner_ends(t: ActionTable, tables: FourFaceTables, s: Seq<usize>, sol: Seq<usize>, dim: int, pos: int)
    ensures
        pos < 1 ==> corner_stage_moves(t, tables, s, sol, dim, pos) == Some(Seq::<Seq<char>>::empty()),
        pos >= 1 && step_moves(
            t,
            tables.perm_map@,
            tables.corner_prev_state@,
            tables.corner_prev_action@,
            four_corner_sequences(dim, pos),
            corner_key(s, sol, dim, pos),
        ) is None ==> corner_stage_moves(t, tables, s, sol, dim, pos) is None,
{
    reveal(corner_stage_moves);
}

proof fn lemma_edge_ends(t: ActionTable, tables: FourFaceTables, s: Seq<usize>, sol: Seq<usize>, dim: int, y: int, x: int)
    ensures
        y >= dim / 2 ==> edge_stage_moves(t, tables, s, sol, dim, y, x) == Some(Seq::<Seq<char>>::empty()),
        1 <= y < dim / 2 && x >= dim - 1 - y ==> edge_stage_moves(t, tables, s, sol, dim, y, x)
            == edge_stage_moves(t, tables, s, sol, dim, y + 1, y + 2),
        1 <= y < dim / 2 && x < dim - 1 - y && step_moves(
            t,
            tables.perm_map@,
            tables.edge_prev_state@,
            tables.edge_prev_action@,
            with_inverses(four_edge_base(dim, y, x)),
            edge_key(s, sol, dim, y, x),
        ) is None ==> edge_stage_moves(t, tables, s, sol, dim, y, x) is None,
{
    reveal(edge_stage_moves);
}

/// One step from `state`: looks position `key` up, follows its chain and
/// plays the undoing moves (`step_moves`).
fn play_step(
    actions: &ActionTable,
    state: &mut Vec<usize>,
    moves: &mut Vec<String>,
    map: &HashMap<u32, usize>,
    ps: &Vec<Option<usize>>,
    pa: &Vec<Option<usize>>,
    seqs: &Vec<Vec<String>>,
    key: u32,
    Ghost(start): Ghost<Seq<usize>>,
) -> (ok: bool)
    requires
        actions.wf(),
        actions.fits(old(state).len() as nat),
        on_track(*actions, start, old(state)@, old(moves)@),
    ensures
        final(state).len() == old(state).len(),
        on_track(*actions, start, final(state)@, final(moves)@),
        ok <==> step_moves(*actions, map@, ps@, pa@, seq_views(seqs@), key) is Some,
        ok ==> string_views(final(moves)@) == string_views(old(moves)@) + step_moves(
            *actions,
            map@,
            ps@,
            pa@,
            seq_views(seqs@),
            key,
        )->0,
        ok ==> final(state)@ == apply_named(
            *actions,
            old(state)@,
            step_moves(*actions, map@, ps@, pa@, seq_views(seqs@), key)->0,
        ),
{
    reveal(step_moves);
    let perm_idx = match map.get(&key) {
        Some(i) => *i,
        None => {
            return false;
        },
    };
    let acts = match follow_chain(ps, pa, perm_idx) {
        Some(v) => v,
        None => {
            return false;
        },
    };
    let ghost before = string_views(moves@);
    let ok = undo_path(actions, state, moves, seqs, &acts, Ghost(start));
    proof {
        if ok {
            lemma_apply_named_concat(*actions, start, before, undo_moves(seq_views(seqs@), acts@));
        }
    }
    ok
}

/// Plays the corner stage (`corner_stage_moves`) from the state reached;
/// `false` when it fails, with the moves played so far kept.
fn corner_stage(
    actions: &ActionTable,
    state: &mut Vec<usize>,
    moves: &mut Vec<String>,
    sol_state: &Vec<usize>,
    dim: usize,
    tables: &FourFaceTables,
    Ghost(start): Ghost<Seq<usize>>,
) -> (ok: bool)
    requires
        actions.wf(),
        actions.fits(old(state).len() as nat),
        cube_states(old(state)@, sol_state@, dim as int),
        dim >= 2,
        on_track(*actions, start, old(state)@, old(moves)@),
    ensures
        final(state).len() == old(state).len(),
        on_track(*actions, start, final(state)@, final(moves)@),
        ok <==> corner_stage_moves(*actions, *tables, old(state)@, sol_state@, dim as int, dim / 2 - 1) is Some,
        ok ==> string_views(final(moves)@) == string_views(old(moves)@) + corner_stage_moves(
            *actions,
            *tables,
            old(state)@,
            sol_state@,
            dim as int,
            dim / 2 - 1,
        )->0,
{
    let ghost total = corner_stage_moves(*actions, *tables, old(state)@, sol_state@, dim as int, dim / 2 - 1);
    let ghost base = string_views(moves@);
    let mut pos = dim / 2 - 1;
    assert(base + Seq::<Seq<char>>::empty() =~= base);
    assert(then_moves(Seq::empty(), total) == total) by {
        match total {
            Some(r) => {
                assert(Seq::<Seq<char>>::empty() + r =~= r);
            },
            None => {},
        }
    }
    let ghost mut done: Seq<Seq<char>> = Seq::empty();
    while pos >= 1
        invariant
            actions.wf(),
            actions.fits(state.len() as nat),
            cube_states(state@, sol_state@, dim as int),
            state.len() == old(state).len(),
            pos < dim,
            on_track(*actions, start, state@, moves@),
            string_views(moves@) == base + done,
            then_moves(done, corner_stage_moves(*actions, *tables, state@, sol_state@, dim as int, pos as int)) == total,
            total == corner_stage_moves(*actions, *tables, old(state)@, sol_state@, dim as int, dim / 2 - 1),
        decreases pos,
    {
        let key = four_corner_key(state, sol_state, dim, pos);
        let seqs = sequence_moves_four_corner(dim, pos);
        let ghost old_state = state@;
        if !play_step(
            actions,
            state,
            moves,
            &tables.perm_map,
            &tables.corner_prev_state,
            &tables.corner_prev_action,
            &seqs,
            key,
            Ghost(start),
        ) {
            proof {
                lemma_corner_ends(*actions, *tables, old_state, sol_state@, dim as int, pos as int);
            }
            return false;
        }
        proof {
            let m = step_moves(
                *actions,
                tables.perm_map@,
                tables.corner_prev_state@,
                tables.corner_prev_action@,
                four_corner_sequences(dim as int, pos as int),
                corner_key(old_state, sol_state@, dim as int, pos as int),
            )->0;
            lemma_corner_step(*actions, *tables, old_state, sol_state@, dim as int, pos as int, m);
            lemma_then_assoc(done, m, corner_stage_moves(*actions, *tables, state@, sol_state@, dim as int, pos - 1));
            assert(string_views(moves@) =~= base + (done + m));
            done = done + m;
        }
        pos = pos - 1;
    }
    proof {
        lemma_corner_ends(*actions, *tables, state@, sol_state@, dim as int, pos as int);
        assert(done + Seq::<Seq<char>>::empty() =~= done);
    }
    true
}

/// Plays the edge stage (`edge_stage_moves`) from the state reached;
/// `false` when it fails, with the moves played so far kept.
fn edge_stage(
    actions: &ActionTable,
    state: &mut Vec<usize>,
    moves: &mut Vec<String>,
    sol_state: &Vec<usize>,
    dim: usize,
    tables: &FourFaceTables,
    Ghost(start): Ghost<Seq<usize>>,
) -> (ok: bool)
    requires
        actions.wf(),
        actions.fits(old(state).len() as nat),
        cube_states(old(state)@, sol_state@, dim as int),
        on_track(*actions, start, old(state)@, old(moves)@),
    ensures
        final(state).len() == old(state).len(),
        on_track(*actions, start, final(state)@, final(moves)@),
        ok <==> edge_stage_moves(*actions, *tables, old(state)@, sol_state@, dim as int, 1, 2) is Some,
        ok ==> string_views(final(moves)@) == string_views(old(moves)@) + edge_stage_moves(
            *actions,
            *tables,
            old(state)@,
            sol_state@,
            dim as int,
            1,
            2,
        )->0,
{
    let ghost total = edge_stage_moves(*actions, *tables, old(state)@, sol_state@, dim as int, 1, 2);
    let ghost base = string_views(moves@);
    assert(base + Seq::<Seq<char>>::empty() =~= base);
    assert(then_moves(Seq::empty(), total) == total) by {
        match total {
            Some(r) => {
                assert(Seq::<Seq<char>>::empty() + r =~= r);
            },
            None => {},
        }
    }
    let ghost mut done: Seq<Seq<char>> = Seq::empty();
    let mut y: usize = 1;
    while y < dim / 2
        invariant
            actions.wf(),
            actions.fits(state.len() as nat),
            cube_states(state@, sol_state@, dim as int),
            state.len() == old(state).len(),
            1 <= y,
            on_track(*actions, start, state@, moves@),
            string_views(moves@) == base + done,
            then_moves(done, edge_stage_moves(*actions, *tables, state@, sol_state@, dim as int, y as int, y + 1)) == total,
            total == edge_stage_moves(*actions, *tables, old(state)@, sol_state@, dim as int, 1, 2),
        decreases dim - y,
    {
        let mut x = y + 1;
        while x < dim - 1 - y
            invariant
                actions.wf(),
                actions.fits(state.len() as nat),
                cube_states(state@, sol_state@, dim as int),
                state.len() == old(state).len(),
                1 <= y < dim / 2,
                y < x,
                on_track(*actions, start, state@, moves@),
                string_views(moves@) == base + done,
                then_moves(done, edge_stage_moves(*actions, *tables, state@, sol_state@, dim as int, y as int, x as int)) == total,
                total == edge_stage_moves(*actions, *tables, old(state)@, sol_state@, dim as int, 1, 2),
            decreases dim - x,
        {
            let key = four_edge_key(state, sol_state, dim, y, x);
            let seqs = sequence_moves_four_edge(dim, y, x);
            let ghost old_state = state@;
            if !play_step(
                actions,
                state,
                moves,
                &tables.perm_map,
                &tables.edge_prev_state,
                &tables.edge_prev_action,
                &seqs,
                key,
                Ghost(start),
            ) {
                proof {
                    lemma_edge_ends(*actions, *tables, old_state, sol_state@, dim as int, y as int, x as int);
                }
                return false;
            }
            proof {
                let m = step_moves(
                    *actions,
                    tables.perm_map@,
                    tables.edge_prev_state@,
                    tables.edge_prev_action@,
                    with_inverses(four_edge_base(dim as int, y as int, x as int)),
                    edge_key(old_state, sol_state@, dim as int, y as int, x as int),
                )->0;
                lemma_edge_step(*actions, *tables, old_state, sol_state@, dim as int, y as int, x as int, m);
                lemma_then_assoc(done, m, edge_stage_moves(*actions, *tables, state@, sol_state@, dim as int, y as int, x + 1));
                assert(string_views(moves@) =~= base + (done + m));
                done = done + m;
            }
            x = x + 1;
        }
        proof {
            lemma_edge_ends(*actions, *tables, state@, sol_state@, dim as int, y as int, x as int);
        }
        y = y + 1;
    }
    proof {
        lemma_edge_ends(*actions, *tables, state@, sol_state@, dim as int, y as int, y + 1);
        assert(done + Seq::<Seq<char>>::empty() =~= done);
    }
    true
}

/// Solves the corner rings of faces 0, 2, 4, 5 from the innermost out
/// (`corner_stage_moves`). Gives the state reached and the moves made,
/// which the table knows and which lead from `cur_state` to that state;
/// `None` when a position is missing from the tables, a path does not end,
/// names a sequence that is not there, or a move is unknown.
pub fn solve_four_faces_corner(
    cur_state: &Vec<usize>,
    sol_state: &Vec<usize>,
    actions: &ActionTable,
    dim: usize,
    tables: &FourFaceTables,
) -> (r: Option<(Vec<usize>, Vec<String>)>)
    requires
        actions.wf(),
        actions.fits(cur_state.len() as nat),
        cube_states(cur_state@, sol_state@, dim as int),
        dim >= 2,
    ensures
        r is Some <==> corner_stage_moves(*actions, *tables, cur_state@, sol_state@, dim as int, dim / 2 - 1) is Some,
        match r {
            Some((s, m)) => on_track(*actions, cur_state@, s@, m@) && string_views(m@) == corner_stage_moves(
                *actions,
                *tables,
                cur_state@,
                sol_state@,
                dim as int,
                dim / 2 - 1,
            )->0,
            None => true,
        },
{
    let mut state = cur_state.clone();
    let mut moves: Vec<String> = Vec::new();
    assert(state@ =~= cur_state@);
    assert(string_views(moves@) =~= Seq::<Seq<char>>::empty());
    if corner_stage(actions, &mut state, &mut moves, sol_state, dim, tables, Ghost(cur_state@)) {
        assert(string_views(moves@) =~= Seq::<Seq<char>>::empty() + corner_stage_moves(
            *actions,
            *tables,
            cur_state@,
            sol_state@,
            dim as int,
            dim / 2 - 1,
        )->0);
        Some((state, moves))
    } else {
        None
    }
}

/// Solves the edge cycles of faces 0, 2, 4, 5, row by row
/// (`edge_stage_moves`). Gives the state reached and the moves made, which
/// the table knows and which lead from `cur_state` to that state; `None`
/// when a position is missing from the tables, a path does not end, names a
/// sequence that is not there, or a move is unknown.
pub fn solve_four_faces_edge(
    cur_state: &Vec<usize>,
    sol_state: &Vec<usize>,
    actions: &ActionTable,
    dim: usize,
    tables: &FourFaceTables,
) -> (r: Option<(Vec<usize>, Vec<String>)>)
    requires
        actions.wf(),
        actions.fits(cur_state.len() as nat),
        cube_states(cur_state@, sol_state@, dim as int),
    ensures
        r is Some <==> edge_stage_moves(*actions, *tables, cur_state@, sol_state@, dim as int, 1, 2) is Some,
        match r {
            Some((s, m)) => on_track(*actions, cur_state@, s@, m@) && string_views(m@) == edge_stage_moves(
                *actions,
                *tables,
                cur_state@,
                sol_state@,
                dim as int,
                1,
                2,
            )->0,
            None => true,
        },
{
    let mut state = cur_state.clone();
    let mut moves: Vec<String> = Vec::new();
    assert(state@ =~= cur_state@);
    assert(string_views(moves@) =~= Seq::<Seq<char>>::empty());
    if edge_stage(actions, &mut state, &mut moves, sol_state, dim, tables, Ghost(cur_state@)) {
        assert(string_views(moves@) =~= Seq::<Seq<char>>::empty() + edge_stage_moves(
            *actions,
            *tables,
            cur_state@,
            sol_state@,
            dim as int,
            1,
            2,
        )->0);
        Some((state, moves))
    } else {
        None
    }
}

/// The turns of the middle slice that an odd cube starts with: when face
/// 0 lacks its centre piece, `f{half}` if face 5 holds it, then, from the
/// state reached, `f{half}` if face 4 holds it or `-f{half}` if face 2 does.
pub open spec fn centre_turns(t: ActionTable, cur: Seq<usize>, sol: Seq<usize>, dim: int) -> Seq<Seq<char>> {
    let half = dim / 2;
    let c0 = cell_index(dim, 0, half, half);
    if dim % 2 != 1 || cur[c0] == sol[c0] {
        Seq::empty()
    } else {
        let turn_p = layer_move(false, 'f', half as nat);
        let first = if cur[cell_index(dim, 5, half, half)] == sol[c0] {
            seq![turn_p]
        } else {
            Seq::empty()
        };
        let s1 = apply_named(t, cur, first);
        let second = if s1[cell_index(dim, 4, half, half)] == sol[c0] {
            seq![turn_p]
        } else if s1[cell_index(dim, 2, half, half)] == sol[c0] {
            seq![layer_move(true, 'f', half as nat)]
        } else {
            Seq::empty()
        };
        first + second
    }
}

/// The moves that solve the centres of faces 0, 2, 4 and 5 from `cur`: the
/// turns of the middle slice (`centre_turns`), then the corner stage and
/// the edge stage, each from the state reached. `None` when a turn is
/// unknown or a stage fails.
pub open spec fn four_faces_moves(
    t: ActionTable,
    tables: FourFaceTables,
    cur: Seq<usize>,
    sol: Seq<usize>,
    dim: int,
) -> Option<Seq<Seq<char>>> {
    let pre = centre_turns(t, cur, sol, dim);
    let s1 = apply_named(t, cur, pre);
    if !all_known(t, pre) {
        None
    } else {
        match corner_stage_moves(t, tables, s1, sol, dim, dim / 2 - 1) {
            Some(c) => match edge_stage_moves(t, tables, apply_named(t, s1, c), sol, dim, 1, 2) {
                Some(e) => Some(pre + c + e),
                None => None,
            },
            None => None,
        }
    }
}

/// Solves the centres of faces 0, 2, 4 and 5: on an odd cube first turns the
/// middle slice so that face 0 has its centre, then the corner rings, then
/// the edge cycles. Gives the state reached and the moves made, which the
/// table knows and which lead from `cur_state` to that state; `None` when a
/// move is unknown or a stage fails.
pub fn solve_four_faces_impl(
    cur_state: &Vec<usize>,
    sol_state: &Vec<usize>,
    actions: &ActionTable,
    dim: usize,
    tables: &FourFaceTables,
) -> (r: Option<(Vec<usize>, Vec<String>)>)
    requires
        actions.wf(),
        actions.fits(cur_state.len() as nat),
        cube_states(cur_state@, sol_state@, dim as int),
        dim >= 2,
    ensures
        r is Some <==> four_faces_moves(*actions, *tables, cur_state@, sol_state@, dim as int) is Some,
        match r {
            Some((s, m)) => on_track(*actions, cur_state@, s@, m@) && string_views(m@) == four_faces_moves(
                *actions,
                *tables,
                cur_state@,
                sol_state@,
                dim as int,
            )->0,
            None => true,
        },
{
    let ghost pre = centre_turns(*actions, cur_state@, sol_state@, dim as int);
    let mut state = cur_state.clone();
    let mut moves: Vec<String> = Vec::new();
    assert(state@ =~= cur_state@);
    assert(string_views(moves@) =~= Seq::<Seq<char>>::empty());
    if dim % 2 == 1 {
        let half = dim / 2;
        proof {
            lemma_cube_faces_fit(dim as int);
        }
        let idx_offset = cell(dim, 0, half, half);
        let i5 = cell(dim, 5, half, half);
        let i4 = cell(dim, 4, half, half);
        let i2 = cell(dim, 2, half, half);
        assert(6 * dim * dim == (5 + 1) * dim * dim);
        assert((2 + 1) * dim * dim <= 6 * dim * dim) by (nonlinear_arith);
        assert((4 + 1) * dim * dim <= 6 * dim * dim) by (nonlinear_arith);
        if cur_state[idx_offset] != sol_state[idx_offset] {
            let ghost turn_p = layer_move(false, 'f', half as nat);
            let ghost first: Seq<Seq<char>> = if cur_state@[i5 as int] == sol_state@[idx_offset as int] {
                seq![turn_p]
            } else {
                Seq::empty()
            };
            if cur_state[i5] == sol_state[idx_offset] {
                if !apply_named_move(actions, &mut state, &mut moves, turn(false, 'f', half), Ghost(cur_state@)) {
                    proof {
                        assert(pre[0] == turn_p);
                    }
                    return None;
                }
                assert(string_views(moves@) =~= first);
            } else {
                assert(string_views(moves@) =~= first);
            }
            if state[i4] == sol_state[idx_offset] {
                assert(pre == first + seq![turn_p]);
                if !apply_named_move(actions, &mut state, &mut moves, turn(false, 'f', half), Ghost(cur_state@)) {
                    proof {
                        assert(pre[first.len() as int] == turn_p);
                    }
                    return None;
                }
                assert(string_views(moves@) =~= pre);
            } else if state[i2] == sol_state[idx_offset] {
                assert(pre == first + seq![layer_move(true, 'f', half as nat)]);
                if !apply_named_move(actions, &mut state, &mut moves, turn(true, 'f', half), Ghost(cur_state@)) {
                    proof {
                        assert(pre[first.len() as int] == layer_move(true, 'f', half as nat));
                    }
                    return None;
                }
                assert(string_views(moves@) =~= pre);
            } else {
                assert(pre =~= first);
            }
        } else {
            assert(pre =~= Seq::<Seq<char>>::empty());
        }
    } else {
        assert(pre =~= Seq::<Seq<char>>::empty());
    }
    assert(string_views(moves@) == pre);
    let ghost s1 = state@;
    if !corner_stage(actions, &mut state, &mut moves, sol_state, dim, tables, Ghost(cur_state@)) {
        return None;
    }
    let ghost c = corner_stage_moves(*actions, *tables, s1, sol_state@, dim as int, dim / 2 - 1)->0;
    let ghost s2 = state@;
    proof {
        lemma_apply_named_concat(*actions, cur_state@, pre, c);
    }
    if !edge_stage(actions, &mut state, &mut moves, sol_state, dim, tables, Ghost(cur_state@)) {
        return None;
    }
    let ghost e = edge_stage_moves(*actions, *tables, s2, sol_state@, dim as int, 1, 2)->0;
    assert(string_views(moves@) == pre + c + e);
    Some((state, moves))
}


proof fn lemma_apply_one_move(t: ActionTable, s: Seq<usize>, m: Seq<char>)
    ensures
        apply_named(t, s, seq![m]) == crate::perm::apply_pairs(s, s, t.named(m)),
{
    assert(seq![m].drop_last() =~= Seq::<Seq<char>>::empty());
    assert(apply_named(t, s, Seq::<Seq<char>>::empty()) == s);
    assert(seq![m].last() == m);
}

/// The middle-slice turns that the four-face solver starts with bring the
/// centre piece of face 0 home: on an odd cube whose middle `f` slice turns
/// cycle the centres (`slice_cycles`), when face 0's solved centre piece
/// sits at the centre of face 0, 2, 4 or 5 (those four holding different
/// pieces), the centre of face 0 holds it after `centre_turns`.
pub proof fn lemma_centre_turns_home(t: ActionTable, cur: Seq<usize>, sol: Seq<usize>, dim: int)
    requires
        dim >= 1,
        dim % 2 == 1,
        cur.len() == 6 * dim * dim,
        crate::centres::slice_cycles(t, dim),
        crate::centres::centre_among(cur, dim, sol[crate::centres::centre_cell(dim, 0)]),
    ensures
        apply_named(t, cur, centre_turns(t, cur, sol, dim))[crate::centres::centre_cell(dim, 0)] == sol[crate::centres::centre_cell(
            dim,
            0,
        )],
{
    let h = dim / 2;
    let fp = layer_move(false, 'f', h as nat);
    let fm = layer_move(true, 'f', h as nat);
    let c0 = crate::centres::centre_cell(dim, 0);
    let c2 = crate::centres::centre_cell(dim, 2);
    let c4 = crate::centres::centre_cell(dim, 4);
    let p = sol[c0];
    assert(apply_named(t, cur, Seq::<Seq<char>>::empty()) == cur);
    lemma_apply_one_move(t, cur, fp);
    lemma_apply_one_move(t, cur, fm);
    let a = crate::perm::apply_pairs(cur, cur, t.named(fp));
    lemma_apply_one_move(t, a, fp);
    assert(a.len() == cur.len());
    assert(seq![fp] + seq![fp] =~= seq![fp, fp]);
    assert(seq![fp, fp].drop_last() =~= seq![fp]);
    assert(Seq::<Seq<char>>::empty() + seq![fp] =~= seq![fp]);
    assert(Seq::<Seq<char>>::empty() + seq![fm] =~= seq![fm]);
    assert(seq![fp] + Seq::<Seq<char>>::empty() =~= seq![fp]);
    assert(Seq::<Seq<char>>::empty() + Seq::<Seq<char>>::empty() =~= Seq::<Seq<char>>::empty());
    if cur[c0] == p {
    } else if cur[crate::centres::centre_cell(dim, 5)] == p {
        assert(a[c4] == p);
        assert(apply_named(t, cur, seq![fp, fp]) == crate::perm::apply_pairs(a, a, t.named(fp)));
    } else if cur[c4] == p {
    } else {
        assert(cur[c2] == p);
    }
}

} // verus!
