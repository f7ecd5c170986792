//! Deriving the move tables of the four-face searches from the puzzle's
//! own moves: each move sequence is played on a solved cube, checked to
//! leave the rest of the cube as the search assumes, and read as a
//! permutation of the tracked stickers. Every ring (or edge cycle) must
//! give the same table.
use vstd::prelude::*;
use crate::cube_index::{cell, cell_index, face_fits, corner_targets, cube_fits, edge_targets, four_faces, lemma_corner_targets_bound, lemma_cube_faces_fit, lemma_edge_targets_bound, same_ints, target_idx_four_corner, target_idx_four_edge};
use crate::cube_seq::{four_corner_sequences, four_edge_base, seq_views, sequence_moves_four_corner, sequence_moves_four_edge, with_inverses};
use crate::globe::table_fits;
use crate::perm::{action_of, all_known, apply_named, apply_named_move, create_actions, ActionTable, MoveTable};
use crate::pieces::string_views;

verus! {

/// The permutation of the first move of `m` named `name`, from entry `k` on.
pub open spec fn named_perm_from(m: MoveTable, name: Seq<char>, k: int) -> Option<Seq<i16>>
    decreases m.names.len() - k,
{
    if k < 0 || k >= m.names.len() || k >= m.perms.len() {
        None
    } else if m.names[k]@ == name {
        Some(m.perms[k]@)
    } else {
        named_perm_from(m, name, k + 1)
    }
}

/// The entries of `p` as places; `None` when one is negative.
pub open spec fn as_places(p: Seq<i16>) -> Option<Seq<usize>> {
    if forall|i: int| 0 <= i < p.len() ==> #[trigger] p[i] >= 0 {
        Some(p.map_values(|v: i16| v as usize))
    } else {
        None
    }
}

/// A solved cube after the moves `seq`: the first taken as its
/// permutation, the others played on it; `None` when a move is missing or
/// does not fit.
pub open spec fn sequence_state(m: MoveTable, t: ActionTable, seq: Seq<Seq<char>>) -> Option<Seq<usize>> {
    if seq.len() == 0 {
        None
    } else {
        match named_perm_from(m, seq[0], 0) {
            Some(p) => match as_places(p) {
                Some(s) => if t.fits(s.len()) && all_known(t, seq.drop_first()) {
                    Some(apply_named(t, s, seq.drop_first()))
                } else {
                    None
                },
                None => None,
            },
            None => None,
        }
    }
}

/// The last of the first `k` targets that is `v`.
pub open spec fn last_target(targets: Seq<int>, v: int, k: int) -> Option<int>
    decreases k,
{
    if k <= 0 {
        None
    } else if targets[k - 1] == v {
        Some(k - 1)
    } else {
        last_target(targets, v, k - 1)
    }
}

/// For each target, which target's sticker is now there; `None` when one
/// holds a sticker of no target.
pub open spec fn target_move(state: Seq<usize>, targets: Seq<int>) -> Option<Seq<usize>> {
    if forall|i: int| 0 <= i < targets.len() ==> #[trigger] last_target(targets, state[targets[i]] as int, targets.len() as int) is Some {
        Some(Seq::new(targets.len(), |i: int| last_target(targets, state[targets[i]] as int, targets.len() as int)->0 as usize))
    } else {
        None
    }
}

/// The inner sticker `(i, j)` of face `f` is a sticker of face `f`.
pub open spec fn side_cell_kept(state: Seq<usize>, dim: int, f: int, i: int, j: int) -> bool {
    state[cell_index(dim, f, i, j)] as int / (dim * dim) == f
}

/// Row `i` of face `f`: its inner stickers are stickers of face `f`.
pub open spec fn side_row_kept(state: Seq<usize>, dim: int, f: int, i: int) -> bool {
    forall|j: int| 1 <= j < dim - 1 ==> #[trigger] side_cell_kept(state, dim, f, i, j)
}

/// The inner stickers of the faces `sides` stay on their faces.
pub open spec fn sides_kept(state: Seq<usize>, dim: int, sides: Seq<usize>) -> bool {
    forall|k: int, i: int| 0 <= k < sides.len() && 1 <= i < dim - 1 ==> #[trigger] side_row_kept(state, dim, sides[k] as int, i)
}

/// The corner ring at distance `i` of face `f` stays on it.
pub open spec fn ring_on_face(state: Seq<usize>, dim: int, f: int, i: int) -> bool {
    let r = dim - 1 - i;
    &&& state[cell_index(dim, f, i, i)] as int / (dim * dim) == f
    &&& state[cell_index(dim, f, i, r)] as int / (dim * dim) == f
    &&& state[cell_index(dim, f, r, i)] as int / (dim * dim) == f
    &&& state[cell_index(dim, f, r, r)] as int / (dim * dim) == f
}

/// On the faces `faces` the corner rings inside ring `pos` stay on their faces.
pub open spec fn rings_kept(state: Seq<usize>, dim: int, faces: Seq<usize>, pos: int) -> bool {
    forall|k: int, i: int| 0 <= k < faces.len() && pos + 1 <= i <= dim / 2 ==> #[trigger] ring_on_face(state, dim, faces[k] as int, i)
}

/// The inner sticker `(i, j)` of face `f` is found at its place or at one
/// of the three places a quarter turn of the face carries it to.
pub open spec fn kept_up_to_turn(state: Seq<usize>, dim: int, f: int, i: int, j: int) -> bool {
    let idx = cell_index(dim, f, i, j);
    ||| state[idx] as int == idx
    ||| state[cell_index(dim, f, j, dim - 1 - i)] as int == idx
    ||| state[cell_index(dim, f, dim - 1 - i, dim - 1 - j)] as int == idx
    ||| state[cell_index(dim, f, dim - 1 - j, i)] as int == idx
}

/// Row `i` of face `f`: every inner sticker outside the targets is kept up
/// to a quarter turn of its face.
pub open spec fn others_row_kept(state: Seq<usize>, dim: int, targets: Seq<int>, f: int, i: int) -> bool {
    forall|j: int|
        1 <= j < dim - 1 && !targets.contains(cell_index(dim, f, i, j)) ==> #[trigger] kept_up_to_turn(state, dim, f, i, j)
}

/// On the faces `faces` every inner sticker outside the targets is kept up
/// to a quarter turn of its face.
pub open spec fn others_kept(state: Seq<usize>, dim: int, targets: Seq<int>, faces: Seq<usize>) -> bool {
    forall|k: int, i: int| 0 <= k < faces.len() && 1 <= i < dim - 1 ==> #[trigger] others_row_kept(state, dim, targets, faces[k] as int, i)
}

/// The check of a state: the faces `sides` keep their inner stickers;
/// then, for a corner table at ring `pos`, the inner rings of the faces
/// `faces` stay; for an edge table, after two moves or more, the other
/// stickers of those faces are kept up to a quarter turn.
pub open spec fn state_checked(state: Seq<usize>, dim: int, check: Seq<int>, len: int, corner: bool, pos: int, sides: Seq<usize>, faces: Seq<usize>) -> bool {
    if corner {
        sides_kept(state, dim, sides) && rings_kept(state, dim, faces, pos)
    } else {
        sides_kept(state, dim, sides) && (len >= 2 ==> others_kept(state, dim, check, faces))
    }
}

/// The permutation of the targets `read` that sequence `seq` makes;
/// `None` when it cannot be played, fails the check, or moves a sticker of
/// no target onto a target.
pub open spec fn seq_move(
    m: MoveTable,
    t: ActionTable,
    seq: Seq<Seq<char>>,
    sides: Seq<usize>,
    faces: Seq<usize>,
    check: Seq<int>,
    read: Seq<int>,
    dim: int,
    corner: bool,
    pos: int,
) -> Option<Seq<usize>> {
    match sequence_state(m, t, seq) {
        Some(s) => if s.len() >= 6 * dim * dim && state_checked(s, dim, check, seq.len() as int, corner, pos, sides, faces) {
            target_move(s, read)
        } else {
            None
        },
        None => None,
    }
}

/// How far the first `n` moves of `seq` turn a face: each `plus` a quarter
/// turn on, each `minus` a quarter turn back.
pub open spec fn rot_after(seq: Seq<Seq<char>>, plus: Seq<char>, minus: Seq<char>, n: nat) -> usize
    decreases n,
{
    if n == 0 {
        0
    } else {
        let r = rot_after(seq, plus, minus, (n - 1) as nat);
        if seq[n - 1] == plus {
            ((r + 1) % 4) as usize
        } else if seq[n - 1] == minus {
            ((r + 3) % 4) as usize
        } else {
            r
        }
    }
}

/// The entry of one sequence: its permutation of the targets, how far it
/// turns the face, and its length.
pub open spec fn seq_entry(
    m: MoveTable,
    t: ActionTable,
    seq: Seq<Seq<char>>,
    sides: Seq<usize>,
    faces: Seq<usize>,
    check: Seq<int>,
    read: Seq<int>,
    dim: int,
    corner: bool,
    pos: int,
    plus: Seq<char>,
    minus: Seq<char>,
) -> Option<(Seq<usize>, usize, usize)> {
    match seq_move(m, t, seq, sides, faces, check, read, dim, corner, pos) {
        Some(mv) => Some((mv, rot_after(seq, plus, minus, seq.len()), seq.len() as usize)),
        None => None,
    }
}

/// Every sequence of `seqs` has an entry.
pub open spec fn effects_ok(
    m: MoveTable,
    t: ActionTable,
    seqs: Seq<Seq<Seq<char>>>,
    sides: Seq<usize>,
    faces: Seq<usize>,
    check: Seq<int>,
    read: Seq<int>,
    dim: int,
    corner: bool,
    pos: int,
    plus: Seq<char>,
    minus: Seq<char>,
) -> bool {
    forall|i: int| 0 <= i < seqs.len() ==> #[trigger] seq_entry(m, t, seqs[i], sides, faces, check, read, dim, corner, pos, plus, minus) is Some
}

/// The entries of the sequences of `seqs`, in order.
pub open spec fn effects(
    m: MoveTable,
    t: ActionTable,
    seqs: Seq<Seq<Seq<char>>>,
    sides: Seq<usize>,
    faces: Seq<usize>,
    check: Seq<int>,
    read: Seq<int>,
    dim: int,
    corner: bool,
    pos: int,
    plus: Seq<char>,
    minus: Seq<char>,
) -> Seq<(Seq<usize>, usize, usize)> {
    Seq::new(seqs.len(), |i: int| seq_entry(m, t, seqs[i], sides, faces, check, read, dim, corner, pos, plus, minus)->0)
}

/// Entries without their turns.
pub open spec fn without_turns(e: Seq<(Seq<usize>, usize, usize)>) -> Seq<(Seq<usize>, usize)> {
    e.map_values(|x: (Seq<usize>, usize, usize)| (x.0, x.2))
}

/// The faces whose inner stickers the four-face tables keep: 1 and 3.
pub open spec fn four_sides() -> Seq<usize> {
    seq![1usize, 3]
}

/// The views of a table with turns.
pub open spec fn table3_views(r: Seq<(Vec<usize>, usize, usize)>) -> Seq<(Seq<usize>, usize, usize)> {
    r.map_values(|e: (Vec<usize>, usize, usize)| (e.0@, e.1, e.2))
}

/// The views of a move table.
pub open spec fn table_views(r: Seq<(Vec<usize>, usize)>) -> Seq<(Seq<usize>, usize)> {
    r.map_values(|e: (Vec<usize>, usize)| (e.0@, e.1))
}

/// `t` is the action table made from the moves of `m`.
pub open spec fn made_from(t: ActionTable, m: MoveTable) -> bool {
    &&& t.wf()
    &&& t.names@ == m.names@
    &&& forall|k: int| 0 <= k < t.actions.len() ==> #[trigger] t.actions[k]@ == action_of(m.perms[k]@)
}

/// The corner sequences at ring `pos` with their effects.
#[verifier::opaque]
pub open spec fn corner_effects(m: MoveTable, t: ActionTable, dim: int, pos: int) -> Seq<(Seq<usize>, usize)> {
    let ct = corner_targets(dim, pos, four_faces());
    without_turns(effects(m, t, four_corner_sequences(dim, pos), four_sides(), four_faces(), ct, ct, dim, true, pos, Seq::empty(), Seq::empty()))
}

/// Every corner sequence at ring `pos` has an effect.
#[verifier::opaque]
pub open spec fn corner_ok(m: MoveTable, t: ActionTable, dim: int, pos: int) -> bool {
    let ct = corner_targets(dim, pos, four_faces());
    effects_ok(m, t, four_corner_sequences(dim, pos), four_sides(), four_faces(), ct, ct, dim, true, pos, Seq::empty(), Seq::empty())
}

/// The corner table: the effects at ring `dim / 2 - 1`, where the cube has
/// such a ring and every ring from 1 up to it gives the same effects;
/// `None` otherwise.
pub open spec fn corner_table(m: MoveTable, t: ActionTable, dim: int) -> Option<Seq<(Seq<usize>, usize)>> {
    if dim >= 4 && forall|pos: int|
        1 <= pos <= dim / 2 - 1 ==> #[trigger] corner_ok(m, t, dim, pos) && corner_effects(m, t, dim, pos) == corner_effects(
            m,
            t,
            dim,
            dim / 2 - 1,
        ) {
        Some(corner_effects(m, t, dim, dim / 2 - 1))
    } else {
        None
    }
}

/// The edge sequences at `(y, x)` with their effects.
#[verifier::opaque]
pub open spec fn edge_effects(m: MoveTable, t: ActionTable, dim: int, y: int, x: int) -> Seq<(Seq<usize>, usize)> {
    let et = edge_targets(dim, y, x, four_faces());
    without_turns(effects(m, t, with_inverses(four_edge_base(dim, y, x)), four_sides(), four_faces(), et, et, dim, false, 0, Seq::empty(), Seq::empty()))
}

/// Every edge sequence at `(y, x)` has an effect.
#[verifier::opaque]
pub open spec fn edge_ok(m: MoveTable, t: ActionTable, dim: int, y: int, x: int) -> bool {
    let et = edge_targets(dim, y, x, four_faces());
    effects_ok(m, t, with_inverses(four_edge_base(dim, y, x)), four_sides(), four_faces(), et, et, dim, false, 0, Seq::empty(), Seq::empty())
}

/// The edge positions the table is derived from: `1 <= y < dim / 2` and
/// `y < x < dim - 1 - y`.
pub open spec fn edge_pair(dim: int, y: int, x: int) -> bool {
    1 <= y < dim / 2 && y + 1 <= x < dim - 1 - y
}

/// The edge table: the effects at `(1, 2)`, where the cube has that
/// position (side 5 or more) and every edge position gives the same
/// effects; `None` otherwise.
pub open spec fn edge_table(m: MoveTable, t: ActionTable, dim: int) -> Option<Seq<(Seq<usize>, usize)>> {
    if dim >= 5 && forall|y: int, x: int|
        edge_pair(dim, y, x) ==> #[trigger] edge_ok(m, t, dim, y, x) && edge_effects(m, t, dim, y, x) == edge_effects(m, t, dim, 1, 2) {
        Some(edge_effects(m, t, dim, 1, 2))
    } else {
        None
    }
}

/// `r` is the table `spec`, by its views.
pub open spec fn gives_table(r: Option<Vec<(Vec<usize>, usize)>>, spec: Option<Seq<(Seq<usize>, usize)>>) -> bool {
    match r {
        Some(v) => spec == Some(table_views(v@)),
        None => spec is None,
    }
}

/// The first move of `m` named `name`.
fn find_perm(m: &MoveTable, name: &String) -> (r: Option<usize>)
    requires
        m.wf(),
    ensures
        match r {
            Some(k) => k < m.perms.len() && named_perm_from(*m, name@, 0) == Some(m.perms[k as int]@),
            None => named_perm_from(*m, name@, 0) is None,
        },
{
    let mut k: usize = 0;
    while k < m.names.len()
        invariant
            m.wf(),
            k <= m.names.len(),
            named_perm_from(*m, name@, 0) == named_perm_from(*m, name@, k as int),
        decreases m.names.len() - k,
    {
        if m.names[k] == *name {
            return Some(k);
        }
        k = k + 1;
    }
    None
}

/// A solved cube after the moves `seq` (`sequence_state`).
pub fn play_sequence(m: &MoveTable, t: &ActionTable, seq: &Vec<String>) -> (r: Option<Vec<usize>>)
    requires
        m.wf(),
        t.wf(),
    ensures
        match r {
            Some(s) => sequence_state(*m, *t, string_views(seq@)) == Some(s@),
            None => sequence_state(*m, *t, string_views(seq@)) is None,
        },
{
    let ghost sv = string_views(seq@);
    if seq.len() == 0 {
        return None;
    }
    assert(sv[0] == seq@[0]@);
    let k = match find_perm(m, &seq[0]) {
        Some(k) => k,
        None => {
            return None;
        },
    };
    let p = &m.perms[k];
    let mut s: Vec<usize> = Vec::new();
    let mut i: usize = 0;
    while i < p.len()
        invariant
            i <= p.len(),
            s@ == p@.take(i as int).map_values(|v: i16| v as usize),
            forall|j: int| 0 <= j < i ==> #[trigger] p@[j] >= 0,
            sv == string_views(seq@),
            seq.len() > 0,
            named_perm_from(*m, sv[0], 0) == Some(p@),
        decreases p.len() - i,
    {
        if p[i] < 0 {
            assert(!(forall|j: int| 0 <= j < p@.len() ==> #[trigger] p@[j] >= 0)) by {
                assert(p@[i as int] < 0);
            }
            assert(as_places(p@) is None);
            return None;
        }
        s.push(p[i] as usize);
        assert(s@ =~= p@.take(i + 1).map_values(|v: i16| v as usize));
        i = i + 1;
    }
    assert(p@.take(p.len() as int) =~= p@);
    assert(as_places(p@) == Some(s@));
    if !table_fits(t, s.len()) {
        return None;
    }
    let ghost start = s@;
    let mut names: Vec<String> = Vec::new();
    assert(string_views(names@) =~= Seq::<Seq<char>>::empty());
    let mut j: usize = 1;
    while j < seq.len()
        invariant
            1 <= j <= seq.len(),
            t.wf(),
            t.fits(s.len() as nat),
            sv == string_views(seq@),
            string_views(names@) == sv.drop_first().take(j - 1),
            s@ == apply_named(*t, start, string_views(names@)),
            all_known(*t, string_views(names@)),
        decreases seq.len() - j,
    {
        let name = seq[j].clone();
        assert(name@ == sv.drop_first()[j - 1]);
        if !apply_named_move(t, &mut s, &mut names, name, Ghost(start)) {
            proof {
                assert(!all_known(*t, sv.drop_first())) by {
                    if all_known(*t, sv.drop_first()) {
                        assert(t.knows(sv.drop_first()[j - 1]));
                    }
                }
            }
            return None;
        }
        assert(string_views(names@) =~= sv.drop_first().take(j as int));
        j = j + 1;
    }
    assert(sv.drop_first().take(seq.len() - 1) =~= sv.drop_first());
    Some(s)
}

/// For each target, which target's sticker is now there (`target_move`).
fn read_targets(state: &Vec<usize>, targets: &Vec<usize>, Ghost(ti): Ghost<Seq<int>>) -> (r: Option<Vec<usize>>)
    requires
        same_ints(targets@, ti),
        forall|k: int| 0 <= k < ti.len() ==> 0 <= #[trigger] ti[k] < state.len(),
    ensures
        match r {
            Some(v) => target_move(state@, ti) == Some(v@),
            None => target_move(state@, ti) is None,
        },
{
    let n = targets.len();
    let mut out: Vec<usize> = Vec::new();
    let mut i: usize = 0;
    while i < n
        invariant
            i <= n == targets.len(),
            same_ints(targets@, ti),
            forall|k: int| 0 <= k < ti.len() ==> 0 <= #[trigger] ti[k] < state.len(),
            out.len() == i,
            forall|k: int| 0 <= k < i ==> #[trigger] last_target(ti, state@[ti[k]] as int, n as int) == Some(out@[k] as int),
        decreases n - i,
    {
        assert(targets@[i as int] as int == ti[i as int]);
        let v = state[targets[i]];
        let mut j: usize = n;
        let mut found: Option<usize> = None;
        while j > 0 && found.is_none()
            invariant
                j <= n == targets.len(),
                same_ints(targets@, ti),
                match found {
                    Some(f) => last_target(ti, v as int, n as int) == Some(f as int),
                    None => last_target(ti, v as int, n as int) == last_target(ti, v as int, j as int),
                },
            decreases j,
        {
            assert(targets@[j - 1] as int == ti[j - 1]);
            if targets[j - 1] == v {
                found = Some(j - 1);
            }
            j = j - 1;
        }
        match found {
            Some(f) => {
                out.push(f);
            },
            None => {
                proof {
                    assert(last_target(ti, v as int, n as int) is None);
                    assert(last_target(ti, state@[ti[i as int]] as int, n as int) is None);
                }
                return None;
            },
        }
        i = i + 1;
    }
    proof {
        assert forall|k: int| 0 <= k < n implies #[trigger] last_target(ti, state@[ti[k]] as int, n as int) is Some by {
            assert(last_target(ti, state@[ti[k]] as int, n as int) == Some(out@[k] as int));
        }
        assert(out@ =~= Seq::new(n as nat, |k: int| last_target(ti, state@[ti[k]] as int, n as int)->0 as usize));
    }
    Some(out)
}

pub(crate) proof fn lemma_face_below_cube(dim: int, f: int)
    requires
        dim >= 1,
        0 <= f < 6,
    ensures
        (f + 1) * dim * dim <= 6 * dim * dim,
        dim * dim <= 6 * dim * dim,
        dim < 6 * dim * dim,
        dim * dim >= 1,
{
    assert(dim * dim >= 1) by (nonlinear_arith)
        requires
            dim >= 1,
    ;
    assert(dim < 6 * dim * dim) by (nonlinear_arith)
        requires
            dim >= 1,
    ;
    assert((f + 1) * dim * dim <= 6 * dim * dim) by (nonlinear_arith)
        requires
            dim >= 1,
            0 <= f < 6,
    ;
    assert(dim * dim <= 6 * dim * dim) by (nonlinear_arith)
        requires
            dim >= 1,
    ;
}

/// Whether row `i` of face `f` keeps its inner stickers (`side_row_kept`).
fn check_side_row(state: &Vec<usize>, dim: usize, dd: usize, f: usize, i: usize) -> (b: bool)
    requires
        cube_fits(dim as int),
        dd == dim * dim,
        dd >= 1,
        state.len() >= 6 * dim * dim,
        f < 6,
        1 <= i < dim - 1,
    ensures
        b == side_row_kept(state@, dim as int, f as int, i as int),
{
    proof {
        lemma_cube_faces_fit(dim as int);
        lemma_face_below_cube(dim as int, f as int);
    }
    let mut j: usize = 1;
    while j + 1 < dim
        invariant
            1 <= j <= dim - 1,
            cube_fits(dim as int),
            dd == dim * dim,
            dd >= 1,
            state.len() >= 6 * dim * dim,
            (f + 1) * dim * dim <= 6 * dim * dim,
            face_fits(dim as int, f as int),
            f < 6,
            1 <= i < dim - 1,
            forall|jj: int| 1 <= jj < j ==> #[trigger] side_cell_kept(state@, dim as int, f as int, i as int, jj),
        decreases dim - j,
    {
        let idx = cell(dim, f, i, j);
        if state[idx] / dd != f {
            assert(!side_cell_kept(state@, dim as int, f as int, i as int, j as int));
            return false;
        }
        j = j + 1;
    }
    true
}

/// Whether face `f` keeps its inner stickers.
fn check_side_face(state: &Vec<usize>, dim: usize, dd: usize, f: usize) -> (b: bool)
    requires
        cube_fits(dim as int),
        dd == dim * dim,
        dd >= 1,
        state.len() >= 6 * dim * dim,
        f < 6,
    ensures
        b == forall|i: int| 1 <= i < dim - 1 ==> #[trigger] side_row_kept(state@, dim as int, f as int, i),
{
    proof {
        lemma_face_below_cube(dim as int, 0);
    }
    let mut i: usize = 1;
    while i + 1 < dim
        invariant
            1 <= i <= dim,
            dim < 6 * dim * dim,
            cube_fits(dim as int),
            dd == dim * dim,
            dd >= 1,
            state.len() >= 6 * dim * dim,
            f < 6,
            forall|ii: int| 1 <= ii < i ==> #[trigger] side_row_kept(state@, dim as int, f as int, ii),
        decreases dim - i,
    {
        if !check_side_row(state, dim, dd, f, i) {
            return false;
        }
        i = i + 1;
    }
    true
}

/// Whether the faces `sides` keep their inner stickers (`sides_kept`).
fn check_sides(state: &Vec<usize>, dim: usize, dd: usize, sides: &Vec<usize>) -> (b: bool)
    requires
        cube_fits(dim as int),
        dd == dim * dim,
        dd >= 1,
        state.len() >= 6 * dim * dim,
        forall|k: int| 0 <= k < sides.len() ==> #[trigger] sides@[k] < 6,
    ensures
        b == sides_kept(state@, dim as int, sides@),
{
    let mut k: usize = 0;
    while k < sides.len()
        invariant
            k <= sides.len(),
            cube_fits(dim as int),
            dd == dim * dim,
            dd >= 1,
            state.len() >= 6 * dim * dim,
            forall|kk: int| 0 <= kk < sides.len() ==> #[trigger] sides@[kk] < 6,
            forall|kk: int, i: int| 0 <= kk < k && 1 <= i < dim - 1 ==> #[trigger] side_row_kept(state@, dim as int, sides@[kk] as int, i),
        decreases sides.len() - k,
    {
        if !check_side_face(state, dim, dd, sides[k]) {
            return false;
        }
        k = k + 1;
    }
    true
}

/// Whether the corner rings `pos + 1 ..= dim / 2` of face `f` stay on it.
fn check_ring_face(state: &Vec<usize>, dim: usize, dd: usize, f: usize, pos: usize) -> (b: bool)
    requires
        cube_fits(dim as int),
        dd == dim * dim,
        dd >= 1,
        state.len() >= 6 * dim * dim,
        f < 6,
    ensures
        b == forall|i: int| pos + 1 <= i <= dim / 2 ==> #[trigger] ring_on_face(state@, dim as int, f as int, i),
{
    proof {
        lemma_cube_faces_fit(dim as int);
        lemma_face_below_cube(dim as int, f as int);
    }
    if pos >= dim / 2 {
        return true;
    }
    let mut i: usize = pos + 1;
    while i <= dim / 2
        invariant
            pos + 1 <= i <= dim / 2 + 1,
            cube_fits(dim as int),
            dd == dim * dim,
            dd >= 1,
            state.len() >= 6 * dim * dim,
            (f + 1) * dim * dim <= 6 * dim * dim,
            face_fits(dim as int, f as int),
            f < 6,
            forall|ii: int| pos + 1 <= ii < i ==> #[trigger] ring_on_face(state@, dim as int, f as int, ii),
        decreases dim / 2 + 1 - i,
    {
        let r = dim - 1 - i;
        let a = state[cell(dim, f, i, i)] / dd == f;
        let b = state[cell(dim, f, i, r)] / dd == f;
        let c = state[cell(dim, f, r, i)] / dd == f;
        let d = state[cell(dim, f, r, r)] / dd == f;
        if !(a && b && c && d) {
            assert(!ring_on_face(state@, dim as int, f as int, i as int));
            return false;
        }
        assert(ring_on_face(state@, dim as int, f as int, i as int));
        i = i + 1;
    }
    true
}

/// Whether the inner corner rings stay on the faces `faces` (`rings_kept`).
fn check_rings(state: &Vec<usize>, dim: usize, dd: usize, faces: &Vec<usize>, pos: usize) -> (b: bool)
    requires
        cube_fits(dim as int),
        dd == dim * dim,
        dd >= 1,
        state.len() >= 6 * dim * dim,
        forall|k: int| 0 <= k < faces.len() ==> #[trigger] faces@[k] < 6,
    ensures
        b == rings_kept(state@, dim as int, faces@, pos as int),
{
    let mut k: usize = 0;
    while k < faces.len()
        invariant
            k <= faces.len(),
            cube_fits(dim as int),
            dd == dim * dim,
            dd >= 1,
            state.len() >= 6 * dim * dim,
            forall|kk: int| 0 <= kk < faces.len() ==> #[trigger] faces@[kk] < 6,
            forall|kk: int, i: int| 0 <= kk < k && pos + 1 <= i <= dim / 2 ==> #[trigger] ring_on_face(state@, dim as int, faces@[kk] as int, i),
        decreases faces.len() - k,
    {
        if !check_ring_face(state, dim, dd, faces[k], pos) {
            return false;
        }
        k = k + 1;
    }
    true
}

/// Whether `v` is one of the targets.
fn has_target(targets: &Vec<usize>, Ghost(ti): Ghost<Seq<int>>, v: usize) -> (b: bool)
    requires
        same_ints(targets@, ti),
    ensures
        b == ti.contains(v as int),
{
    let mut k: usize = 0;
    while k < targets.len()
        invariant
            k <= targets.len(),
            same_ints(targets@, ti),
            forall|kk: int| 0 <= kk < k ==> #[trigger] ti[kk] != v as int,
        decreases targets.len() - k,
    {
        if targets[k] == v {
            assert(ti[k as int] == v as int);
            return true;
        }
        k = k + 1;
    }
    proof {
        if ti.contains(v as int) {
            let w = choose|kk: int| 0 <= kk < ti.len() && ti[kk] == v as int;
            assert(ti[w] != v as int);
        }
    }
    false
}

/// Whether row `i` of face `f` keeps its stickers outside
/// the targets up to a quarter turn (`others_row_kept`).
fn check_others_row(state: &Vec<usize>, dim: usize, targets: &Vec<usize>, Ghost(ti): Ghost<Seq<int>>, f: usize, i: usize) -> (b: bool)
    requires
        cube_fits(dim as int),
        state.len() >= 6 * dim * dim,
        same_ints(targets@, ti),
        f < 6,
        1 <= i < dim - 1,
    ensures
        b == others_row_kept(state@, dim as int, ti, f as int, i as int),
{
    proof {
        lemma_cube_faces_fit(dim as int);
        lemma_face_below_cube(dim as int, f as int);
    }
    let mut j: usize = 1;
    while j + 1 < dim
        invariant
            1 <= j <= dim - 1,
            cube_fits(dim as int),
            state.len() >= 6 * dim * dim,
            same_ints(targets@, ti),
            (f + 1) * dim * dim <= 6 * dim * dim,
            face_fits(dim as int, f as int),
            f < 6,
            1 <= i < dim - 1,
            forall|jj: int|
                1 <= jj < j && !ti.contains(cell_index(dim as int, f as int, i as int, jj))
                    ==> #[trigger] kept_up_to_turn(state@, dim as int, f as int, i as int, jj),
        decreases dim - j,
    {
        let idx = cell(dim, f, i, j);
        if !has_target(targets, Ghost(ti), idx) {
            let a = state[idx] == idx;
            let b = state[cell(dim, f, j, dim - 1 - i)] == idx;
            let c = state[cell(dim, f, dim - 1 - i, dim - 1 - j)] == idx;
            let d = state[cell(dim, f, dim - 1 - j, i)] == idx;
            if !(a || b || c || d) {
                assert(!kept_up_to_turn(state@, dim as int, f as int, i as int, j as int));
                return false;
            }
            assert(kept_up_to_turn(state@, dim as int, f as int, i as int, j as int));
        }
        j = j + 1;
    }
    true
}

/// Whether the stickers outside the targets on the faces `faces` are kept
/// up to a quarter turn (`others_kept`).
fn check_others(state: &Vec<usize>, dim: usize, targets: &Vec<usize>, Ghost(ti): Ghost<Seq<int>>, faces: &Vec<usize>) -> (b: bool)
    requires
        cube_fits(dim as int),
        state.len() >= 6 * dim * dim,
        same_ints(targets@, ti),
        forall|k: int| 0 <= k < faces.len() ==> #[trigger] faces@[k] < 6,
    ensures
        b == others_kept(state@, dim as int, ti, faces@),
{
    proof {
        lemma_face_below_cube(dim as int, 0);
    }
    let mut k: usize = 0;
    while k < faces.len()
        invariant
            k <= faces.len(),
            dim < 6 * dim * dim,
            cube_fits(dim as int),
            state.len() >= 6 * dim * dim,
            same_ints(targets@, ti),
            forall|kk: int| 0 <= kk < faces.len() ==> #[trigger] faces@[kk] < 6,
            forall|kk: int, i: int| 0 <= kk < k && 1 <= i < dim - 1 ==> #[trigger] others_row_kept(state@, dim as int, ti, faces@[kk] as int, i),
        decreases faces.len() - k,
    {
        let f = faces[k];
        let mut i: usize = 1;
        while i + 1 < dim
            invariant
                1 <= i <= dim,
                dim < 6 * dim * dim,
                k < faces.len(),
                f == faces@[k as int],
                f < 6,
                cube_fits(dim as int),
                state.len() >= 6 * dim * dim,
                same_ints(targets@, ti),
                forall|kk: int| 0 <= kk < faces.len() ==> #[trigger] faces@[kk] < 6,
                forall|kk: int, ii: int| 0 <= kk < k && 1 <= ii < dim - 1 ==> #[trigger] others_row_kept(state@, dim as int, ti, faces@[kk] as int, ii),
                forall|ii: int| 1 <= ii < i ==> #[trigger] others_row_kept(state@, dim as int, ti, f as int, ii),
            decreases dim - i,
        {
            if !check_others_row(state, dim, targets, Ghost(ti), f, i) {
                return false;
            }
            i = i + 1;
        }
        k = k + 1;
    }
    true
}

/// How far the moves of `seq` turn a face (`rot_after`).
fn rot_of(seq: &Vec<String>, plus: &String, minus: &String) -> (r: usize)
    ensures
        r == rot_after(string_views(seq@), plus@, minus@, seq.len() as nat),
        r < 4,
{
    let ghost sv = string_views(seq@);
    let mut rot: usize = 0;
    let mut i: usize = 0;
    while i < seq.len()
        invariant
            i <= seq.len(),
            sv == string_views(seq@),
            rot == rot_after(sv, plus@, minus@, i as nat),
            rot < 4,
        decreases seq.len() - i,
    {
        assert(sv[i as int] == seq@[i as int]@);
        if seq[i] == *plus {
            rot = (rot + 1) % 4;
        } else if seq[i] == *minus {
            rot = (rot + 3) % 4;
        }
        i = i + 1;
    }
    rot
}

/// The entry of one sequence (`seq_entry`).
fn effect_of(
    m: &MoveTable,
    t: &ActionTable,
    seq: &Vec<String>,
    sides: &Vec<usize>,
    faces: &Vec<usize>,
    check: &Vec<usize>,
    Ghost(ci): Ghost<Seq<int>>,
    read: &Vec<usize>,
    Ghost(ri): Ghost<Seq<int>>,
    dim: usize,
    dd: usize,
    corner: bool,
    pos: usize,
    plus: &String,
    minus: &String,
) -> (r: Option<(Vec<usize>, usize, usize)>)
    requires
        m.wf(),
        t.wf(),
        cube_fits(dim as int),
        dd == dim * dim,
        dd >= 1,
        same_ints(check@, ci),
        same_ints(read@, ri),
        forall|k: int| 0 <= k < ri.len() ==> 0 <= #[trigger] ri[k] < 6 * dim * dim,
        forall|k: int| 0 <= k < sides.len() ==> #[trigger] sides@[k] < 6,
        forall|k: int| 0 <= k < faces.len() ==> #[trigger] faces@[k] < 6,
    ensures
        match r {
            Some(e) => seq_entry(*m, *t, string_views(seq@), sides@, faces@, ci, ri, dim as int, corner, pos as int, plus@, minus@)
                == Some((e.0@, e.1, e.2)),
            None => seq_entry(*m, *t, string_views(seq@), sides@, faces@, ci, ri, dim as int, corner, pos as int, plus@, minus@) is None,
        },
{
    let ghost sv = string_views(seq@);
    let s = match play_sequence(m, t, seq) {
        Some(s) => s,
        None => {
            return None;
        },
    };
    assert(6 * dd == 6 * dim * dim) by (nonlinear_arith)
        requires
            dd == dim * dim,
    ;
    if s.len() < 6 * dd {
        return None;
    }
    let ok = if corner {
        check_sides(&s, dim, dd, sides) && check_rings(&s, dim, dd, faces, pos)
    } else {
        check_sides(&s, dim, dd, sides) && (seq.len() < 2 || check_others(&s, dim, check, Ghost(ci), faces))
    };
    assert(sv.len() == seq.len());
    if !ok {
        return None;
    }
    match read_targets(&s, read, Ghost(ri)) {
        Some(mv) => Some((mv, rot_of(seq, plus, minus), seq.len())),
        None => None,
    }
}

/// The entries of all sequences; `None` when one has none.
pub(crate) fn effects_of(
    m: &MoveTable,
    t: &ActionTable,
    seqs: &Vec<Vec<String>>,
    sides: &Vec<usize>,
    faces: &Vec<usize>,
    check: &Vec<usize>,
    Ghost(ci): Ghost<Seq<int>>,
    read: &Vec<usize>,
    Ghost(ri): Ghost<Seq<int>>,
    dim: usize,
    dd: usize,
    corner: bool,
    pos: usize,
    plus: &String,
    minus: &String,
) -> (r: Option<Vec<(Vec<usize>, usize, usize)>>)
    requires
        m.wf(),
        t.wf(),
        cube_fits(dim as int),
        dd == dim * dim,
        dd >= 1,
        same_ints(check@, ci),
        same_ints(read@, ri),
        forall|k: int| 0 <= k < ri.len() ==> 0 <= #[trigger] ri[k] < 6 * dim * dim,
        forall|k: int| 0 <= k < sides.len() ==> #[trigger] sides@[k] < 6,
        forall|k: int| 0 <= k < faces.len() ==> #[trigger] faces@[k] < 6,
    ensures
        match r {
            Some(v) => effects_ok(*m, *t, seq_views(seqs@), sides@, faces@, ci, ri, dim as int, corner, pos as int, plus@, minus@)
                && table3_views(v@) == effects(*m, *t, seq_views(seqs@), sides@, faces@, ci, ri, dim as int, corner, pos as int, plus@, minus@),
            None => !effects_ok(*m, *t, seq_views(seqs@), sides@, faces@, ci, ri, dim as int, corner, pos as int, plus@, minus@),
        },
{
    let ghost sv = seq_views(seqs@);
    let mut out: Vec<(Vec<usize>, usize, usize)> = Vec::new();
    let mut i: usize = 0;
    while i < seqs.len()
        invariant
            i <= seqs.len(),
            sv == seq_views(seqs@),
            m.wf(),
            t.wf(),
            cube_fits(dim as int),
            dd == dim * dim,
            dd >= 1,
            same_ints(check@, ci),
            same_ints(read@, ri),
            forall|k: int| 0 <= k < ri.len() ==> 0 <= #[trigger] ri[k] < 6 * dim * dim,
            forall|k: int| 0 <= k < sides.len() ==> #[trigger] sides@[k] < 6,
            forall|k: int| 0 <= k < faces.len() ==> #[trigger] faces@[k] < 6,
            out.len() == i,
            forall|k: int|
                0 <= k < i ==> #[trigger] seq_entry(*m, *t, sv[k], sides@, faces@, ci, ri, dim as int, corner, pos as int, plus@, minus@)
                    == Some((out@[k].0@, out@[k].1, out@[k].2)),
        decreases seqs.len() - i,
    {
        assert(sv[i as int] == string_views(seqs@[i as int]@));
        match effect_of(m, t, &seqs[i], sides, faces, check, Ghost(ci), read, Ghost(ri), dim, dd, corner, pos, plus, minus) {
            Some(e) => {
                out.push(e);
            },
            None => {
                assert(seq_entry(*m, *t, sv[i as int], sides@, faces@, ci, ri, dim as int, corner, pos as int, plus@, minus@) is None);
                return None;
            },
        }
        i = i + 1;
    }
    proof {
        assert forall|k: int| 0 <= k < sv.len() implies #[trigger] seq_entry(*m, *t, sv[k], sides@, faces@, ci, ri, dim as int, corner, pos as int, plus@, minus@) is Some by {
            assert(seq_entry(*m, *t, sv[k], sides@, faces@, ci, ri, dim as int, corner, pos as int, plus@, minus@) == Some((out@[k].0@, out@[k].1, out@[k].2)));
        }
        assert(table3_views(out@) =~= effects(*m, *t, sv, sides@, faces@, ci, ri, dim as int, corner, pos as int, plus@, minus@));
    }
    Some(out)
}

/// A copy of `a`.
fn copy_list(a: &Vec<usize>) -> (r: Vec<usize>)
    ensures
        r@ == a@,
{
    let mut r: Vec<usize> = Vec::new();
    let mut i: usize = 0;
    while i < a.len()
        invariant
            i <= a.len(),
            r@ == a@.take(i as int),
        decreases a.len() - i,
    {
        r.push(a[i]);
        assert(r@ =~= a@.take(i + 1));
        i = i + 1;
    }
    assert(a@.take(a.len() as int) =~= a@);
    r
}

/// A table without its turns.
fn drop_turns(v: &Vec<(Vec<usize>, usize, usize)>) -> (r: Vec<(Vec<usize>, usize)>)
    ensures
        table_views(r@) == without_turns(table3_views(v@)),
{
    let mut out: Vec<(Vec<usize>, usize)> = Vec::new();
    let mut i: usize = 0;
    while i < v.len()
        invariant
            i <= v.len(),
            table_views(out@) == without_turns(table3_views(v@)).take(i as int),
        decreases v.len() - i,
    {
        let mv = copy_list(&v[i].0);
        let ghost before = table_views(out@);
        out.push((mv, v[i].2));
        assert(table_views(out@) =~= before.push((v@[i as int].0@, v@[i as int].2)));
        assert(without_turns(table3_views(v@))[i as int] == (v@[i as int].0@, v@[i as int].2));
        assert(table_views(out@) =~= without_turns(table3_views(v@)).take(i + 1));
        i = i + 1;
    }
    assert(without_turns(table3_views(v@)).take(v.len() as int) =~= without_turns(table3_views(v@)));
    out
}

/// Whether two lists are equal.
pub(crate) fn same_usizes(a: &Vec<usize>, b: &Vec<usize>) -> (r: bool)
    ensures
        r == (a@ == b@),
{
    if a.len() != b.len() {
        return false;
    }
    let mut i: usize = 0;
    while i < a.len()
        invariant
            i <= a.len() == b.len(),
            forall|k: int| 0 <= k < i ==> a@[k] == b@[k],
        decreases a.len() - i,
    {
        if a[i] != b[i] {
            return false;
        }
        i = i + 1;
    }
    assert(a@ =~= b@);
    true
}

/// Whether two move tables are equal by their views.
fn same_table(a: &Vec<(Vec<usize>, usize)>, b: &Vec<(Vec<usize>, usize)>) -> (r: bool)
    ensures
        r == (table_views(a@) == table_views(b@)),
{
    if a.len() != b.len() {
        assert(table_views(a@).len() != table_views(b@).len());
        return false;
    }
    let mut i: usize = 0;
    while i < a.len()
        invariant
            i <= a.len() == b.len(),
            forall|k: int| 0 <= k < i ==> table_views(a@)[k] == table_views(b@)[k],
        decreases a.len() - i,
    {
        let same = a[i].1 == b[i].1 && same_usizes(&a[i].0, &b[i].0);
        if !same {
            assert(table_views(a@)[i as int] != table_views(b@)[i as int]);
            return false;
        }
        assert(table_views(a@)[i as int] == table_views(b@)[i as int]);
        i = i + 1;
    }
    assert(table_views(a@) =~= table_views(b@));
    true
}

proof fn lemma_four_faces_small()
    ensures
        forall|k: int| 0 <= k < four_faces().len() ==> #[trigger] four_faces()[k] < 6,
        four_faces().len() == 4,
{
    assert forall|k: int| 0 <= k < four_faces().len() implies #[trigger] four_faces()[k] < 6 by {
        assert(four_faces()[0] == 0 && four_faces()[1] == 2 && four_faces()[2] == 4 && four_faces()[3] == 5);
    }
}

/// The faces 1 and 3.
fn four_side_list() -> (r: Vec<usize>)
    ensures
        r@ == four_sides(),
        forall|k: int| 0 <= k < r.len() ==> #[trigger] r@[k] < 6,
{
    let r: Vec<usize> = vec![1, 3];
    assert(r@ =~= four_sides());
    r
}

/// The faces 0, 2, 4, 5.
fn four_face_list() -> (r: Vec<usize>)
    ensures
        r@ == four_faces(),
        forall|k: int| 0 <= k < r.len() ==> #[trigger] r@[k] < 6,
{
    let r: Vec<usize> = vec![0, 2, 4, 5];
    assert(r@ =~= four_faces());
    r
}

/// The corner effects at ring `pos`, made from the moves.
fn corner_effects_at(m: &MoveTable, t: &ActionTable, dim: usize, dd: usize, pos: usize) -> (r: Option<Vec<(Vec<usize>, usize)>>)
    requires
        m.wf(),
        t.wf(),
        cube_fits(dim as int),
        dd == dim * dim,
        dd >= 1,
        pos < dim,
    ensures
        match r {
            Some(v) => corner_ok(*m, *t, dim as int, pos as int) && table_views(v@) == corner_effects(*m, *t, dim as int, pos as int),
            None => !corner_ok(*m, *t, dim as int, pos as int),
        },
{
    let targets = target_idx_four_corner(dim, pos);
    let seqs = sequence_moves_four_corner(dim, pos);
    let ghost ti = corner_targets(dim as int, pos as int, four_faces());
    proof {
        lemma_four_faces_small();
        lemma_corner_targets_bound(dim as int, pos as int, four_faces());
    }
    proof {
        reveal(corner_ok);
        reveal(corner_effects);
    }
    let sides = four_side_list();
    let faces = four_face_list();
    let none = String::new();
    match effects_of(m, t, &seqs, &sides, &faces, &targets, Ghost(ti), &targets, Ghost(ti), dim, dd, true, pos, &none, &none) {
        Some(v) => Some(drop_turns(&v)),
        None => None,
    }
}

/// The edge effects at `(y, x)`, made from the moves.
fn edge_effects_at(m: &MoveTable, t: &ActionTable, dim: usize, dd: usize, y: usize, x: usize) -> (r: Option<Vec<(Vec<usize>, usize)>>)
    requires
        m.wf(),
        t.wf(),
        cube_fits(dim as int),
        dd == dim * dim,
        dd >= 1,
        y < x < dim,
    ensures
        match r {
            Some(v) => edge_ok(*m, *t, dim as int, y as int, x as int) && table_views(v@) == edge_effects(*m, *t, dim as int, y as int, x as int),
            None => !edge_ok(*m, *t, dim as int, y as int, x as int),
        },
{
    let targets = target_idx_four_edge(dim, y, x);
    let seqs = sequence_moves_four_edge(dim, y, x);
    let ghost ti = edge_targets(dim as int, y as int, x as int, four_faces());
    proof {
        lemma_four_faces_small();
        lemma_edge_targets_bound(dim as int, y as int, x as int, four_faces());
    }
    proof {
        reveal(edge_ok);
        reveal(edge_effects);
    }
    let sides = four_side_list();
    let faces = four_face_list();
    let none = String::new();
    match effects_of(m, t, &seqs, &sides, &faces, &targets, Ghost(ti), &targets, Ghost(ti), dim, dd, false, 0, &none, &none) {
        Some(v) => Some(drop_turns(&v)),
        None => None,
    }
}

/// The table of the four-face corner search, derived from the puzzle's
/// moves: each corner sequence of every ring from `dim / 2 - 1` down to 1
/// is played on a solved cube, checked, and read as a permutation of the
/// ring's corner stickers with its length; all rings must agree.
pub fn generate_four_corner_move_for_bfs(allowed_moves: &MoveTable, dim: usize) -> (r: Option<Vec<(Vec<usize>, usize)>>)
    requires
        allowed_moves.wf(),
        cube_fits(dim as int),
    ensures
        exists|t: ActionTable| #[trigger] made_from(t, *allowed_moves) && gives_table(r, corner_table(*allowed_moves, t, dim as int)),
{
    let m = allowed_moves;
    let t = create_actions(m);
    assert(made_from(t, *m));
    if dim < 4 {
        return None;
    }
    proof {
        lemma_face_below_cube(dim as int, 0);
    }
    let dd = dim * dim;
    let top = dim / 2 - 1;
    let first = match corner_effects_at(m, &t, dim, dd, top) {
        Some(v) => v,
        None => {
            assert(!corner_ok(*m, t, dim as int, top as int));
            return None;
        },
    };
    let mut pos = top;
    while pos > 1
        invariant
            1 <= pos <= top,
            top == dim / 2 - 1,
            dim >= 4,
            m.wf(),
            t.wf(),
            made_from(t, *m),
            m == allowed_moves,
            cube_fits(dim as int),
            dd == dim * dim,
            dd >= 1,
            table_views(first@) == corner_effects(*m, t, dim as int, top as int),
            forall|p: int|
                pos <= p <= top ==> #[trigger] corner_ok(*m, t, dim as int, p) && corner_effects(*m, t, dim as int, p)
                    == corner_effects(*m, t, dim as int, top as int),
        decreases pos,
    {
        pos = pos - 1;
        let cur = match corner_effects_at(m, &t, dim, dd, pos) {
            Some(v) => v,
            None => {
                assert(!corner_ok(*m, t, dim as int, pos as int));
                return None;
            },
        };
        if !same_table(&first, &cur) {
            assert(!(corner_ok(*m, t, dim as int, pos as int) && corner_effects(*m, t, dim as int, pos as int)
                == corner_effects(*m, t, dim as int, top as int)));
            return None;
        }
    }
    proof {
        assert forall|p: int| 1 <= p <= dim as int / 2 - 1 implies #[trigger] corner_ok(*m, t, dim as int, p) && corner_effects(*m, t, dim as int, p)
            == corner_effects(*m, t, dim as int, dim as int / 2 - 1) by {
            assert(pos <= p <= top);
            assert(corner_ok(*m, t, dim as int, p));
            assert(corner_effects(*m, t, dim as int, p) == corner_effects(*m, t, dim as int, top as int));
        }
        assert(corner_effects(*m, t, dim as int, dim as int / 2 - 1) == table_views(first@));
    }
    assert(forall|p: int| 1 <= p <= dim as int / 2 - 1 ==> #[trigger] corner_ok(*m, t, dim as int, p) && corner_effects(*m, t, dim as int, p)
            == corner_effects(*m, t, dim as int, dim as int / 2 - 1));
    assert(corner_table(*m, t, dim as int) == Some(table_views(first@)));
    Some(first)
}

/// The table of the four-face edge search, derived from the puzzle's
/// moves: each edge sequence of every position `(y, x)` with
/// `1 <= y < dim / 2` and `y < x < dim - 1 - y` is played on a solved
/// cube, checked, and read as a permutation of the edge stickers with its
/// length; all positions must agree.
pub fn generate_four_edge_move_for_bfs(allowed_moves: &MoveTable, dim: usize) -> (r: Option<Vec<(Vec<usize>, usize)>>)
    requires
        allowed_moves.wf(),
        cube_fits(dim as int),
    ensures
        exists|t: ActionTable| #[trigger] made_from(t, *allowed_moves) && gives_table(r, edge_table(*allowed_moves, t, dim as int)),
{
    let m = allowed_moves;
    let t = create_actions(m);
    assert(made_from(t, *m));
    if dim < 5 {
        return None;
    }
    proof {
        lemma_face_below_cube(dim as int, 0);
    }
    let dd = dim * dim;
    let first = match edge_effects_at(m, &t, dim, dd, 1, 2) {
        Some(v) => v,
        None => {
            assert(edge_pair(dim as int, 1, 2));
            assert(!edge_ok(*m, t, dim as int, 1, 2));
            return None;
        },
    };
    let mut y: usize = 1;
    while y < dim / 2
        invariant
            1 <= y <= dim / 2,
            dim >= 5,
            m.wf(),
            t.wf(),
            made_from(t, *m),
            m == allowed_moves,
            cube_fits(dim as int),
            dd == dim * dim,
            dd >= 1,
            table_views(first@) == edge_effects(*m, t, dim as int, 1, 2),
            forall|yy: int, xx: int|
                edge_pair(dim as int, yy, xx) && yy < y ==> #[trigger] edge_ok(*m, t, dim as int, yy, xx)
                    && edge_effects(*m, t, dim as int, yy, xx) == edge_effects(*m, t, dim as int, 1, 2),
        decreases dim / 2 - y,
    {
        let mut x: usize = y + 1;
        assert forall|yy: int, xx: int|
            edge_pair(dim as int, yy, xx) && (yy < y || (yy == y && xx < x)) implies #[trigger] edge_ok(*m, t, dim as int, yy, xx)
                && edge_effects(*m, t, dim as int, yy, xx) == edge_effects(*m, t, dim as int, 1, 2) by {
            assert(yy < y);
        }
        while x < dim - 1 - y
            invariant
                1 <= y < dim / 2,
                y + 1 <= x,
                x <= dim - 1 - y || x == y + 1,
                dim >= 5,
                m.wf(),
                t.wf(),
                made_from(t, *m),
                m == allowed_moves,
                cube_fits(dim as int),
                dd == dim * dim,
                dd >= 1,
                table_views(first@) == edge_effects(*m, t, dim as int, 1, 2),
                forall|yy: int, xx: int|
                    edge_pair(dim as int, yy, xx) && (yy < y || (yy == y && xx < x)) ==> #[trigger] edge_ok(*m, t, dim as int, yy, xx)
                        && edge_effects(*m, t, dim as int, yy, xx) == edge_effects(*m, t, dim as int, 1, 2),
            decreases dim - x,
        {
            let cur = match edge_effects_at(m, &t, dim, dd, y, x) {
                Some(v) => v,
                None => {
                    assert(edge_pair(dim as int, y as int, x as int));
                    assert(!edge_ok(*m, t, dim as int, y as int, x as int));
                    return None;
                },
            };
            if !same_table(&first, &cur) {
                assert(edge_pair(dim as int, y as int, x as int));
                assert(!(edge_ok(*m, t, dim as int, y as int, x as int) && edge_effects(*m, t, dim as int, y as int, x as int)
                    == edge_effects(*m, t, dim as int, 1, 2)));
                return None;
            }
            x = x + 1;
        }
        y = y + 1;
    }
    Some(first)
}

} // verus!
