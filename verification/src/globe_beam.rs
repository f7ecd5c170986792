//! The globe solver's beam search: from the initial state, every move of
//! every kept state is tried, the candidates are ranked by `calc_cost` (ties
//! broken at random), and the best unseen states are kept. A state of cost 0
//! ends a solution, completed by moves that put every row on its side.
use vstd::prelude::*;
use crate::globe::{ctx_ok, globe_setup, setup_result, GlobeCtx, Puzzle};
use crate::globe_cost::{calc_cost, calc_cost_spec, cand_lt, compare_candidate, pack_state, Candidate};
use crate::moves::{layer_move, turn};
use crate::packed_set::PackedSet;
use crate::perm::{all_known, apply_action, apply_pairs, apply_path, lemma_apply_pairs_values, values_below, ActionTable, MoveTable};
use crate::text::{chars_of, join_chars, join_seq, split_chars, split_seq, string_of, views};

verus! {

broadcast use vstd::seq_lib::group_to_multiset_ensures;

/// `rand::random::<u32>()`: a random number, of which nothing is promised.
#[verifier::external_body]
pub(crate) fn random_u32() -> u32 {
    rand::random::<u32>()
}

/// `slice::sort_by` with `compare_candidate`: the same candidates, ordered
/// by cost, then by tie-breaker (std documents that `sort_by` sorts the
/// slice by the comparison, keeping the elements).
#[verifier::external_body]
fn sort_candidates(c: &mut Vec<Candidate>)
    ensures
        final(c)@.to_multiset() == old(c)@.to_multiset(),
        final(c)@.len() == old(c)@.len(),
        forall|i: int, j: int| 0 <= i < j < final(c)@.len() ==> !cand_lt(#[trigger] final(c)@[j], #[trigger] final(c)@[i]),
{
    c.sort_by(compare_candidate);
}

/// The moves that led to history entry `id`: those of its parent's path,
/// then its own.
pub open spec fn hist_path(hist: Seq<(usize, Option<usize>)>, id: int) -> Seq<usize>
    decreases id,
{
    if id < 0 || id >= hist.len() {
        Seq::empty()
    } else {
        match hist[id].1 {
            None => Seq::empty(),
            Some(p) => if p < id {
                hist_path(hist, p as int).push(hist[id].0)
            } else {
                Seq::empty()
            },
        }
    }
}

/// Every entry but a root records a move of the table and a parent before it.
pub open spec fn hist_ok(hist: Seq<(usize, Option<usize>)>, tlen: nat) -> bool {
    forall|id: int|
        0 <= id < hist.len() ==> (#[trigger] hist[id].1 matches Some(p) ==> p < id && hist[id].0 < tlen)
}

pub(crate) proof fn lemma_hist_ext(hist: Seq<(usize, Option<usize>)>, e: (usize, Option<usize>), id: int)
    requires
        0 <= id < hist.len(),
    ensures
        hist_path(hist.push(e), id) == hist_path(hist, id),
    decreases id,
{
    let h2 = hist.push(e);
    assert(h2[id] == hist[id]);
    match hist[id].1 {
        None => {},
        Some(p) => {
            if p < id {
                lemma_hist_ext(hist, e, p as int);
            }
        },
    }
}

pub(crate) proof fn lemma_hist_below(hist: Seq<(usize, Option<usize>)>, tlen: nat, id: int)
    requires
        hist_ok(hist, tlen),
    ensures
        forall|k: int| 0 <= k < hist_path(hist, id).len() ==> #[trigger] hist_path(hist, id)[k] < tlen,
    decreases id,
{
    if 0 <= id < hist.len() {
        match hist[id].1 {
            None => {},
            Some(p) => {
                if p < id {
                    lemma_hist_below(hist, tlen, p as int);
                    let q = hist_path(hist, p as int);
                    assert forall|k: int| 0 <= k < hist_path(hist, id).len() implies #[trigger] hist_path(hist, id)[k] < tlen by {
                        if k < q.len() {
                            assert(hist_path(hist, id)[k] == q[k]);
                        }
                    }
                }
            },
        }
    }
}

/// The moves that led to history entry `id`.
pub(crate) fn trace(hist: &Vec<(usize, Option<usize>)>, id: usize, Ghost(tlen): Ghost<nat>) -> (r: Vec<usize>)
    requires
        hist_ok(hist@, tlen),
        id < hist.len(),
    ensures
        r@ == hist_path(hist@, id as int),
{
    let mut rev: Vec<usize> = Vec::new();
    let mut cur = id;
    while hist[cur].1.is_some()
        invariant
            hist_ok(hist@, tlen),
            cur < hist.len(),
            hist_path(hist@, id as int) == hist_path(hist@, cur as int) + rev@.reverse(),
        decreases cur,
    {
        let p = hist[cur].1.unwrap();
        let a = hist[cur].0;
        assert(p < cur);
        let ghost before = rev@;
        rev.push(a);
        assert(hist_path(hist@, cur as int) == hist_path(hist@, p as int).push(a));
        assert(rev@.reverse() =~= seq![a] + before.reverse());
        assert(hist_path(hist@, p as int).push(a) + before.reverse() =~= hist_path(hist@, p as int) + rev@.reverse());
        cur = p;
    }
    assert(hist_path(hist@, cur as int) =~= Seq::<usize>::empty());
    let mut r: Vec<usize> = Vec::new();
    let mut k = rev.len();
    while k > 0
        invariant
            k <= rev.len(),
            r@ == rev@.reverse().take(rev.len() - k),
        decreases k,
    {
        k = k - 1;
        r.push(rev[k]);
        assert(r@ =~= rev@.reverse().take(rev.len() - k));
    }
    assert(r@ =~= rev@.reverse());
    assert(hist_path(hist@, id as int) =~= rev@.reverse());
    r
}

/// The index of the first move of `t` named `name`.
pub fn find_move(t: &ActionTable, name: &String) -> (r: Option<usize>)
    ensures
        r matches Some(i) ==> i < t.names.len() && t.names[i as int]@ == name@,
        r matches Some(i) ==> t.is_first(name@, i as int),
        r is None ==> forall|i: int| 0 <= i < t.names.len() ==> t.names[i]@ != name@,
{
    let mut i: usize = 0;
    while i < t.names.len()
        invariant
            i <= t.names.len(),
            forall|j: int| 0 <= j < i ==> t.names[j]@ != name@,
        decreases t.names.len() - i,
    {
        if t.names[i] == *name {
            return Some(i);
        }
        i = i + 1;
    }
    None
}

fn push_move(t: &ActionTable, sol: &mut Vec<usize>, name: String) -> (ok: bool)
    requires
        t.wf(),
    ensures
        ok == t.knows(name@),
        ok ==> final(sol)@ == old(sol)@.push(final(sol)@.last()) && final(sol)@.last() < t.actions.len(),
        ok ==> t.names[final(sol)@.last() as int]@ == name@,
        !ok ==> final(sol)@ == old(sol)@,
{
    match find_move(t, &name) {
        Some(i) => {
            sol.push(i);
            true
        },
        None => false,
    }
}

/// The side of the first piece of each row.
pub open spec fn row_sides(state: Seq<usize>, width: int, height: int, half: int) -> Seq<int> {
    Seq::new(height as nat, |h: int| state[h * width] as int / half)
}

/// How many of the first `n` rows are not on their side (the side of row
/// `h` is `h / hh`).
pub open spec fn wrong_rows(sides: Seq<int>, hh: int, n: int) -> int
    decreases n,
{
    if n <= 0 {
        0
    } else {
        wrong_rows(sides, hh, n - 1) + if sides[n - 1] != (n - 1) / hh {
            1int
        } else {
            0int
        }
    }
}

/// Row `h` is turned half round: with at most a quarter of the rows wrong,
/// when it is wrong; with more, when it is right.
pub open spec fn turned_row(sides: Seq<int>, hh: int, wrong: int, height: int, h: int) -> bool {
    (wrong <= height / 4 && sides[h] != h / hh) || (wrong > height / 4 && sides[h] == h / hh)
}

/// The half turns of the first `n` rows that are turned: `width / 2` turns
/// `r<h>` each.
pub open spec fn row_turns(sides: Seq<int>, hh: int, wrong: int, height: int, width: int, n: int) -> Seq<Seq<char>>
    decreases n,
{
    if n <= 0 {
        Seq::empty()
    } else {
        row_turns(sides, hh, wrong, height, width, n - 1) + if turned_row(sides, hh, wrong, height, n - 1) {
            Seq::new((width / 2) as nat, |i: int| layer_move(false, 'r', (n - 1) as nat))
        } else {
            Seq::empty()
        }
    }
}

/// The moves that complete a solution from `state`: nothing when the upper
/// rows are all on their side; else `f0`, the row turns, and `f0` (at most
/// a quarter of the rows wrong) or `f{width/2}`.
pub open spec fn fixup_moves(state: Seq<usize>, width: int, height: int, half: int) -> Seq<Seq<char>> {
    let hh = height / 2;
    let sides = row_sides(state, width, height, half);
    let wrong = wrong_rows(sides, hh, hh);
    if wrong == 0 {
        Seq::empty()
    } else {
        seq![layer_move(false, 'f', 0)] + row_turns(sides, hh, wrong, height, width, height) + seq![
            if wrong <= height / 4 {
                layer_move(false, 'f', 0)
            } else {
                layer_move(false, 'f', (width / 2) as nat)
            },
        ]
    }
}

proof fn lemma_row_turns_prefix(sides: Seq<int>, hh: int, wrong: int, height: int, width: int, n: int, m: int)
    requires
        0 <= n <= m,
    ensures
        row_turns(sides, hh, wrong, height, width, n).len() <= row_turns(sides, hh, wrong, height, width, m).len(),
        row_turns(sides, hh, wrong, height, width, m).take(row_turns(sides, hh, wrong, height, width, n).len() as int)
            == row_turns(sides, hh, wrong, height, width, n),
    decreases m - n,
{
    if n < m {
        lemma_row_turns_prefix(sides, hh, wrong, height, width, n, m - 1);
        let a = row_turns(sides, hh, wrong, height, width, n);
        let b = row_turns(sides, hh, wrong, height, width, m - 1);
        let c = row_turns(sides, hh, wrong, height, width, m);
        assert(c.take(a.len() as int) =~= b.take(a.len() as int));
    } else {
        let a = row_turns(sides, hh, wrong, height, width, n);
        assert(a.take(a.len() as int) =~= a);
    }
}

/// A move that is missing from the table at place `j` of `moves`.
proof fn lemma_unknown_at(t: ActionTable, moves: Seq<Seq<char>>, j: int)
    requires
        0 <= j < moves.len(),
        !t.knows(moves[j]),
    ensures
        !all_known(t, moves),
{
}

proof fn lemma_names_push(t: ActionTable, before: Seq<usize>, after: Seq<usize>, l: int, name: Seq<char>)
    requires
        0 <= l <= before.len(),
        after == before.push(after.last()),
        0 <= after.last() < t.names.len(),
        t.names[after.last() as int]@ == name,
    ensures
        move_names(t, after.skip(l)) == move_names(t, before.skip(l)).push(name),
{
    assert(move_names(t, after.skip(l)) =~= move_names(t, before.skip(l)).push(name));
}

proof fn lemma_extend(s0: Seq<usize>, before: Seq<usize>, after: Seq<usize>, tlen: nat)
    requires
        before.len() >= s0.len(),
        before.take(s0.len() as int) == s0,
        forall|k: int| s0.len() <= k < before.len() ==> #[trigger] before[k] < tlen,
        after == before.push(after.last()),
        after.last() < tlen,
    ensures
        after.len() >= s0.len(),
        after.take(s0.len() as int) == s0,
        forall|k: int| s0.len() <= k < after.len() ==> #[trigger] after[k] < tlen,
{
    assert(after.take(s0.len() as int) =~= before.take(s0.len() as int));
    assert forall|k: int| s0.len() <= k < after.len() implies #[trigger] after[k] < tlen by {
        if k < before.len() {
            assert(after[k] == before[k]);
        }
    }
}

/// Completes a solution that reached a state of cost 0, in which every row
/// is of one side (`fixup_moves`): when some upper row is on the wrong
/// side, turns `f0`, turns half round each row that (as fewer or more than
/// a quarter of the rows are wrong) is wrong or right, and turns `f0` or
/// `f{width/2}` back. `false` when a move is missing or there are fewer
/// than two rows.
fn globe_fixup(c: &GlobeCtx, state: &Vec<usize>, sol: &mut Vec<usize>, width: usize, height: usize) -> (ok: bool)
    requires
        ctx_ok(*c, width as int, height as int),
        state.len() == c.init.len(),
    ensures
        final(sol)@.len() >= old(sol)@.len(),
        final(sol)@.take(old(sol)@.len() as int) == old(sol)@,
        forall|k: int| old(sol)@.len() <= k < final(sol)@.len() ==> #[trigger] final(sol)@[k] < c.table.actions.len(),
        ok <==> height >= 2 && all_known(c.table, fixup_moves(state@, width as int, height as int, (c.piece_num / 2) as int)),
        ok ==> move_names(c.table, final(sol)@.skip(old(sol)@.len() as int)) == fixup_moves(
            state@,
            width as int,
            height as int,
            (c.piece_num / 2) as int,
        ),
{
    if height < 2 {
        assert(sol@.take(sol@.len() as int) =~= sol@);
        return false;
    }
    let half = c.piece_num / 2;
    let hh = height / 2;
    let ghost sides = row_sides(state@, width as int, height as int, half as int);
    let ghost fix = fixup_moves(state@, width as int, height as int, half as int);
    let mut side: Vec<usize> = Vec::new();
    let mut h: usize = 0;
    while h < height
        invariant
            h <= height,
            side.len() == h,
            state.len() == c.init.len() == width * height,
            1 <= width,
            half >= 1,
            sides == row_sides(state@, width as int, height as int, half as int),
            forall|k: int| 0 <= k < h ==> side@[k] as int == #[trigger] sides[k],
        decreases height - h,
    {
        assert(h * width < width * height) by (nonlinear_arith)
            requires
                h < height,
                1 <= width,
        ;
        side.push(state[h * width] / half);
        h = h + 1;
    }
    let mut wrong: usize = 0;
    let mut h: usize = 0;
    while h < hh
        invariant
            h <= hh,
            hh == height / 2 >= 1,
            side.len() == height,
            forall|k: int| 0 <= k < height ==> side@[k] as int == #[trigger] sides[k],
            wrong <= h,
            wrong == wrong_rows(sides, hh as int, h as int),
        decreases hh - h,
    {
        assert(side@[h as int] as int == sides[h as int]);
        if side[h] != h / hh {
            wrong = wrong + 1;
        }
        h = h + 1;
    }
    let ghost s0 = sol@;
    let ghost l0 = s0.len() as int;
    assert(sol@.take(s0.len() as int) =~= s0);
    if wrong > 0 {
        let ghost rt = row_turns(sides, hh as int, wrong as int, height as int, width as int, height as int);
        let ghost last_name = if wrong <= height / 4 {
            layer_move(false, 'f', 0)
        } else {
            layer_move(false, 'f', (width / 2) as nat)
        };
        assert(fix == seq![layer_move(false, 'f', 0)] + rt + seq![last_name]);
        if !push_move(&c.table, sol, turn(false, 'f', 0)) {
            proof {
                lemma_unknown_at(c.table, fix, 0);
            }
            return false;
        }
        proof {
            lemma_extend(s0, s0, sol@, c.table.actions.len() as nat);
            assert(move_names(c.table, sol@.skip(l0)) =~= seq![layer_move(false, 'f', 0)]);
        }
        let mut h: usize = 0;
        while h < height
            invariant
                h <= height == side.len(),
                hh == height / 2 >= 1,
                forall|k: int| 0 <= k < height ==> side@[k] as int == #[trigger] sides[k],
                c.table.wf(),
                s0 == old(sol)@,
                l0 == s0.len(),
                sol@.len() >= s0.len(),
                sol@.take(s0.len() as int) == s0,
                forall|k: int| s0.len() <= k < sol@.len() ==> #[trigger] sol@[k] < c.table.actions.len(),
                rt == row_turns(sides, hh as int, wrong as int, height as int, width as int, height as int),
                fix == seq![layer_move(false, 'f', 0)] + rt + seq![last_name],
                fix == fixup_moves(state@, width as int, height as int, (c.piece_num / 2) as int),
                move_names(c.table, sol@.skip(l0)) == seq![layer_move(false, 'f', 0)] + row_turns(
                    sides,
                    hh as int,
                    wrong as int,
                    height as int,
                    width as int,
                    h as int,
                ),
            decreases height - h,
        {
            let ghost rh = row_turns(sides, hh as int, wrong as int, height as int, width as int, h as int);
            let home = h / hh;
            assert(side@[h as int] as int == sides[h as int]);
            if (wrong <= height / 4 && side[h] != home) || (wrong > height / 4 && side[h] == home) {
                assert(turned_row(sides, hh as int, wrong as int, height as int, h as int));
                proof {
                    lemma_row_turns_prefix(sides, hh as int, wrong as int, height as int, width as int, (h + 1) as int, height as int);
                }
                let mut t: usize = 0;
                while t < width / 2
                    invariant
                        t <= width / 2,
                        h < height,
                        c.table.wf(),
                        s0 == old(sol)@,
                        l0 == s0.len(),
                        sol@.len() >= s0.len(),
                        sol@.take(s0.len() as int) == s0,
                        forall|k: int| s0.len() <= k < sol@.len() ==> #[trigger] sol@[k] < c.table.actions.len(),
                        rh == row_turns(sides, hh as int, wrong as int, height as int, width as int, h as int),
                        turned_row(sides, hh as int, wrong as int, height as int, h as int),
                        rt == row_turns(sides, hh as int, wrong as int, height as int, width as int, height as int),
                        rt.take(row_turns(sides, hh as int, wrong as int, height as int, width as int, (h + 1) as int).len() as int)
                            == row_turns(sides, hh as int, wrong as int, height as int, width as int, (h + 1) as int),
                        row_turns(sides, hh as int, wrong as int, height as int, width as int, (h + 1) as int).len() <= rt.len(),
                        fix == seq![layer_move(false, 'f', 0)] + rt + seq![last_name],
                        fix == fixup_moves(state@, width as int, height as int, (c.piece_num / 2) as int),
                        height >= 2,
                        move_names(c.table, sol@.skip(l0)) == seq![layer_move(false, 'f', 0)] + rh + Seq::new(
                            t as nat,
                            |i: int| layer_move(false, 'r', h as nat),
                        ),
                    decreases width / 2 - t,
                {
                    let ghost before = sol@;
                    let ghost r1 = row_turns(sides, hh as int, wrong as int, height as int, width as int, (h + 1) as int);
                    assert(r1 == rh + Seq::new((width / 2) as nat, |i: int| layer_move(false, 'r', h as nat)));
                    assert(r1[rh.len() + t] == layer_move(false, 'r', h as nat));
                    assert(rt[rh.len() + t] == r1[rh.len() + t]);
                    assert(fix[1 + rh.len() + t] == layer_move(false, 'r', h as nat));
                    if !push_move(&c.table, sol, turn(false, 'r', h)) {
                        proof {
                            lemma_unknown_at(c.table, fix, 1 + rh.len() + t);
                        }
                        return false;
                    }
                    proof {
                        lemma_extend(s0, before, sol@, c.table.actions.len() as nat);
                        lemma_names_push(c.table, before, sol@, l0, layer_move(false, 'r', h as nat));
                        assert(seq![layer_move(false, 'f', 0)] + rh + Seq::new((t + 1) as nat, |i: int| layer_move(false, 'r', h as nat))
                            =~= (seq![layer_move(false, 'f', 0)] + rh + Seq::new(t as nat, |i: int| layer_move(false, 'r', h as nat))).push(
                            layer_move(false, 'r', h as nat),
                        ));
                    }
                    t = t + 1;
                }
                assert(Seq::new((width / 2) as nat, |i: int| layer_move(false, 'r', h as nat)) =~= Seq::new(t as nat, |i: int| layer_move(false, 'r', h as nat)));
                assert(seq![layer_move(false, 'f', 0)] + row_turns(sides, hh as int, wrong as int, height as int, width as int, (h + 1) as int)
                    =~= seq![layer_move(false, 'f', 0)] + rh + Seq::new(t as nat, |i: int| layer_move(false, 'r', h as nat)));
            } else {
                assert(!turned_row(sides, hh as int, wrong as int, height as int, h as int));
                assert(row_turns(sides, hh as int, wrong as int, height as int, width as int, (h + 1) as int) =~= rh);
            }
            h = h + 1;
        }
        let ghost before = sol@;
        let last = if wrong <= height / 4 {
            turn(false, 'f', 0)
        } else {
            turn(false, 'f', width / 2)
        };
        assert(last@ == last_name);
        assert(fix[fix.len() - 1] == last_name);
        if !push_move(&c.table, sol, last) {
            proof {
                lemma_unknown_at(c.table, fix, fix.len() - 1);
            }
            return false;
        }
        proof {
            lemma_extend(s0, before, sol@, c.table.actions.len() as nat);
            lemma_names_push(c.table, before, sol@, l0, last_name);
            assert(move_names(c.table, sol@.skip(l0)) =~= fix);
        }
    } else {
        assert(fix =~= Seq::<Seq<char>>::empty());
        assert(move_names(c.table, sol@.skip(l0)) =~= fix);
    }
    proof {
        if !all_known(c.table, fix) {
            let j = choose|j: int| 0 <= j < fix.len() && !c.table.knows(#[trigger] fix[j]);
            assert(move_names(c.table, sol@.skip(l0))[j] == fix[j]);
            let k = sol@.skip(l0)[j];
            assert(c.table.names[k as int]@ == fix[j]);
            assert(c.table.knows(fix[j]));
        }
    }
    true
}

/// A kept state of the beam: its pieces, its history entry and its cost.
pub struct GNode {
    pub state: Vec<usize>,
    pub id: usize,
    pub cost: i32,
}

/// The node's state is the initial state after the moves of its history
/// entry, with pieces of the context's types.
pub open spec fn node_ok(nd: GNode, hist: Seq<(usize, Option<usize>)>, c: GlobeCtx) -> bool {
    &&& nd.id < hist.len()
    &&& nd.state@ == apply_path(c.table, c.init@, hist_path(hist, nd.id as int))
    &&& nd.state.len() == c.init.len()
    &&& values_below(nd.state@, c.piece_num as nat)
}

/// Every node is as `node_ok` says.
pub open spec fn nodes_ok(nodes: Seq<GNode>, hist: Seq<(usize, Option<usize>)>, c: GlobeCtx) -> bool {
    forall|j: int| 0 <= j < nodes.len() ==> node_ok(#[trigger] nodes[j], hist, c)
}

/// Every candidate extends a node of `n` by a move of the table.
pub open spec fn cands_ok(cands: Seq<Candidate>, n: nat, tlen: nat) -> bool {
    forall|k: int| 0 <= k < cands.len() ==> #[trigger] cands[k].parent < n && cands[k].action < tlen
}

/// A solution of the beam search from the context's initial state, with
/// fewer than `steps` moves of the table: empty when the initial state
/// already has cost 0, else a prefix reaches a state of cost 0 and the
/// rest is exactly the completion `fixup_moves` of that state.
pub open spec fn beam_found(c: GlobeCtx, p: Seq<usize>, steps: int, width: int, height: int) -> bool {
    &&& forall|k: int| 0 <= k < p.len() ==> #[trigger] p[k] < c.table.actions.len()
    &&& p.len() == 0 ==> calc_cost_spec(c.init@, width, height, c.piece_num as int) == 0
    &&& p.len() > 0 ==> p.len() < steps && exists|k: int|
        0 < k <= p.len() && calc_cost_spec(apply_path(c.table, c.init@, #[trigger] p.take(k)), width, height, c.piece_num as int) == 0
            && move_names(c.table, p.skip(k)) == fixup_moves(
            apply_path(c.table, c.init@, p.take(k)),
            width,
            height,
            (c.piece_num / 2) as int,
        )
}

proof fn lemma_keep_nodes(nodes: Seq<GNode>, hist: Seq<(usize, Option<usize>)>, e: (usize, Option<usize>), c: GlobeCtx)
    requires
        nodes_ok(nodes, hist, c),
    ensures
        nodes_ok(nodes, hist.push(e), c),
{
    assert forall|j: int| 0 <= j < nodes.len() implies node_ok(#[trigger] nodes[j], hist.push(e), c) by {
        assert(node_ok(nodes[j], hist, c));
        lemma_hist_ext(hist, e, nodes[j].id as int);
    }
}

proof fn lemma_div_side(x: usize, d: usize)
    requires
        d >= 1,
        x < 2 * d,
    ensures
        x / d <= 1,
{
    assert(x / d <= 1) by (nonlinear_arith)
        requires
            d >= 1,
            x < 2 * d,
    ;
}

/// The beam search on a set-up context: at most `current_step - 1` rounds,
/// each keeping the 10000 best unseen states. Gives the moves of the
/// shortest solution found that is shorter than `current_step`: the moves
/// to the first state of cost 0 it reached, completed by `globe_fixup`.
/// `None` when none was found (or a completing move is missing).
pub fn beam_search_ctx(c: &GlobeCtx, current_step: usize, width: usize, height: usize) -> (r: Option<Vec<usize>>)
    requires
        ctx_ok(*c, width as int, height as int),
    ensures
        r matches Some(p) ==> beam_found(*c, p@, current_step as int, width as int, height as int),
        calc_cost_spec(c.init@, width as int, height as int, c.piece_num as int) == 0 ==> (r matches Some(p) && p@.len() == 0),
{
    let beam_width: usize = 10000;
    let n = c.piece_num;
    let ghost tlen = c.table.actions.len() as nat;
    let init_cost = calc_cost(&c.init, width, height, n);
    if init_cost == 0 {
        let p: Vec<usize> = Vec::new();
        return Some(p);
    }
    let mut history: Vec<(usize, Option<usize>)> = Vec::new();
    history.push((0, None));
    let mut nodes: Vec<GNode> = Vec::new();
    let first = GNode { state: c.init.clone(), id: 0, cost: init_cost };
    assert(first.state@ =~= c.init@);
    assert(hist_path(history@, 0) =~= Seq::<usize>::empty());
    nodes.push(first);
    let mut checked = PackedSet::new();
    let mut solution: Option<Vec<usize>> = None;
    let mut current_best = current_step;
    let mut step: usize = 1;
    while step < current_step
        invariant
            ctx_ok(*c, width as int, height as int),
            n == c.piece_num,
            tlen == c.table.actions.len(),
            calc_cost_spec(c.init@, width as int, height as int, n as int) != 0,
            hist_ok(history@, tlen),
            nodes_ok(nodes@, history@, *c),
            current_best <= current_step,
            solution is None ==> current_best == current_step,
            solution matches Some(p) ==> p.len() == current_best && beam_found(*c, p@, current_step as int, width as int, height as int),
        decreases current_step - step,
    {
        if step >= current_best {
            break;
        }
        let mut cands: Vec<Candidate> = Vec::new();
        let mut idx: usize = 0;
        while idx < nodes.len()
            invariant
                ctx_ok(*c, width as int, height as int),
                n == c.piece_num,
                tlen == c.table.actions.len(),
                calc_cost_spec(c.init@, width as int, height as int, n as int) != 0,
                hist_ok(history@, tlen),
                nodes_ok(nodes@, history@, *c),
                cands_ok(cands@, nodes.len() as nat, tlen),
                current_best <= current_step,
                solution is None ==> current_best == current_step,
                solution matches Some(p) ==> p.len() == current_best && beam_found(*c, p@, current_step as int, width as int, height as int),
            decreases nodes.len() - idx,
        {
            let mut i: usize = 0;
            while i < c.table.actions.len()
                invariant
                    idx < nodes.len(),
                    ctx_ok(*c, width as int, height as int),
                    n == c.piece_num,
                    tlen == c.table.actions.len(),
                    calc_cost_spec(c.init@, width as int, height as int, n as int) != 0,
                    hist_ok(history@, tlen),
                    nodes_ok(nodes@, history@, *c),
                    cands_ok(cands@, nodes.len() as nat, tlen),
                    current_best <= current_step,
                    solution is None ==> current_best == current_step,
                    solution matches Some(p) ==> p.len() == current_best && beam_found(*c, p@, current_step as int, width as int, height as int),
                decreases c.table.actions.len() - i,
            {
                let node = &nodes[idx];
                assert(node_ok(*node, history@, *c));
                assert(c.table.fits(c.init.len() as nat));
                assert(crate::perm::action_fits(c.table.actions[i as int]@, node.state.len() as nat));
                let new_state = apply_action(&node.state, &c.table.actions[i]);
                proof {
                    lemma_apply_pairs_values(node.state@, node.state@, c.table.actions[i as int]@, n as nat);
                }
                let new_cost = calc_cost(&new_state, width, height, n);
                if new_cost == 0 {
                    let mut sol = trace(&history, node.id, Ghost(tlen));
                    let ghost path = sol@;
                    proof {
                        lemma_hist_below(history@, tlen, node.id as int);
                    }
                    sol.push(i);
                    let ghost p1 = sol@;
                    assert(p1.drop_last() == path);
                    assert(apply_path(c.table, c.init@, p1) == new_state@);
                    if !globe_fixup(c, &new_state, &mut sol, width, height) {
                        return None;
                    }
                    proof {
                        assert(sol@.take(p1.len() as int) == p1);
                        assert forall|k: int| 0 <= k < sol@.len() implies #[trigger] sol@[k] < tlen by {
                            if k < p1.len() {
                                assert(sol@[k] == p1[k]);
                                if k < path.len() {
                                    assert(p1[k] == path[k]);
                                }
                            }
                        }
                    }
                    if sol.len() < current_best {
                        current_best = sol.len();
                        proof {
                            assert(calc_cost_spec(apply_path(c.table, c.init@, sol@.take(p1.len() as int)), width as int, height as int, n as int) == 0);
                            assert(move_names(c.table, sol@.skip(p1.len() as int)) == fixup_moves(
                                apply_path(c.table, c.init@, sol@.take(p1.len() as int)),
                                width as int,
                                height as int,
                                (c.piece_num / 2) as int,
                            ));
                        }
                        solution = Some(sol);
                    }
                }
                let rnd = random_u32();
                cands.push(Candidate { parent: idx, action: i, cost: new_cost, rand: rnd });
                i = i + 1;
            }
            idx = idx + 1;
        }
        let ghost before_sort = cands@;
        sort_candidates(&mut cands);
        assert(cands_ok(cands@, nodes.len() as nat, tlen)) by {
            assert forall|k: int| 0 <= k < cands@.len() implies #[trigger] cands@[k].parent < nodes.len() && cands@[k].action < tlen by {
                assert(cands@.contains(cands@[k]));
                assert(cands@.to_multiset().count(cands@[k]) > 0);
                assert(before_sort.to_multiset().count(cands@[k]) > 0);
                assert(before_sort.contains(cands@[k]));
            }
        }
        let mut next_nodes: Vec<GNode> = Vec::new();
        let mut k: usize = 0;
        while k < cands.len() && next_nodes.len() < beam_width
            invariant
                ctx_ok(*c, width as int, height as int),
                n == c.piece_num,
                tlen == c.table.actions.len(),
                hist_ok(history@, tlen),
                nodes_ok(nodes@, history@, *c),
                nodes_ok(next_nodes@, history@, *c),
                cands_ok(cands@, nodes.len() as nat, tlen),
            decreases cands.len() - k,
        {
            let parent = cands[k].parent;
            let action = cands[k].action;
            let cost = cands[k].cost;
            let node = &nodes[parent];
            assert(node_ok(*node, history@, *c));
            assert(c.table.fits(c.init.len() as nat));
            assert(crate::perm::action_fits(c.table.actions[action as int]@, node.state.len() as nat));
            let new_state = apply_action(&node.state, &c.table.actions[action]);
            proof {
                lemma_apply_pairs_values(node.state@, node.state@, c.table.actions[action as int]@, n as nat);
                assert forall|j: int| 0 <= j < new_state.len() implies #[trigger] new_state@[j] / (n / 2) <= 1 by {
                    lemma_div_side(new_state@[j], n / 2);
                }
            }
            let packed = pack_state(&new_state, n / 2);
            if !checked.contains(&packed) {
                checked.insert(packed);
                let id = history.len();
                let e = (action, Some(node.id));
                let ghost old_hist = history@;
                proof {
                    lemma_keep_nodes(nodes@, old_hist, e, *c);
                    lemma_keep_nodes(next_nodes@, old_hist, e, *c);
                    lemma_hist_ext(old_hist, e, node.id as int);
                }
                history.push(e);
                let ghost old_path = hist_path(old_hist, node.id as int);
                assert(history@[id as int] == e);
                assert(hist_path(history@, id as int) == old_path.push(action));
                assert(old_path.push(action).drop_last() =~= old_path);
                assert(apply_path(c.table, c.init@, old_path.push(action)) == new_state@);
                let nd = GNode { state: new_state, id, cost };
                assert(node_ok(nd, history@, *c));
                next_nodes.push(nd);
                assert(nodes_ok(next_nodes@, history@, *c)) by {
                    assert forall|j: int| 0 <= j < next_nodes@.len() implies node_ok(#[trigger] next_nodes@[j], history@, *c) by {
                        if j < next_nodes@.len() - 1 {
                            assert(next_nodes@[j] == next_nodes@.drop_last()[j]);
                        } else {
                            assert(next_nodes@[j] == nd);
                        }
                    }
                }
            }
            k = k + 1;
        }
        nodes = next_nodes;
        step = step + 1;
    }
    solution
}

/// The globe beam search on a puzzle: the moves of the solution found, by
/// name, joined by `.`. `Some("")` when the initial state has cost 0;
/// `None` when the set-up fails or no solution shorter than `current_best`
/// (counted in moves) was found.
pub fn beam_search(
    puzzle: &Puzzle,
    allowed_move: &MoveTable,
    current_best: &String,
    width: usize,
    height: usize,
    _id: usize,
) -> (r: Option<String>)
    requires
        allowed_move.wf(),
    ensures
        r matches Some(s) ==> exists|c: GlobeCtx, p: Seq<usize>|
            setup_result(*puzzle, *allowed_move, width as int, height as int, c) && beam_found(
                c,
                p,
                split_seq(current_best@, '.').len() as int,
                width as int,
                height as int,
            ) && s@ == join_seq(move_names(c.table, p), '.'),
        (forall|c: GlobeCtx| !setup_result(*puzzle, *allowed_move, width as int, height as int, c)) ==> r is None,
        forall|c: GlobeCtx|
            #[trigger] setup_result(*puzzle, *allowed_move, width as int, height as int, c) && calc_cost_spec(
                c.init@,
                width as int,
                height as int,
                c.piece_num as int,
            ) == 0 ==> (r matches Some(s) && s@ == Seq::<char>::empty()),
{
    let text = chars_of(current_best.as_str());
    let parts = split_chars(&text, '.');
    let current_step = parts.len();
    let c = match globe_setup(puzzle, allowed_move, width, height) {
        Some(c) => c,
        None => {
            return None;
        },
    };
    match beam_search_ctx(&c, current_step, width, height) {
        Some(p) => {
            let s = path_text(&c.table, &p);
            proof {
                if p@.len() == 0 {
                    assert(move_names(c.table, p@) =~= Seq::<Seq<char>>::empty());
                }
            }
            assert(views(parts@).len() == parts@.len());
            assert(setup_result(*puzzle, *allowed_move, width as int, height as int, c) && beam_found(
                c,
                p@,
                split_seq(current_best@, '.').len() as int,
                width as int,
                height as int,
            ) && s@ == join_seq(move_names(c.table, p@), '.'));
            Some(s)
        },
        None => None,
    }
}

/// The names of the moves with indexes `p`.
pub open spec fn move_names(t: ActionTable, p: Seq<usize>) -> Seq<Seq<char>> {
    p.map_values(|i: usize| t.names[i as int]@)
}

/// The names of the moves with indexes `p`, joined by `.`.
pub fn path_text(t: &ActionTable, p: &Vec<usize>) -> (s: String)
    requires
        forall|k: int| 0 <= k < p.len() ==> #[trigger] p[k] < t.names.len(),
    ensures
        s@ == join_seq(move_names(*t, p@), '.'),
{
    let mut parts: Vec<Vec<char>> = Vec::new();
    let mut i: usize = 0;
    while i < p.len()
        invariant
            i <= p.len(),
            forall|k: int| 0 <= k < p.len() ==> #[trigger] p[k] < t.names.len(),
            views(parts@) == move_names(*t, p@).take(i as int),
        decreases p.len() - i,
    {
        let name = chars_of(t.names[p[i]].as_str());
        let ghost before = views(parts@);
        parts.push(name);
        assert(views(parts@) =~= before.push(t.names[p[i as int] as int]@));
        assert(move_names(*t, p@).take(i + 1) =~= move_names(*t, p@).take(i as int).push(t.names[p[i as int] as int]@));
        i = i + 1;
    }
    assert(move_names(*t, p@).take(p.len() as int) =~= move_names(*t, p@));
    let joined = join_chars(&parts, '.');
    string_of(&joined)
}

} // verus!
