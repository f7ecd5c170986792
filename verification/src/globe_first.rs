//! The first phase of the globe solver on an even number of rows: a beam
//! search of hand-made move groups that swap runs of pieces between a row
//! of the upper half and its mirror row, until every upper row holds only
//! pieces of side 0.
use vstd::prelude::*;
use crate::globe::{ctx_ok, globe_setup, setup_result, GlobeCtx, Puzzle};
use crate::globe_beam::{find_move, move_names, path_text};
use crate::globe_cost::{calc_cost_for_first_move, first_move_cost_spec, first_move_ok};
use crate::moves::{layer_move, turn};
use crate::packed_set::PackedSet;
use crate::perm::{action_fits, apply_action, apply_pairs, apply_path, lemma_apply_pairs_values, values_below, ActionTable, MoveTable};
use crate::text::{chars_of, join_seq, split_chars, split_seq, views};

verus! {

broadcast use vstd::seq_lib::group_to_multiset_ensures;

/// `rand::random::<u32>()`: a random number, of which nothing is promised.
#[verifier::external_body]
fn random_tie() -> u32 {
    rand::random::<u32>()
}

/// A candidate group of moves: the node it extends, the moves, the cost of
/// the state reached (with the moves so far), the moves so far, and a
/// random tie-breaker.
pub struct VecCandidate {
    pub parent: usize,
    pub actions: Vec<usize>,
    pub cost: i32,
    pub step: i32,
    pub rand: u32,
}

/// `a` comes before `b`: lower cost, then lower tie-breaker.
pub open spec fn vec_cand_lt(a: VecCandidate, b: VecCandidate) -> bool {
    a.cost < b.cost || (a.cost == b.cost && a.rand < b.rand)
}

/// Orders candidates by cost, then by tie-breaker.
pub fn compare_vec_candidate(a: &VecCandidate, b: &VecCandidate) -> (o: std::cmp::Ordering)
    ensures
        (o is Less) == vec_cand_lt(*a, *b),
        (o is Greater) == vec_cand_lt(*b, *a),
        (o is Equal) == (a.cost == b.cost && a.rand == b.rand),
{
    if a.cost < b.cost {
        std::cmp::Ordering::Less
    } else if a.cost > b.cost {
        std::cmp::Ordering::Greater
    } else {
        if a.rand < b.rand {
            std::cmp::Ordering::Less
        } else if a.rand > b.rand {
            std::cmp::Ordering::Greater
        } else {
            std::cmp::Ordering::Equal
        }
    }
}

/// `slice::sort_by` with `compare_vec_candidate`: the same candidates,
/// ordered by cost, then by tie-breaker.
#[verifier::external_body]
fn sort_vec_candidates(c: &mut Vec<VecCandidate>)
    ensures
        final(c)@.to_multiset() == old(c)@.to_multiset(),
        final(c)@.len() == old(c)@.len(),
        forall|i: int, j: int| 0 <= i < j < final(c)@.len() ==> !vec_cand_lt(#[trigger] final(c)@[j], #[trigger] final(c)@[i]),
{
    c.sort_by(compare_vec_candidate);
}

/// The moves that led to history entry `id`: those of its parent's path,
/// then its own group.
pub open spec fn group_path(hist: Seq<(Seq<usize>, Option<usize>)>, id: int) -> Seq<usize>
    decreases id,
{
    if id < 0 || id >= hist.len() {
        Seq::empty()
    } else {
        match hist[id].1 {
            None => Seq::empty(),
            Some(p) => if p < id {
                group_path(hist, p as int) + hist[id].0
            } else {
                Seq::empty()
            },
        }
    }
}

/// The views of a history of move groups.
pub open spec fn group_hist(h: Seq<(Vec<usize>, Option<usize>)>) -> Seq<(Seq<usize>, Option<usize>)> {
    h.map_values(|e: (Vec<usize>, Option<usize>)| (e.0@, e.1))
}

/// Every entry but a root has moves of the table and a parent before it.
pub open spec fn group_hist_ok(hist: Seq<(Seq<usize>, Option<usize>)>, tlen: nat) -> bool {
    forall|id: int|
        0 <= id < hist.len() ==> (#[trigger] hist[id].1 matches Some(p) ==> p < id && forall|k: int|
            0 <= k < hist[id].0.len() ==> #[trigger] hist[id].0[k] < tlen)
}

proof fn lemma_group_ext(hist: Seq<(Seq<usize>, Option<usize>)>, e: (Seq<usize>, Option<usize>), id: int)
    requires
        0 <= id < hist.len(),
    ensures
        group_path(hist.push(e), id) == group_path(hist, id),
    decreases id,
{
    let h2 = hist.push(e);
    assert(h2[id] == hist[id]);
    match hist[id].1 {
        None => {},
        Some(p) => {
            if p < id {
                lemma_group_ext(hist, e, p as int);
            }
        },
    }
}

proof fn lemma_group_below(hist: Seq<(Seq<usize>, Option<usize>)>, tlen: nat, id: int)
    requires
        group_hist_ok(hist, tlen),
    ensures
        forall|k: int| 0 <= k < group_path(hist, id).len() ==> #[trigger] group_path(hist, id)[k] < tlen,
    decreases id,
{
    if 0 <= id < hist.len() {
        match hist[id].1 {
            None => {},
            Some(p) => {
                if p < id {
                    lemma_group_below(hist, tlen, p as int);
                    let q = group_path(hist, p as int);
                    assert forall|k: int| 0 <= k < group_path(hist, id).len() implies #[trigger] group_path(hist, id)[k] < tlen by {
                        if k < q.len() {
                            assert(group_path(hist, id)[k] == q[k]);
                        } else {
                            assert(group_path(hist, id)[k] == hist[id].0[k - q.len()]);
                        }
                    }
                }
            },
        }
    }
}

/// Applying `a` then `b` is applying `a + b`.
pub proof fn lemma_apply_path_concat(t: ActionTable, s: Seq<usize>, a: Seq<usize>, b: Seq<usize>)
    ensures
        apply_path(t, s, a + b) == apply_path(t, apply_path(t, s, a), b),
    decreases b.len(),
{
    if b.len() > 0 {
        lemma_apply_path_concat(t, s, a, b.drop_last());
        assert((a + b).drop_last() =~= a + b.drop_last());
        assert((a + b).last() == b.last());
    } else {
        assert(a + b =~= a);
    }
}

fn group_trace(hist: &Vec<(Vec<usize>, Option<usize>)>, id: usize, Ghost(tlen): Ghost<nat>) -> (r: Vec<usize>)
    requires
        group_hist_ok(group_hist(hist@), tlen),
        id < hist.len(),
    ensures
        r@ == group_path(group_hist(hist@), id as int),
{
    let ghost gh = group_hist(hist@);
    let mut rev: Vec<usize> = Vec::new();
    let mut cur = id;
    while hist[cur].1.is_some()
        invariant
            gh == group_hist(hist@),
            group_hist_ok(gh, tlen),
            cur < hist.len(),
            group_path(gh, id as int) == group_path(gh, cur as int) + rev@.reverse(),
        decreases cur,
    {
        let p = hist[cur].1.unwrap();
        let acts = &hist[cur].0;
        assert(gh[cur as int] == (acts@, Some(p)));
        assert(p < cur);
        let ghost before = rev@;
        let mut k = acts.len();
        while k > 0
            invariant
                k <= acts.len(),
                rev@ == before + acts@.skip(k as int).reverse(),
            decreases k,
        {
            k = k - 1;
            rev.push(acts[k]);
            assert(acts@.skip(k as int).reverse() =~= acts@.skip(k + 1).reverse().push(acts@[k as int]));
            assert(rev@ =~= before + acts@.skip(k as int).reverse());
        }
        assert(acts@.skip(0) =~= acts@);
        assert(group_path(gh, cur as int) == group_path(gh, p as int) + acts@);
        assert((acts@ + before.reverse()) =~= (before + acts@.reverse()).reverse());
        assert(group_path(gh, p as int) + acts@ + before.reverse() =~= group_path(gh, p as int) + rev@.reverse());
        cur = p;
    }
    assert(group_path(gh, cur as int) =~= Seq::<usize>::empty());
    let mut r: Vec<usize> = Vec::new();
    let mut k = rev.len();
    while k > 0
        invariant
            k <= rev.len(),
            r@ == rev@.reverse().take(rev.len() - k),
        decreases k,
    {
        k = k - 1;
        r.push(rev[k]);
        assert(r@ =~= rev@.reverse().take(rev.len() - k));
    }
    assert(r@ =~= rev@.reverse());
    assert(group_path(gh, id as int) =~= rev@.reverse());
    r
}

/// Every upper row (`h < height / 2`) holds only pieces of side 0.
pub open spec fn upper_done(state: Seq<usize>, width: int, height: int, half: int) -> bool {
    forall|h: int, w: int| 0 <= h < height / 2 && 0 <= w < width ==> #[trigger] state[h * width + w] < half
}

/// A kept state of the first phase: its pieces, its history entry, its cost
/// and the moves made to reach it.
pub struct FirstNode {
    pub state: Vec<usize>,
    pub id: usize,
    pub cost: i32,
    pub step: i32,
}

/// The node's state is the initial state after its history's moves.
pub open spec fn first_node_ok(nd: FirstNode, hist: Seq<(Seq<usize>, Option<usize>)>, c: GlobeCtx, bound: int) -> bool {
    &&& nd.id < hist.len()
    &&& nd.state@ == apply_path(c.table, c.init@, group_path(hist, nd.id as int))
    &&& nd.state.len() == c.init.len()
    &&& values_below(nd.state@, c.piece_num as nat)
    &&& 0 <= nd.step <= bound
}

/// Every node is as `first_node_ok` says.
pub open spec fn first_nodes_ok(nodes: Seq<FirstNode>, hist: Seq<(Seq<usize>, Option<usize>)>, c: GlobeCtx, bound: int) -> bool {
    forall|j: int| 0 <= j < nodes.len() ==> first_node_ok(#[trigger] nodes[j], hist, c, bound)
}

proof fn lemma_keep_first(nodes: Seq<FirstNode>, hist: Seq<(Seq<usize>, Option<usize>)>, e: (Seq<usize>, Option<usize>), c: GlobeCtx, bound: int)
    requires
        first_nodes_ok(nodes, hist, c, bound),
    ensures
        first_nodes_ok(nodes, hist.push(e), c, bound),
{
    assert forall|j: int| 0 <= j < nodes.len() implies first_node_ok(#[trigger] nodes[j], hist.push(e), c, bound) by {
        assert(first_node_ok(nodes[j], hist, c, bound));
        lemma_group_ext(hist, e, nodes[j].id as int);
    }
}

/// Every candidate extends a node of `n` by moves of the table, with a step
/// count within `bound`, and reaches the state those moves give.
pub open spec fn vec_cands_ok(cands: Seq<VecCandidate>, nodes: Seq<FirstNode>, c: GlobeCtx, bound: int) -> bool {
    forall|k: int| 0 <= k < cands.len() ==> {
        &&& #[trigger] cands[k].parent < nodes.len()
        &&& forall|j: int| 0 <= j < cands[k].actions.len() ==> #[trigger] cands[k].actions@[j] < c.table.actions.len()
        &&& 0 <= cands[k].step <= bound
    }
}

/// The state is a state of the context: right length, right piece types.
pub open spec fn state_ok(s: Seq<usize>, c: GlobeCtx) -> bool {
    s.len() == c.init.len() && values_below(s, c.piece_num as nat)
}

/// Applies the move of index `a` to `state`, recording it.
pub fn step_move(c: &GlobeCtx, state: &mut Vec<usize>, acts: &mut Vec<usize>, a: usize, Ghost(start): Ghost<Seq<usize>>)
    requires
        c.table.wf(),
        c.table.fits(c.init.len() as nat),
        a < c.table.actions.len(),
        state_ok(old(state)@, *c),
        old(state)@ == apply_path(c.table, start, old(acts)@),
    ensures
        state_ok(final(state)@, *c),
        final(acts)@ == old(acts)@.push(a),
        final(state)@ == apply_path(c.table, start, final(acts)@),
{
    assert(action_fits(c.table.actions[a as int]@, state.len() as nat));
    let next = apply_action(state, &c.table.actions[a]);
    proof {
        lemma_apply_pairs_values(state@, state@, c.table.actions[a as int]@, c.piece_num as nat);
    }
    let ghost before = acts@;
    acts.push(a);
    assert(acts@.drop_last() =~= before);
    *state = next;
}

fn to_words(state: &Vec<usize>) -> (r: Vec<u64>)
    ensures
        r.len() == state.len(),
{
    let mut r: Vec<u64> = Vec::new();
    let mut i: usize = 0;
    while i < state.len()
        invariant
            i <= state.len(),
            r.len() == i,
        decreases state.len() - i,
    {
        r.push(state[i] as u64);
        i = i + 1;
    }
    r
}

fn copy_moves(v: &Vec<usize>) -> (r: Vec<usize>)
    ensures
        r@ == v@,
{
    let mut r: Vec<usize> = Vec::new();
    let mut i: usize = 0;
    while i < v.len()
        invariant
            i <= v.len(),
            r@ == v@.take(i as int),
        decreases v.len() - i,
    {
        r.push(v[i]);
        assert(r@ =~= v@.take(i + 1));
        i = i + 1;
    }
    assert(r@ =~= v@);
    r
}

/// The first upper row (`h < height / 2`) holding a piece of side 1, or
/// `height / 2` when there is none.
fn find_chg_target(state: &Vec<usize>, width: usize, height: usize, half: usize) -> (r: usize)
    requires
        state.len() == width * height,
        1 <= width <= 1000,
        2 <= height <= 64,
    ensures
        r <= height / 2,
        r == height / 2 <==> upper_done(state@, width as int, height as int, half as int),
{
    let mut h: usize = 0;
    while h < height / 2
        invariant
            h <= height / 2,
            state.len() == width * height,
            1 <= width <= 1000,
            2 <= height <= 64,
            forall|hh: int, w: int| 0 <= hh < h && 0 <= w < width ==> #[trigger] state@[hh * width + w] < half,
        decreases height / 2 - h,
    {
        let mut w: usize = 0;
        while w < width
            invariant
                w <= width,
                h < height / 2,
                state.len() == width * height,
                1 <= width <= 1000,
                2 <= height <= 64,
                forall|ww: int| 0 <= ww < w ==> #[trigger] state@[h * width + ww] < half,
            decreases width - w,
        {
            assert(h * width + w < width * height) by (nonlinear_arith)
                requires
                    h < height,
                    w < width,
            ;
            if state[h * width + w] >= half {
                assert(!(state@[h * width + w] < half));
                return h;
            }
            w = w + 1;
        }
        h = h + 1;
    }
    h
}

/// Size limits of the first phase: those of the costs, and two to 64 rows.
pub open spec fn first_sizes(c: GlobeCtx, width: int, height: int) -> bool {
    &&& ctx_ok(c, width, height)
    &&& 2 <= height <= 64
    &&& first_move_ok(c.init@, c.order_map@, width, height, c.piece_num as int)
}

/// Runs the group of moves `f{fw}`, then `chg_num` times move `r`, then
/// `f{fw}` again, after `actions` from `state`.
fn group_moves(
    c: &GlobeCtx,
    state: &Vec<usize>,
    actions: &Vec<usize>,
    f: usize,
    r: usize,
    chg_num: usize,
    Ghost(start): Ghost<Seq<usize>>,
) -> (res: (Vec<usize>, Vec<usize>))
    requires
        c.table.wf(),
        c.table.fits(c.init.len() as nat),
        f < c.table.actions.len(),
        r < c.table.actions.len(),
        state_ok(state@, *c),
        state@ == apply_path(c.table, start, actions@),
    ensures
        state_ok(res.0@, *c),
        res.0@ == apply_path(c.table, start, res.1@),
        res.1.len() == actions.len() + chg_num + 2,
        res.1@.take(actions.len() as int) == actions@,
        forall|k: int| actions.len() <= k < res.1.len() ==> #[trigger] res.1@[k] < c.table.actions.len(),
{
    let mut next_state = state.clone();
    assert(next_state@ =~= state@);
    let mut next_actions = copy_moves(actions);
    step_move(c, &mut next_state, &mut next_actions, f, Ghost(start));
    let mut t: usize = 0;
    while t < chg_num
        invariant
            t <= chg_num,
            c.table.wf(),
            c.table.fits(c.init.len() as nat),
            f < c.table.actions.len(),
            r < c.table.actions.len(),
            state_ok(next_state@, *c),
            next_state@ == apply_path(c.table, start, next_actions@),
            next_actions.len() == actions.len() + t + 1,
            next_actions@.take(actions.len() as int) == actions@,
            forall|k: int| actions.len() <= k < next_actions.len() ==> #[trigger] next_actions@[k] < c.table.actions.len(),
        decreases chg_num - t,
    {
        let ghost before = next_actions@;
        step_move(c, &mut next_state, &mut next_actions, r, Ghost(start));
        assert(next_actions@.take(actions.len() as int) =~= before.take(actions.len() as int));
        assert forall|k: int| actions.len() <= k < next_actions.len() implies #[trigger] next_actions@[k] < c.table.actions.len() by {
            if k < before.len() {
                assert(next_actions@[k] == before[k]);
            }
        }
        t = t + 1;
    }
    let ghost before = next_actions@;
    step_move(c, &mut next_state, &mut next_actions, f, Ghost(start));
    assert(next_actions@.take(actions.len() as int) =~= before.take(actions.len() as int));
    assert forall|k: int| actions.len() <= k < next_actions.len() implies #[trigger] next_actions@[k] < c.table.actions.len() by {
        if k < before.len() {
            assert(next_actions@[k] == before[k]);
        }
    }
    (next_state, next_actions)
}

/// A solution of the first phase: moves of the table after which every
/// upper row holds only pieces of side 0.
pub open spec fn first_found(c: GlobeCtx, p: Seq<usize>, width: int, height: int) -> bool {
    &&& forall|k: int| 0 <= k < p.len() ==> #[trigger] p[k] < c.table.actions.len()
    &&& upper_done(apply_path(c.table, c.init@, p), width, height, (c.piece_num / 2) as int)
}

/// Candidate `cd` comes from node `idx`, whose step is `step`: its step
/// is that step and the number of its moves.
pub open spec fn from_node(cd: VecCandidate, idx: usize, step: i32) -> bool {
    cd.parent == idx && cd.step == step + cd.actions.len()
}

/// The table has the turns of row `rev` both ways and the turn of every
/// column `f0 .. f(width - 1)`.
pub open spec fn first_group_moves_known(t: ActionTable, rev: nat, width: nat) -> bool {
    &&& t.knows(layer_move(false, 'r', rev))
    &&& t.knows(layer_move(true, 'r', rev))
    &&& forall|w: nat| w < width ==> t.knows(#[trigger] layer_move(false, 'f', w))
}

/// The moves of the candidate groups of one node, added to `cands`: for
/// each turn `mv` of the mirror row `rev` one way or the other, each column
/// `w` where a run of pieces of side 1 in row `target` faces a run of side 0
/// in row `rev` gets the group that swaps the runs (`f`, turns of `rev`,
/// `f`), unless the state it reaches was seen. `false` when a move is
/// missing.
fn node_candidates(
    c: &GlobeCtx,
    nodes: &Vec<FirstNode>,
    idx: usize,
    target: usize,
    checked: &PackedSet,
    cands: &mut Vec<VecCandidate>,
    width: usize,
    height: usize,
    Ghost(hist): Ghost<Seq<(Seq<usize>, Option<usize>)>>,
    Ghost(bound): Ghost<int>,
) -> (ok: bool)
    requires
        first_sizes(*c, width as int, height as int),
        idx < nodes.len(),
        target < height / 2,
        first_nodes_ok(nodes@, hist, *c, bound),
        0 <= bound <= 32000 * 1002,
        vec_cands_ok(old(cands)@, nodes@, *c, bound + width + 2),
    ensures
        vec_cands_ok(final(cands)@, nodes@, *c, bound + width + 2),
        first_group_moves_known(c.table, (height - 1 - target) as nat, width as nat) ==> ok,
        final(cands)@.len() >= old(cands)@.len(),
        final(cands)@.take(old(cands)@.len() as int) == old(cands)@,
        forall|k: int| old(cands)@.len() <= k < final(cands)@.len() ==> #[trigger] from_node(final(cands)@[k], idx, nodes@[idx as int].step),
{
    let ghost old_c = cands@;
    let ghost old_len = cands@.len();
    let half = c.piece_num / 2;
    assert(half >= 1);
    let rev = height - 1 - target;
    let node = &nodes[idx];
    assert(first_node_ok(*node, hist, *c, bound));
    let ghost start = node.state@;
    let r_pos = match find_move(&c.table, &turn(false, 'r', rev)) {
        Some(a) => a,
        None => {
            assert(!c.table.knows(layer_move(false, 'r', rev as nat)));
            assert(cands@.take(old_len as int) =~= old_c);
            return false;
        },
    };
    let r_neg = match find_move(&c.table, &turn(true, 'r', rev)) {
        Some(a) => a,
        None => {
            assert(!c.table.knows(layer_move(true, 'r', rev as nat)));
            assert(cands@.take(old_len as int) =~= old_c);
            return false;
        },
    };
    assert(cands@.take(old_len as int) =~= old_c);
    assert(c.table.wf());
    let mut mv: usize = 0;
    while mv <= width / 2
        invariant
            first_sizes(*c, width as int, height as int),
            idx < nodes.len(),
            *node == nodes@[idx as int],
            first_node_ok(*node, hist, *c, bound),
            start == node.state@,
            target < height / 2,
            rev == height - 1 - target,
            half == c.piece_num / 2,
            half >= 1,
            r_pos < c.table.actions.len(),
            r_neg < c.table.actions.len(),
            0 <= bound <= 32000 * 1002,
            vec_cands_ok(cands@, nodes@, *c, bound + width + 2),
            old_len <= cands@.len(),
            cands@.take(old_len as int) == old_c,
            old_c == old(cands)@,
            old_len == old_c.len(),
            forall|k: int| old_len <= k < cands@.len() ==> #[trigger] from_node(cands@[k], idx, nodes@[idx as int].step),
        decreases width / 2 + 1 - mv,
    {
        let mut dir: usize = 0;
        while dir < 2
            invariant
                dir <= 2,
                mv <= width / 2,
                first_sizes(*c, width as int, height as int),
                idx < nodes.len(),
                *node == nodes@[idx as int],
                first_node_ok(*node, hist, *c, bound),
                start == node.state@,
                target < height / 2,
                rev == height - 1 - target,
                half == c.piece_num / 2,
                half >= 1,
                r_pos < c.table.actions.len(),
                r_neg < c.table.actions.len(),
                0 <= bound <= 32000 * 1002,
                vec_cands_ok(cands@, nodes@, *c, bound + width + 2),
                old_len <= cands@.len(),
                cands@.take(old_len as int) == old_c,
                old_c == old(cands)@,
                old_len == old_c.len(),
            old_len == old_c.len(),
                forall|k: int| old_len <= k < cands@.len() ==> #[trigger] from_node(cands@[k], idx, nodes@[idx as int].step),
            decreases 2 - dir,
        {
            if !((mv == 0 || mv == width / 2) && dir == 1) {
                let act = if dir == 0 {
                    r_pos
                } else {
                    r_neg
                };
                let mut new_state = node.state.clone();
                assert(new_state@ =~= start);
                let mut actions: Vec<usize> = Vec::new();
                assert(apply_path(c.table, start, actions@) == start);
                let mut t: usize = 0;
                while t < mv
                    invariant
                        t <= mv <= width / 2,
                        first_sizes(*c, width as int, height as int),
                        act < c.table.actions.len(),
                        state_ok(new_state@, *c),
                        new_state@ == apply_path(c.table, start, actions@),
                        actions.len() == t,
                        forall|k: int| 0 <= k < actions.len() ==> #[trigger] actions@[k] < c.table.actions.len(),
                    decreases mv - t,
                {
                    let ghost before = actions@;
                    step_move(c, &mut new_state, &mut actions, act, Ghost(start));
                    assert forall|k: int| 0 <= k < actions.len() implies #[trigger] actions@[k] < c.table.actions.len() by {
                        if k < before.len() {
                            assert(actions@[k] == before[k]);
                        }
                    }
                    t = t + 1;
                }
                let mut w: usize = 0;
                while w < width
                    invariant
                        w <= width,
                        mv <= width / 2,
                        first_sizes(*c, width as int, height as int),
                        idx < nodes.len(),
                        *node == nodes@[idx as int],
                        first_node_ok(*node, hist, *c, bound),
                        start == node.state@,
                        target < height / 2,
                        rev == height - 1 - target,
                        half == c.piece_num / 2,
                        half >= 1,
                        r_pos < c.table.actions.len(),
                        r_neg < c.table.actions.len(),
                        0 <= bound <= 32000 * 1002,
                        vec_cands_ok(cands@, nodes@, *c, bound + width + 2),
                        old_len <= cands@.len(),
                        cands@.take(old_len as int) == old_c,
                        old_c == old(cands)@,
                old_len == old_c.len(),
                        old_len == old_c.len(),
            old_len == old_c.len(),
                        forall|k: int| old_len <= k < cands@.len() ==> #[trigger] from_node(cands@[k], idx, nodes@[idx as int].step),
                        state_ok(new_state@, *c),
                        new_state@ == apply_path(c.table, start, actions@),
                        actions.len() == mv,
                        forall|k: int| 0 <= k < actions.len() ==> #[trigger] actions@[k] < c.table.actions.len(),
                    decreases width - w,
                {
                    let n_all = width * height;
                    assert(target * width + width <= n_all && rev * width + width <= n_all) by (nonlinear_arith)
                        requires
                            target < height,
                            rev < height,
                            n_all == width * height,
                    ;
                    let wm1 = (w + width - 1) % width;
                    let mut skip_b = false;
                    if new_state[target * width + w] / half == 1 && new_state[rev * width + wm1] / half == 0 {
                        let mut chg_num: usize = 1;
                        let mut i: usize = 2;
                        let mut go = true;
                        while i < width / 2 && go
                            invariant
                                2 <= i <= width / 2 || (i == 2 && width / 2 < 2),
                                1 <= chg_num <= width / 2 || chg_num == 1,
                                chg_num < i,
                                w < width <= 1000,
                                half == c.piece_num / 2,
                                half >= 1,
                                state_ok(new_state@, *c),
                                first_sizes(*c, width as int, height as int),
                                target < height / 2,
                                rev == height - 1 - target,
                                n_all == width * height,
                                target * width + width <= n_all && rev * width + width <= n_all,
                            decreases width / 2 - i + (if go { 1int } else { 0int }),
                        {
                            let a = (w + i - 1) % width;
                            let b = (w + width - i) % width;
                            if new_state[target * width + a] / half == 1 && new_state[rev * width + b] / half == 0 {
                                chg_num = i;
                                i = i + 1;
                            } else {
                                go = false;
                            }
                        }
                        let f = match find_move(&c.table, &turn(false, 'f', w)) {
                            Some(a) => a,
                            None => {
                                assert(!c.table.knows(layer_move(false, 'f', w as nat)));
                                return false;
                            },
                        };
                        let (next_state, next_actions) = group_moves(c, &new_state, &actions, f, r_neg, chg_num, Ghost(start));
                        if checked.contains(&to_words(&next_state)) {
                            skip_b = true;
                        } else {
                            let new_step = node.step + next_actions.len() as i32;
                            assert(first_move_ok(next_state@, c.order_map@, width as int, height as int, c.piece_num as int));
                            let new_cost = calc_cost_for_first_move(&next_state, &c.order_map, width, height, c.piece_num) + new_step;
                            let rnd = random_tie();
                            let ghost before = cands@;
                            let ghost na = next_actions@;
                            assert(new_step == node.step + na.len());
                            cands.push(VecCandidate { parent: idx, actions: next_actions, cost: new_cost, step: new_step, rand: rnd });
                            assert(from_node(cands@.last(), idx, nodes@[idx as int].step));
                            assert(cands@.last().actions@ == na);
                            proof {
                                assert forall|k: int| 0 <= k < cands@.len() implies {
                                    &&& #[trigger] cands@[k].parent < nodes@.len()
                                    &&& forall|j: int| 0 <= j < cands@[k].actions.len() ==> #[trigger] cands@[k].actions@[j] < c.table.actions.len()
                                    &&& 0 <= cands@[k].step <= bound + width + 2
                                } by {
                                    if k < before.len() {
                                        assert(cands@[k] == before[k]);
                                    } else {
                                        assert forall|j: int| 0 <= j < cands@[k].actions.len() implies #[trigger] cands@[k].actions@[j] < c.table.actions.len() by {
                                            assert(cands@[k].actions@ == na);
                                            if j < mv {
                                                assert(na[j] == na.take(mv as int)[j]);
                                            }
                                        }
                                    }
                                }
                            }
                            assert(cands@.take(old_len as int) == old_c) by {
                                assert(cands@.take(old_len as int) =~= before.take(old_len as int));
                            }
                            assert forall|k: int| old_len <= k < cands@.len() implies #[trigger] from_node(cands@[k], idx, nodes@[idx as int].step) by {
                                if k < before.len() {
                                    assert(cands@[k] == before[k]);
                                }
                            }
                        }
                    }
                    if !skip_b && new_state[target * width + wm1] / half == 1 && new_state[rev * width + w] / half == 0 {
                        let mut chg_num: usize = 1;
                        let mut i: usize = 2;
                        let mut go = true;
                        while i < width / 2 && go
                            invariant
                                2 <= i <= width / 2 || (i == 2 && width / 2 < 2),
                                1 <= chg_num <= width / 2 || chg_num == 1,
                                chg_num < i,
                                w < width <= 1000,
                                half == c.piece_num / 2,
                                half >= 1,
                                state_ok(new_state@, *c),
                                first_sizes(*c, width as int, height as int),
                                target < height / 2,
                                rev == height - 1 - target,
                                n_all == width * height,
                                target * width + width <= n_all && rev * width + width <= n_all,
                            decreases width / 2 - i + (if go { 1int } else { 0int }),
                        {
                            let a = (w + width - i) % width;
                            let b = (w + i - 1) % width;
                            if new_state[target * width + a] / half == 1 && new_state[rev * width + b] / half == 0 {
                                chg_num = i;
                                i = i + 1;
                            } else {
                                go = false;
                            }
                        }
                        let fw = (w + width / 2) % width;
                        let f = match find_move(&c.table, &turn(false, 'f', fw)) {
                            Some(a) => a,
                            None => {
                                assert(!c.table.knows(layer_move(false, 'f', fw as nat)));
                                return false;
                            },
                        };
                        let (next_state, next_actions) = group_moves(c, &new_state, &actions, f, r_pos, chg_num, Ghost(start));
                        if !checked.contains(&to_words(&next_state)) {
                            let new_step = node.step + next_actions.len() as i32;
                            assert(first_move_ok(next_state@, c.order_map@, width as int, height as int, c.piece_num as int));
                            let new_cost = calc_cost_for_first_move(&next_state, &c.order_map, width, height, c.piece_num) + new_step;
                            let rnd = random_tie();
                            let ghost before = cands@;
                            let ghost na = next_actions@;
                            assert(new_step == node.step + na.len());
                            cands.push(VecCandidate { parent: idx, actions: next_actions, cost: new_cost, step: new_step, rand: rnd });
                            assert(from_node(cands@.last(), idx, nodes@[idx as int].step));
                            assert(cands@.last().actions@ == na);
                            proof {
                                assert forall|k: int| 0 <= k < cands@.len() implies {
                                    &&& #[trigger] cands@[k].parent < nodes@.len()
                                    &&& forall|j: int| 0 <= j < cands@[k].actions.len() ==> #[trigger] cands@[k].actions@[j] < c.table.actions.len()
                                    &&& 0 <= cands@[k].step <= bound + width + 2
                                } by {
                                    if k < before.len() {
                                        assert(cands@[k] == before[k]);
                                    } else {
                                        assert forall|j: int| 0 <= j < cands@[k].actions.len() implies #[trigger] cands@[k].actions@[j] < c.table.actions.len() by {
                                            assert(cands@[k].actions@ == na);
                                            if j < mv {
                                                assert(na[j] == na.take(mv as int)[j]);
                                            }
                                        }
                                    }
                                }
                            }
                            assert(cands@.take(old_len as int) == old_c) by {
                                assert(cands@.take(old_len as int) =~= before.take(old_len as int));
                            }
                            assert forall|k: int| old_len <= k < cands@.len() implies #[trigger] from_node(cands@[k], idx, nodes@[idx as int].step) by {
                                if k < before.len() {
                                    assert(cands@[k] == before[k]);
                                }
                            }
                        }
                    }
                    w = w + 1;
                }
            }
            dir = dir + 1;
        }
        mv = mv + 1;
    }
    true
}

/// The first phase on a set-up context: at most `width * height / 2`
/// rounds of a beam of 100 states. A state whose upper rows hold only
/// pieces of side 0, with a cost below the best so far (at first
/// `current_step`), gives the new solution: the moves that led to it.
/// `None` when no solution was found or a move is missing.
pub fn first_moves_ctx(c: &GlobeCtx, current_step: usize, width: usize, height: usize) -> (r: Option<Vec<usize>>)
    requires
        first_sizes(*c, width as int, height as int),
    ensures
        r matches Some(p) ==> first_found(*c, p@, width as int, height as int),
        upper_done(c.init@, width as int, height as int, (c.piece_num / 2) as int) && current_step >= 1 ==> (r matches Some(
            p,
        ) && p@.len() == 0),
{
    let ghost u0 = upper_done(c.init@, width as int, height as int, (c.piece_num / 2) as int) && current_step >= 1;
    let beam_width: usize = 100;
    let half = c.piece_num / 2;
    let ghost tlen = c.table.actions.len() as nat;
    let mut history: Vec<(Vec<usize>, Option<usize>)> = Vec::new();
    history.push((Vec::new(), None));
    let mut nodes: Vec<FirstNode> = Vec::new();
    let first = FirstNode { state: c.init.clone(), id: 0, cost: 0, step: 0 };
    assert(first.state@ =~= c.init@);
    assert(group_path(group_hist(history@), 0) =~= Seq::<usize>::empty());
    nodes.push(first);
    let mut checked = PackedSet::new();
    let mut solution: Option<Vec<usize>> = None;
    let mut current_best: i32 = if current_step <= 2147483647 {
        current_step as i32
    } else {
        2147483647
    };
    assert(width * height <= 64000) by (nonlinear_arith)
        requires
            width <= 1000,
            height <= 64,
    ;
    let rounds = width * height / 2;
    assert(rounds >= 1) by (nonlinear_arith)
        requires
            rounds == width * height / 2,
            width >= 1,
            height >= 2,
    ;
    let mut round: usize = 0;
    while round < rounds
        invariant
            first_sizes(*c, width as int, height as int),
            half == c.piece_num / 2,
            tlen == c.table.actions.len(),
            rounds == width * height / 2,
            rounds <= 32000,
            round <= rounds,
            group_hist_ok(group_hist(history@), tlen),
            first_nodes_ok(nodes@, group_hist(history@), *c, round * (width + 2)),
            solution matches Some(p) ==> first_found(*c, p@, width as int, height as int),
            u0 == (upper_done(c.init@, width as int, height as int, (c.piece_num / 2) as int) && current_step >= 1),
            rounds >= 1,
            u0 && round == 0 ==> nodes@.len() == 1 && nodes@[0].state@ == c.init@ && nodes@[0].cost == 0 && nodes@[0].id
                == 0 && solution is None && current_best >= 1 && group_path(group_hist(history@), 0) == Seq::<usize>::empty(),
            u0 && round > 0 ==> nodes@.len() == 0 && (solution matches Some(p) && p@.len() == 0),
        ensures
            solution matches Some(p) ==> first_found(*c, p@, width as int, height as int),
            u0 ==> (solution matches Some(p) && p@.len() == 0),
        decreases rounds - round,
    {
        if nodes.len() == 0 {
            break;
        }
        let ghost bound = round * (width + 2);
        let ghost gh = group_hist(history@);
        assert(bound <= 32000 * 1002) by (nonlinear_arith)
            requires
                round < 32000,
                width <= 1000,
                bound == round * (width + 2),
        ;
        let mut cands: Vec<VecCandidate> = Vec::new();
        let mut idx: usize = 0;
        while idx < nodes.len()
            invariant
                first_sizes(*c, width as int, height as int),
                half == c.piece_num / 2,
                tlen == c.table.actions.len(),
                gh == group_hist(history@),
                group_hist_ok(gh, tlen),
                first_nodes_ok(nodes@, gh, *c, bound),
                0 <= bound <= 32000 * 1002,
                vec_cands_ok(cands@, nodes@, *c, bound + width + 2),
                solution matches Some(p) ==> first_found(*c, p@, width as int, height as int),
                u0 == (upper_done(c.init@, width as int, height as int, (c.piece_num / 2) as int) && current_step >= 1),
                u0 && round == 0 ==> nodes@.len() == 1 && nodes@[0].state@ == c.init@ && nodes@[0].cost == 0 && nodes@[0].id
                    == 0 && group_path(gh, 0) == Seq::<usize>::empty() && cands@.len() == 0 && (idx == 0 ==> solution is None
                    && current_best >= 1) && (idx > 0 ==> (solution matches Some(p) && p@.len() == 0)),
                u0 && round > 0 ==> nodes@.len() == 0,
            decreases nodes.len() - idx,
        {
            let node = &nodes[idx];
            assert(first_node_ok(*node, gh, *c, bound));
            let target = find_chg_target(&node.state, width, height, half);
            if target == height / 2 {
                if node.cost < current_best {
                    current_best = node.cost;
                    let sol = group_trace(&history, node.id, Ghost(tlen));
                    proof {
                        lemma_group_below(gh, tlen, node.id as int);
                    }
                    solution = Some(sol);
                }
            } else {
                assert(!u0);
                if !node_candidates(c, &nodes, idx, target, &checked, &mut cands, width, height, Ghost(gh), Ghost(bound)) {
                    return None;
                }
            }
            idx = idx + 1;
        }
        let ghost before_sort = cands@;
        sort_vec_candidates(&mut cands);

        assert(vec_cands_ok(cands@, nodes@, *c, bound + width + 2)) by {
            assert forall|k: int| 0 <= k < cands@.len() implies {
                &&& #[trigger] cands@[k].parent < nodes@.len()
                &&& forall|j: int| 0 <= j < cands@[k].actions.len() ==> #[trigger] cands@[k].actions@[j] < c.table.actions.len()
                &&& 0 <= cands@[k].step <= bound + width + 2
            } by {
                assert(cands@.contains(cands@[k]));
                assert(cands@.to_multiset().count(cands@[k]) > 0);
                assert(before_sort.to_multiset().count(cands@[k]) > 0);
                assert(before_sort.contains(cands@[k]));
            }
        }
        let mut next_nodes: Vec<FirstNode> = Vec::new();
        let mut k: usize = 0;
        while k < cands.len() && next_nodes.len() < beam_width
            invariant
                first_sizes(*c, width as int, height as int),
                half == c.piece_num / 2,
                tlen == c.table.actions.len(),
                group_hist_ok(group_hist(history@), tlen),
                first_nodes_ok(nodes@, group_hist(history@), *c, bound),
                first_nodes_ok(next_nodes@, group_hist(history@), *c, bound + width + 2),
                vec_cands_ok(cands@, nodes@, *c, bound + width + 2),
                0 <= bound <= 32000 * 1002,
                u0 == (upper_done(c.init@, width as int, height as int, (c.piece_num / 2) as int) && current_step >= 1),
                u0 && round == 0 ==> cands@.len() == 0 && next_nodes@.len() == 0 && (solution matches Some(p) && p@.len() == 0),
            decreases cands.len() - k,
        {
            let parent = cands[k].parent;
            let node = &nodes[parent];
            let ghost gh2 = group_hist(history@);
            assert(first_node_ok(*node, gh2, *c, bound));
            let moves = copy_moves(&cands[k].actions);
            let mut new_state = node.state.clone();
            assert(new_state@ =~= node.state@);
            let ghost start = node.state@;
            let mut applied: Vec<usize> = Vec::new();
            assert(apply_path(c.table, start, applied@) == start);
            let mut j: usize = 0;
            while j < moves.len()
                invariant
                    j <= moves.len(),
                    first_sizes(*c, width as int, height as int),
                    forall|t: int| 0 <= t < moves.len() ==> #[trigger] moves@[t] < c.table.actions.len(),
                    state_ok(new_state@, *c),
                    new_state@ == apply_path(c.table, start, applied@),
                    applied@ == moves@.take(j as int),
                decreases moves.len() - j,
            {
                step_move(c, &mut new_state, &mut applied, moves[j], Ghost(start));
                assert(applied@ =~= moves@.take(j + 1));
                j = j + 1;
            }
            assert(applied@ =~= moves@);
            let words = to_words(&new_state);
            if !checked.contains(&words) {
                checked.insert(words);
                let id = history.len();
                let ghost old_gh = group_hist(history@);
                let ghost e = (moves@, Some(node.id));
                proof {
                    lemma_keep_first(nodes@, old_gh, e, *c, bound);
                    lemma_keep_first(next_nodes@, old_gh, e, *c, bound + width + 2);
                    lemma_group_ext(old_gh, e, node.id as int);
                    lemma_apply_path_concat(c.table, c.init@, group_path(old_gh, node.id as int), moves@);
                }
                history.push((moves, Some(node.id)));
                assert(group_hist(history@) =~= old_gh.push(e));
                assert(group_hist(history@)[id as int] == e);
                assert(group_path(group_hist(history@), id as int) == group_path(old_gh, node.id as int) + moves@);
                let nd = FirstNode { state: new_state, id, cost: cands[k].cost, step: cands[k].step };
                assert(first_node_ok(nd, group_hist(history@), *c, bound + width + 2));
                let ghost before_next = next_nodes@;
                next_nodes.push(nd);
                assert(first_nodes_ok(next_nodes@, group_hist(history@), *c, bound + width + 2)) by {
                    assert forall|t: int| 0 <= t < next_nodes@.len() implies first_node_ok(#[trigger] next_nodes@[t], group_hist(history@), *c, bound + width + 2) by {
                        if t < before_next.len() {
                            assert(next_nodes@[t] == before_next[t]);
                        }
                    }
                }
                assert(group_hist_ok(group_hist(history@), tlen)) by {
                    assert forall|t: int| 0 <= t < group_hist(history@).len() implies (#[trigger] group_hist(history@)[t].1 matches Some(p) ==> p < t && forall|q: int|
                        0 <= q < group_hist(history@)[t].0.len() ==> #[trigger] group_hist(history@)[t].0[q] < tlen) by {
                        if t < old_gh.len() {
                            assert(group_hist(history@)[t] == old_gh[t]);
                        }
                    }
                }
            }
            k = k + 1;
        }
        proof {
            assert((round + 1) * (width + 2) == bound + width + 2) by (nonlinear_arith)
                requires
                    bound == round * (width + 2),
            ;
        }
        nodes = next_nodes;
        round = round + 1;
    }
    solution
}

/// The first phase of the globe solver on a puzzle with an even number of
/// rows: the moves found, by name, joined by `.`. `None` when the set-up
/// fails, the rows are not 2 to 64, or no solution was found.
pub fn first_moves_with_manual(
    puzzle: &Puzzle,
    allowed_move: &MoveTable,
    current_best: &String,
    width: usize,
    height: usize,
    _id: usize,
) -> (r: Option<String>)
    requires
        allowed_move.wf(),
    ensures
        r matches Some(s) ==> exists|c: GlobeCtx, p: Seq<usize>|
            setup_result(*puzzle, *allowed_move, width as int, height as int, c)
                && first_found(c, p, width as int, height as int) && s@ == join_seq(move_names(c.table, p), '.'),
        (forall|c: GlobeCtx| !setup_result(*puzzle, *allowed_move, width as int, height as int, c)) || height < 2 || height
            > 64 ==> r is None,
        forall|c: GlobeCtx|
            #[trigger] setup_result(*puzzle, *allowed_move, width as int, height as int, c) && 2 <= height <= 64 && upper_done(
                c.init@,
                width as int,
                height as int,
                (c.piece_num / 2) as int,
            ) ==> (r matches Some(s) && s@ == Seq::<char>::empty()),
{
    let text = chars_of(current_best.as_str());
    let parts = split_chars(&text, '.');
    let current_step = parts.len();
    proof {
        crate::text::lemma_split_nonempty(text@, '.');
        assert(views(parts@).len() == parts@.len());
    }
    let c = match globe_setup(puzzle, allowed_move, width, height) {
        Some(c) => c,
        None => {
            return None;
        },
    };
    if height < 2 || height > 64 {
        return None;
    }
    assert(first_move_ok(c.init@, c.order_map@, width as int, height as int, c.piece_num as int));
    match first_moves_ctx(&c, current_step, width, height) {
        Some(p) => {
            let s = path_text(&c.table, &p);
            proof {
                if p@.len() == 0 {
                    assert(move_names(c.table, p@) =~= Seq::<Seq<char>>::empty());
                }
            }
            assert(setup_result(*puzzle, *allowed_move, width as int, height as int, c)
                && first_found(c, p@, width as int, height as int) && s@ == join_seq(move_names(c.table, p@), '.'));
            Some(s)
        },
        None => None,
    }
}

} // verus!
