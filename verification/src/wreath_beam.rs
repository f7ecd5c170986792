//! The wreath solver's beam search: from the initial state every move of
//! every kept state is tried, the candidates are ranked by cost (the sum
//! of the distances of the pieces from places of their kind, ties broken
//! at random), and the best unseen states are kept. The first state of cost
//! 0 ends the search.
use vstd::prelude::*;
use crate::globe::{ids_of, table_fits, Puzzle};
use crate::globe_beam::{hist_ok, hist_path, lemma_hist_below, lemma_hist_ext, move_names, path_text, random_u32, trace};
use crate::packed_set::PackedSet;
use crate::perm::{action_fits, action_of, apply_action, apply_pairs, apply_path, create_actions, lemma_apply_pairs_values, values_below, ActionTable, MoveTable};
use crate::pieces::{distinct_pieces, gen_piece_map, state_ids, string_views};
use crate::text::{chars_of, join_seq, split_chars, split_seq, views};
use crate::wreath_cost::{
    calc_cost, calc_cost_dif, distances, far_cost, gen_cost_table, lemma_cost_dif_exact, lemma_table_sum_bound, mismatches, move_views,
    table_ok, table_rows, table_sum, targets_distinct, wreath_cost,
};

verus! {

broadcast use vstd::seq_lib::group_to_multiset_ensures;

/// `s` read as a base-3 number, its last entry the least significant digit.
pub open spec fn base3(s: Seq<usize>) -> int
    decreases s.len(),
{
    if s.len() == 0 {
        0
    } else {
        3 * base3(s.drop_last()) + s.last()
    }
}

/// `3` to the power `k`.
pub open spec fn pow3(k: nat) -> int
    decreases k,
{
    if k == 0 {
        1
    } else {
        3 * pow3((k - 1) as nat)
    }
}

proof fn lemma_base3_bound(s: Seq<usize>)
    requires
        values_below(s, 3),
    ensures
        0 <= base3(s) < pow3(s.len()),
    decreases s.len(),
{
    if s.len() > 0 {
        assert(values_below(s.drop_last(), 3)) by {
            assert forall|i: int| 0 <= i < s.drop_last().len() implies #[trigger] s.drop_last()[i] < 3 by {
                assert(s.drop_last()[i] == s[i]);
            }
        }
        lemma_base3_bound(s.drop_last());
        assert(s.last() < 3);
    }
}

proof fn lemma_pow3_pos(k: nat)
    ensures
        pow3(k) >= 1,
    decreases k,
{
    if k > 0 {
        lemma_pow3_pos((k - 1) as nat);
    }
}

proof fn lemma_pow3_mono(a: nat, b: nat)
    requires
        a <= b,
    ensures
        pow3(a) <= pow3(b),
    decreases b,
{
    if a < b {
        lemma_pow3_mono(a, (b - 1) as nat);
        lemma_pow3_pos((b - 1) as nat);
    }
}

/// A state of at most 200 pieces of three kinds packed as three base-3
/// numbers: the pieces before 80, those before 160, and the rest.
pub fn pack_state(state: &Vec<usize>) -> (r: (u128, u128, u64))
    requires
        state.len() <= 200,
        values_below(state@, 3),
    ensures
        ({
            let n = state.len() as int;
            let a = if n < 80 { n } else { 80 };
            let b = if n < 160 { n } else { 160 };
            &&& r.0 == base3(state@.subrange(0, a))
            &&& r.1 == base3(state@.subrange(a, b))
            &&& r.2 == base3(state@.subrange(b, n))
        }),
{
    let ghost n = state.len() as int;
    let mut s0: u128 = 0;
    let mut s1: u128 = 0;
    let mut s2: u64 = 0;
    let mut idx: usize = 0;
    proof {
        assert(pow3(80) < 0x1_0000_0000_0000_0000_0000_0000_0000_0000) by {
            reveal_with_fuel(pow3, 81);
        }
        assert(pow3(40) < 0x1_0000_0000_0000_0000) by {
            reveal_with_fuel(pow3, 41);
        }
    }
    while idx < state.len()
        invariant
            idx <= state.len() <= 200,
            n == state.len(),
            values_below(state@, 3),
            pow3(80) < 0x1_0000_0000_0000_0000_0000_0000_0000_0000,
            pow3(40) < 0x1_0000_0000_0000_0000,
            s0 == base3(state@.subrange(0, if idx < 80 { idx as int } else { 80 })),
            s1 == base3(state@.subrange(if idx < 80 { idx as int } else { 80 }, if idx < 160 { if idx < 80 { idx as int } else { idx as int } } else { 160 })),
            idx < 80 ==> s1 == 0,
            s2 == base3(state@.subrange(if idx < 160 { idx as int } else { 160 }, idx as int)),
        decreases state.len() - idx,
    {
        let v = state[idx];
        assert(v < 3);
        if idx < 80 {
            let ghost pre = state@.subrange(0, idx as int);
            assert(state@.subrange(0, idx + 1).drop_last() =~= pre);
            proof {
                assert(values_below(pre, 3)) by {
                    assert forall|i: int| 0 <= i < pre.len() implies #[trigger] pre[i] < 3 by {
                        assert(pre[i] == state@[i]);
                    }
                }
                lemma_base3_bound(pre);
                lemma_pow3_mono(idx as nat + 1, 80);
                assert(pow3(idx as nat + 1) == 3 * pow3(idx as nat));
            }
            s0 = 3 * s0 + v as u128;
            assert(state@.subrange(idx + 1, idx + 1) =~= Seq::<usize>::empty());
        } else if idx < 160 {
            let ghost pre = state@.subrange(80, idx as int);
            assert(state@.subrange(80, idx + 1).drop_last() =~= pre);
            proof {
                assert(values_below(pre, 3)) by {
                    assert forall|i: int| 0 <= i < pre.len() implies #[trigger] pre[i] < 3 by {
                        assert(pre[i] == state@[i + 80]);
                    }
                }
                lemma_base3_bound(pre);
                lemma_pow3_mono((idx - 80) as nat + 1, 80);
                assert(pow3((idx - 80) as nat + 1) == 3 * pow3((idx - 80) as nat));
            }
            s1 = 3 * s1 + v as u128;
            assert(state@.subrange(idx + 1, idx + 1) =~= Seq::<usize>::empty());
        } else {
            let ghost pre = state@.subrange(160, idx as int);
            assert(state@.subrange(160, idx + 1).drop_last() =~= pre);
            proof {
                assert(values_below(pre, 3)) by {
                    assert forall|i: int| 0 <= i < pre.len() implies #[trigger] pre[i] < 3 by {
                        assert(pre[i] == state@[i + 160]);
                    }
                }
                lemma_base3_bound(pre);
                lemma_pow3_mono((idx - 160) as nat + 1, 40);
                assert(pow3((idx - 160) as nat + 1) == 3 * pow3((idx - 160) as nat));
            }
            s2 = 3 * s2 + v as u64;
        }
        idx = idx + 1;
    }
    (s0, s1, s2)
}

/// The packed state as four words and a word, for a set of seen states.
fn packed_words(p: (u128, u128, u64)) -> (r: Vec<u64>)
    ensures
        r.len() == 5,
{
    let mut r: Vec<u64> = Vec::new();
    r.push((p.0 >> 64u32) as u64);
    r.push(p.0 as u64);
    r.push((p.1 >> 64u32) as u64);
    r.push(p.1 as u64);
    r.push(p.2);
    r
}

/// A candidate move of the wreath beam: the node it extends, the move, the
/// cost of the state it reaches, and a random tie-breaker.
pub struct WreathCandidate {
    pub parent: usize,
    pub action: usize,
    pub cost: i64,
    pub rand: u32,
}

/// `a` comes before `b`: lower cost, then lower tie-breaker.
pub open spec fn wcand_lt(a: WreathCandidate, b: WreathCandidate) -> bool {
    a.cost < b.cost || (a.cost == b.cost && a.rand < b.rand)
}

/// Orders candidates by cost, then by tie-breaker.
pub fn compare_wreath_candidate(a: &WreathCandidate, b: &WreathCandidate) -> (o: std::cmp::Ordering)
    ensures
        (o is Less) == wcand_lt(*a, *b),
        (o is Greater) == wcand_lt(*b, *a),
        (o is Equal) == (a.cost == b.cost && a.rand == b.rand),
{
    if a.cost < b.cost {
        std::cmp::Ordering::Less
    } else if a.cost > b.cost {
        std::cmp::Ordering::Greater
    } else {
        if a.rand < b.rand {
            std::cmp::Ordering::Less
        } else if a.rand > b.rand {
            std::cmp::Ordering::Greater
        } else {
            std::cmp::Ordering::Equal
        }
    }
}

/// `slice::sort_by` with `compare_wreath_candidate`: the same candidates,
/// ordered by cost, then by tie-breaker (std documents that `sort_by` sorts
/// the slice by the comparison, keeping the elements).
#[verifier::external_body]
fn sort_wreath_candidates(c: &mut Vec<WreathCandidate>)
    ensures
        final(c)@.to_multiset() == old(c)@.to_multiset(),
        final(c)@.len() == old(c)@.len(),
        forall|i: int, j: int| 0 <= i < j < final(c)@.len() ==> !wcand_lt(#[trigger] final(c)@[j], #[trigger] final(c)@[i]),
{
    c.sort_by(compare_wreath_candidate);
}

proof fn lemma_action_of_targets(v: Seq<i16>)
    requires
        v.len() <= usize::MAX,
    ensures
        action_of(v).len() <= v.len(),
        forall|k: int| 0 <= k < action_of(v).len() ==> (#[trigger] action_of(v)[k]).0 < v.len(),
        targets_distinct(action_of(v)),
    decreases v.len(),
{
    if v.len() > 0 {
        lemma_action_of_targets(v.drop_last());
        let a = action_of(v.drop_last());
        let r = action_of(v);
        assert forall|k: int| 0 <= k < r.len() implies (#[trigger] r[k]).0 < v.len() by {
            if k < a.len() {
                assert(r[k] == a[k]);
            }
        }
        assert forall|x: int, y: int| 0 <= x < y < r.len() implies (#[trigger] r[x]).0 != (#[trigger] r[y]).0 by {
            assert(r[x] == a[x]);
            if y < a.len() {
                assert(r[y] == a[y]);
            } else {
                let idx = v.len() - 1;
                assert(idx != (v.last() as usize) as int);
                assert(r == a.push((idx as usize, v.last() as usize)));
                assert(r[y].0 == v.len() - 1);
                assert(a[x].0 < v.len() - 1);
            }
        }
    }
}

/// What the wreath beam searches with: the moves, the initial and solved
/// states as piece kinds, the number of kinds, the distance table of each
/// kind, and the number of places that may stay wrong.
pub struct WreathCtx {
    pub table: ActionTable,
    pub init: Vec<usize>,
    pub sol: Vec<usize>,
    pub kinds: usize,
    pub cost_table: Vec<Vec<i32>>,
    pub wild: i16,
}

/// A context the search can run on: moves that fit the states and write
/// distinct places, at most 200 pieces of at most three kinds, and a cost
/// table row for each kind.
pub open spec fn wctx_ok(c: WreathCtx) -> bool {
    &&& c.table.wf()
    &&& c.table.fits(c.init.len() as nat)
    &&& forall|k: int| 0 <= k < c.table.actions.len() ==> targets_distinct(#[trigger] c.table.actions[k]@)
        && c.table.actions[k]@.len() <= 1000000
    &&& c.init.len() == c.sol.len()
    &&& c.init.len() <= 200
    &&& c.kinds <= 3
    &&& values_below(c.init@, c.kinds as nat)
    &&& values_below(c.sol@, c.kinds as nat)
    &&& c.cost_table.len() == c.kinds
    &&& table_ok(table_rows(c.cost_table@), c.init.len() as int)
}

/// The context comes from `puzzle` and `moves`: the moves of the table in
/// order, both states written as kinds of the initial state's pieces in
/// order of first appearance, and each kind's distances.
pub open spec fn wreath_setup_result(puzzle: Puzzle, moves: MoveTable, c: WreathCtx) -> bool {
    let keys = distinct_pieces(split_seq(puzzle.initial_state@, ';'));
    &&& wctx_ok(c)
    &&& c.table.names@ == moves.names@
    &&& c.table.actions.len() == moves.perms.len()
    &&& forall|k: int| 0 <= k < c.table.actions.len() ==> #[trigger] c.table.actions[k]@ == action_of(moves.perms[k]@)
    &&& c.kinds == keys.len()
    &&& ids_of(puzzle.initial_state@, keys, c.init@)
    &&& ids_of(puzzle.solution_state@, keys, c.sol@)
    &&& c.wild == puzzle.num_wildcards
    &&& forall|i: int| 0 <= i < c.kinds ==> distances(#[trigger] table_rows(c.cost_table@)[i], c.sol@, move_views(c.table.actions@), i)
}

/// What a context that `wreath_setup_result` allows shows of the puzzle:
/// every piece of both states has an id in `pm`, the states have the same
/// number of pieces, at most 200, of at most three kinds, and a table with
/// the same actions fits them and has no move of more than a million pairs.
proof fn lemma_wsetup_needs(puzzle: Puzzle, moves: MoveTable, c: WreathCtx, pm: crate::pieces::PieceMap, table: ActionTable)
    requires
        wreath_setup_result(puzzle, moves, c),
        pm.keys() == distinct_pieces(split_seq(puzzle.initial_state@, ';')),
        table.wf(),
        table.names@ == moves.names@,
        forall|k: int| 0 <= k < table.actions.len() ==> #[trigger] table.actions[k]@ == action_of(moves.perms[k]@),
    ensures
        crate::pieces::all_known(puzzle.initial_state@, pm),
        crate::pieces::all_known(puzzle.solution_state@, pm),
        split_seq(puzzle.initial_state@, ';').len() == split_seq(puzzle.solution_state@, ';').len(),
        split_seq(puzzle.initial_state@, ';').len() <= 200,
        pm.keys().len() <= 3,
        table.fits(split_seq(puzzle.initial_state@, ';').len()),
        forall|k: int| 0 <= k < table.actions.len() ==> (#[trigger] table.actions[k]@).len() <= 1000000,
{
    let keys = pm.keys();
    let si = split_seq(puzzle.initial_state@, ';');
    let ss = split_seq(puzzle.solution_state@, ';');
    assert forall|k: int| 0 <= k < si.len() implies #[trigger] keys.contains(si[k]) by {
        assert(c.init@[k] < keys.len() && keys[c.init@[k] as int] == si[k]);
    }
    assert forall|k: int| 0 <= k < ss.len() implies #[trigger] keys.contains(ss[k]) by {
        assert(c.sol@[k] < keys.len() && keys[c.sol@[k] as int] == ss[k]);
    }
    assert forall|k: int| 0 <= k < table.actions.len() implies action_fits(#[trigger] table.actions[k]@, si.len()) by {
        assert(c.table.actions[k]@ == table.actions[k]@);
    }
    assert forall|k: int| 0 <= k < table.actions.len() implies (#[trigger] table.actions[k]@).len() <= 1000000 by {
        assert(c.table.actions[k]@ == table.actions[k]@);
    }
}

/// Every move has at most a million pairs.
fn actions_short(t: &ActionTable) -> (b: bool)
    ensures
        b == forall|k: int| 0 <= k < t.actions.len() ==> (#[trigger] t.actions[k]@).len() <= 1000000,
{
    let mut k: usize = 0;
    while k < t.actions.len()
        invariant
            k <= t.actions.len(),
            forall|j: int| 0 <= j < k ==> (#[trigger] t.actions[j]@).len() <= 1000000,
        decreases t.actions.len() - k,
    {
        if t.actions[k].len() > 1000000 {
            return false;
        }
        k = k + 1;
    }
    true
}

/// Sets the wreath search up; `None` when a piece of the solved state is
/// not in the initial state, the states differ in length or have more than
/// 200 pieces or three kinds, or a move does not fit.
pub fn wreath_setup(puzzle: &Puzzle, moves: &MoveTable) -> (r: Option<WreathCtx>)
    requires
        moves.wf(),
    ensures
        r matches Some(c) ==> wreath_setup_result(*puzzle, *moves, c),
        r is None ==> forall|c: WreathCtx| !wreath_setup_result(*puzzle, *moves, c),
{
    let (piece_map, piece_list) = gen_piece_map(puzzle.initial_state.as_str());
    let table = create_actions(moves);
    let ghost keys = distinct_pieces(split_seq(puzzle.initial_state@, ';'));
    let init = match state_ids(puzzle.initial_state.as_str(), &piece_map) {
        Some(v) => v,
        None => {
            proof {
                assert forall|c: WreathCtx| !wreath_setup_result(*puzzle, *moves, c) by {
                    if wreath_setup_result(*puzzle, *moves, c) {
                        lemma_wsetup_needs(*puzzle, *moves, c, piece_map, table);
                    }
                }
            }
            return None;
        },
    };
    let sol = match state_ids(puzzle.solution_state.as_str(), &piece_map) {
        Some(v) => v,
        None => {
            proof {
                assert forall|c: WreathCtx| !wreath_setup_result(*puzzle, *moves, c) by {
                    if wreath_setup_result(*puzzle, *moves, c) {
                        lemma_wsetup_needs(*puzzle, *moves, c, piece_map, table);
                    }
                }
            }
            return None;
        },
    };
    let kinds = piece_list.len();
    assert(piece_map.keys().len() == kinds);
    if init.len() != sol.len() || init.len() > 200 || kinds > 3 {
        proof {
            assert forall|c: WreathCtx| !wreath_setup_result(*puzzle, *moves, c) by {
                if wreath_setup_result(*puzzle, *moves, c) {
                    lemma_wsetup_needs(*puzzle, *moves, c, piece_map, table);
                }
            }
        }
        return None;
    }
    if !table_fits(&table, init.len()) || !actions_short(&table) {
        proof {
            assert forall|c: WreathCtx| !wreath_setup_result(*puzzle, *moves, c) by {
                if wreath_setup_result(*puzzle, *moves, c) {
                    lemma_wsetup_needs(*puzzle, *moves, c, piece_map, table);
                }
            }
        }
        return None;
    }
    proof {
        assert forall|k: int| 0 <= k < table.actions.len() implies targets_distinct(#[trigger] table.actions[k]@)
            && table.actions[k]@.len() <= 1000000 by {
            assert(moves.perms[k]@.len() == moves.perms[k].len());
            lemma_action_of_targets(moves.perms[k]@);
        }
    }
    let n = init.len();
    assert(values_below(init@, kinds as nat)) by {
        assert forall|i: int| 0 <= i < init.len() implies #[trigger] init@[i] < kinds by {
            assert(piece_map.maps(split_seq(puzzle.initial_state@, ';')[i], init@[i] as int));
        }
    }
    assert(values_below(sol@, kinds as nat)) by {
        assert forall|i: int| 0 <= i < sol.len() implies #[trigger] sol@[i] < kinds by {
            assert(piece_map.maps(split_seq(puzzle.solution_state@, ';')[i], sol@[i] as int));
        }
    }
    assert(crate::wreath_cost::moves_within(move_views(table.actions@), n as int)) by {
        assert forall|m: int, k: int|
            0 <= m < move_views(table.actions@).len() && 0 <= k < move_views(table.actions@)[m].len() implies (
            #[trigger] move_views(table.actions@)[m][k]).0 < n && move_views(table.actions@)[m][k].1 < n by {
            assert(move_views(table.actions@)[m] == table.actions[m]@);
            assert(action_fits(table.actions[m]@, n as nat));
            assert(table.actions[m]@[k].0 < n && table.actions[m]@[k].1 < n);
        }
    }
    let cost_table = gen_cost_table(&sol, &table.actions, n, kinds);
    let c = WreathCtx { table, init, sol, kinds, cost_table, wild: puzzle.num_wildcards };
    assert(table_ok(table_rows(c.cost_table@), n as int)) by {
        assert forall|v: int| 0 <= v < table_rows(c.cost_table@).len() implies (#[trigger] table_rows(c.cost_table@)[v]).len() >= n
            && forall|p: int| 0 <= p < n ==> 0 <= #[trigger] table_rows(c.cost_table@)[v][p] <= far_cost() by {
            assert(table_rows(c.cost_table@)[v] == c.cost_table@[v]@);
            assert(c.cost_table@[v].len() == n);
        }
    }
    assert forall|i: int| 0 <= i < c.kinds implies distances(#[trigger] table_rows(c.cost_table@)[i], c.sol@, move_views(c.table.actions@), i) by {
        assert(table_rows(c.cost_table@)[i] == c.cost_table@[i]@);
    }
    assert(ids_of(puzzle.initial_state@, keys, c.init@)) by {
        assert forall|k: int| 0 <= k < c.init@.len() implies #[trigger] c.init@[k] < keys.len() && keys[c.init@[k] as int]
            == split_seq(puzzle.initial_state@, ';')[k] by {
            assert(piece_map.maps(split_seq(puzzle.initial_state@, ';')[k], c.init@[k] as int));
        }
    }
    assert(ids_of(puzzle.solution_state@, keys, c.sol@)) by {
        assert forall|k: int| 0 <= k < c.sol@.len() implies #[trigger] c.sol@[k] < keys.len() && keys[c.sol@[k] as int]
            == split_seq(puzzle.solution_state@, ';')[k] by {
            assert(piece_map.maps(split_seq(puzzle.solution_state@, ';')[k], c.sol@[k] as int));
        }
    }
    Some(c)
}

/// A kept state of the wreath beam: its pieces, its history entry and its
/// cost sum.
pub struct WNode {
    pub state: Vec<usize>,
    pub id: usize,
    pub cost: i64,
}

/// The node's state is the initial state after the `depth` moves of its
/// history entry, and its cost is the sum of its pieces' distances.
pub open spec fn wnode_ok(nd: WNode, hist: Seq<(usize, Option<usize>)>, c: WreathCtx, depth: int) -> bool {
    &&& nd.id < hist.len()
    &&& nd.state@ == apply_path(c.table, c.init@, hist_path(hist, nd.id as int))
    &&& hist_path(hist, nd.id as int).len() == depth
    &&& nd.state.len() == c.init.len()
    &&& values_below(nd.state@, c.kinds as nat)
    &&& nd.cost == table_sum(nd.state@, table_rows(c.cost_table@), nd.state.len() as int)
}

/// Every node is as `wnode_ok` says.
pub open spec fn wnodes_ok(nodes: Seq<WNode>, hist: Seq<(usize, Option<usize>)>, c: WreathCtx, depth: int) -> bool {
    forall|j: int| 0 <= j < nodes.len() ==> wnode_ok(#[trigger] nodes[j], hist, c, depth)
}

/// The state reached from node `nd` by move `a`.
pub open spec fn moved(nd: WNode, c: WreathCtx, a: int) -> Seq<usize> {
    apply_pairs(nd.state@, nd.state@, c.table.actions[a]@)
}

/// Every candidate extends a node by a move of the table, with the
/// (nonzero) cost of the state it reaches.
pub open spec fn wcands_ok(cands: Seq<WreathCandidate>, nodes: Seq<WNode>, c: WreathCtx) -> bool {
    forall|k: int|
        0 <= k < cands.len() ==> {
            &&& (#[trigger] cands[k]).parent < nodes.len()
            &&& cands[k].action < c.table.actions.len()
            &&& cands[k].cost == wreath_cost(
                moved(nodes[cands[k].parent as int], c, cands[k].action as int),
                c.sol@,
                table_rows(c.cost_table@),
                c.wild as int,
            )
            &&& cands[k].cost != 0
        }
}

/// A solution of the wreath beam search: moves of the table, none or fewer
/// than `steps`, that bring the initial state to cost 0.
pub open spec fn wreath_found(c: WreathCtx, p: Seq<usize>, steps: int) -> bool {
    &&& forall|k: int| 0 <= k < p.len() ==> #[trigger] p[k] < c.table.actions.len()
    &&& (p.len() == 0 || p.len() < steps)
    &&& wreath_cost(apply_path(c.table, c.init@, p), c.sol@, table_rows(c.cost_table@), c.wild as int) == 0
}

proof fn lemma_keep_wnodes(nodes: Seq<WNode>, hist: Seq<(usize, Option<usize>)>, e: (usize, Option<usize>), c: WreathCtx, depth: int)
    requires
        wnodes_ok(nodes, hist, c, depth),
    ensures
        wnodes_ok(nodes, hist.push(e), c, depth),
{
    assert forall|j: int| 0 <= j < nodes.len() implies wnode_ok(#[trigger] nodes[j], hist.push(e), c, depth) by {
        assert(wnode_ok(nodes[j], hist, c, depth));
        lemma_hist_ext(hist, e, nodes[j].id as int);
    }
}

/// The beam search on a set-up context: at most `current_step - 1` rounds,
/// each keeping the million best unseen states. Gives the moves to the
/// first state of cost 0 found (none when the initial state has cost 0);
/// `None` when no state of cost 0 was reached.
pub fn beam_search_ctx(c: &WreathCtx, current_step: usize) -> (r: Option<Vec<usize>>)
    requires
        wctx_ok(*c),
    ensures
        r matches Some(p) ==> wreath_found(*c, p@, current_step as int),
        wreath_cost(c.init@, c.sol@, table_rows(c.cost_table@), c.wild as int) == 0 ==> (r matches Some(p) && p@.len() == 0),
{
    let beam_width: usize = 1000000;
    let ghost tlen = c.table.actions.len() as nat;
    let ghost rows = table_rows(c.cost_table@);
    let init_cost = calc_cost(&c.init, &c.sol, &c.cost_table, c.wild);
    if init_cost == 0 {
        let p: Vec<usize> = Vec::new();
        assert(apply_path(c.table, c.init@, p@) == c.init@);
        return Some(p);
    }
    let mut checked = PackedSet::new();
    checked.insert(packed_words(pack_state(&c.init)));
    let mut history: Vec<(usize, Option<usize>)> = Vec::new();
    history.push((0, None));
    let mut nodes: Vec<WNode> = Vec::new();
    let first = WNode { state: c.init.clone(), id: 0, cost: init_cost };
    assert(first.state@ =~= c.init@);
    assert(hist_path(history@, 0) =~= Seq::<usize>::empty());
    nodes.push(first);
    assert(wnodes_ok(nodes@, history@, *c, 0)) by {
        assert forall|j: int| 0 <= j < nodes@.len() implies wnode_ok(#[trigger] nodes@[j], history@, *c, 0) by {
            assert(nodes@[j] == first);
        }
    }
    let mut step: usize = 1;
    while step < current_step
        invariant
            wreath_cost(c.init@, c.sol@, table_rows(c.cost_table@), c.wild as int) != 0,
            wctx_ok(*c),
            tlen == c.table.actions.len(),
            rows == table_rows(c.cost_table@),
            1 <= step,
            hist_ok(history@, tlen),
            wnodes_ok(nodes@, history@, *c, step - 1),
        decreases current_step - step,
    {
        let mut cands: Vec<WreathCandidate> = Vec::new();
        let mut idx: usize = 0;
        while idx < nodes.len()
            invariant
                wreath_cost(c.init@, c.sol@, table_rows(c.cost_table@), c.wild as int) != 0,
                wctx_ok(*c),
                tlen == c.table.actions.len(),
                rows == table_rows(c.cost_table@),
                1 <= step < current_step,
                hist_ok(history@, tlen),
                wnodes_ok(nodes@, history@, *c, step - 1),
                wcands_ok(cands@, nodes@, *c),
            decreases nodes.len() - idx,
        {
            let mut i: usize = 0;
            while i < c.table.actions.len()
                invariant
                    wreath_cost(c.init@, c.sol@, table_rows(c.cost_table@), c.wild as int) != 0,
                    idx < nodes.len(),
                    wctx_ok(*c),
                    tlen == c.table.actions.len(),
                    rows == table_rows(c.cost_table@),
                    1 <= step < current_step,
                    hist_ok(history@, tlen),
                    wnodes_ok(nodes@, history@, *c, step - 1),
                    wcands_ok(cands@, nodes@, *c),
                decreases c.table.actions.len() - i,
            {
                let node = &nodes[idx];
                assert(wnode_ok(*node, history@, *c, step - 1));
                assert(c.table.fits(c.init.len() as nat));
                let act = &c.table.actions[i];
                assert(action_fits(act@, node.state.len() as nat));
                assert(targets_distinct(act@) && act@.len() <= 1000000);
                proof {
                    lemma_table_sum_bound(node.state@, rows, node.state.len() as int);
                    assert(node.state.len() * far_cost() <= 1000000 * far_cost()) by (nonlinear_arith)
                        requires
                            node.state.len() <= 200,
                    ;
                    lemma_cost_dif_exact(node.state@, c.sol@, rows, act@);
                }
                let new_cost = calc_cost_dif(&node.state, &c.sol, &c.cost_table, act, node.cost, c.wild);
                assert(new_cost == wreath_cost(moved(*node, *c, i as int), c.sol@, rows, c.wild as int));
                if new_cost == 0 {
                    let mut sol = trace(&history, node.id, Ghost(tlen));
                    let ghost path = sol@;
                    proof {
                        lemma_hist_below(history@, tlen, node.id as int);
                    }
                    sol.push(i);
                    proof {
                        assert(sol@.drop_last() == path);
                        assert(apply_path(c.table, c.init@, sol@) == moved(*node, *c, i as int));
                        assert forall|k: int| 0 <= k < sol@.len() implies #[trigger] sol@[k] < tlen by {
                            if k < path.len() {
                                assert(sol@[k] == path[k]);
                            }
                        }
                    }
                    return Some(sol);
                }
                let rnd = random_u32();
                let ghost before = cands@;
                let cand = WreathCandidate { parent: idx, action: i, cost: new_cost, rand: rnd };
                cands.push(cand);
                assert(wcands_ok(cands@, nodes@, *c)) by {
                    assert forall|k: int| 0 <= k < cands@.len() implies {
                        &&& (#[trigger] cands@[k]).parent < nodes@.len()
                        &&& cands@[k].action < c.table.actions.len()
                        &&& cands@[k].cost == wreath_cost(
                            moved(nodes@[cands@[k].parent as int], *c, cands@[k].action as int),
                            c.sol@,
                            table_rows(c.cost_table@),
                            c.wild as int,
                        )
                        &&& cands@[k].cost != 0
                    } by {
                        if k < before.len() {
                            assert(cands@[k] == before[k]);
                        } else {
                            assert(cands@[k] == cand);
                        }
                    }
                }
                i = i + 1;
            }
            idx = idx + 1;
        }
        let ghost before_sort = cands@;
        sort_wreath_candidates(&mut cands);
        assert(wcands_ok(cands@, nodes@, *c)) by {
            assert forall|k: int| 0 <= k < cands@.len() implies {
                &&& (#[trigger] cands@[k]).parent < nodes@.len()
                &&& cands@[k].action < c.table.actions.len()
                &&& cands@[k].cost == wreath_cost(
                    moved(nodes@[cands@[k].parent as int], *c, cands@[k].action as int),
                    c.sol@,
                    table_rows(c.cost_table@),
                    c.wild as int,
                )
                &&& cands@[k].cost != 0
            } by {
                assert(cands@.contains(cands@[k]));
                assert(cands@.to_multiset().count(cands@[k]) > 0);
                assert(before_sort.to_multiset().count(cands@[k]) > 0);
                assert(before_sort.contains(cands@[k]));
                let j = choose|j: int| 0 <= j < before_sort.len() && before_sort[j] == cands@[k];
                assert(before_sort[j] == cands@[k]);
            }
        }
        let mut next_nodes: Vec<WNode> = Vec::new();
        let mut k: usize = 0;
        while k < cands.len() && next_nodes.len() < beam_width
            invariant
                wreath_cost(c.init@, c.sol@, table_rows(c.cost_table@), c.wild as int) != 0,
                wctx_ok(*c),
                tlen == c.table.actions.len(),
                rows == table_rows(c.cost_table@),
                1 <= step < current_step,
                hist_ok(history@, tlen),
                wnodes_ok(nodes@, history@, *c, step - 1),
                wnodes_ok(next_nodes@, history@, *c, step as int),
                wcands_ok(cands@, nodes@, *c),
            decreases cands.len() - k,
        {
            let parent = cands[k].parent;
            let action = cands[k].action;
            let cost = cands[k].cost;
            assert(wcands_ok(cands@, nodes@, *c));
            let ghost ck = cands@[k as int];
            assert(ck.parent < nodes@.len());
            let node = &nodes[parent];
            assert(wnode_ok(*node, history@, *c, step - 1));
            assert(c.table.fits(c.init.len() as nat));
            assert(action_fits(c.table.actions[action as int]@, node.state.len() as nat));
            let new_state = apply_action(&node.state, &c.table.actions[action]);
            proof {
                lemma_apply_pairs_values(node.state@, node.state@, c.table.actions[action as int]@, c.kinds as nat);
                assert(values_below(new_state@, 3)) by {
                    assert forall|j: int| 0 <= j < new_state.len() implies #[trigger] new_state@[j] < 3 by {
                        assert(new_state@[j] < c.kinds);
                    }
                }
            }
            let packed = packed_words(pack_state(&new_state));
            if !checked.contains(&packed) {
                checked.insert(packed);
                let id = history.len();
                let e = (action, Some(node.id));
                let ghost old_hist = history@;
                proof {
                    lemma_keep_wnodes(nodes@, old_hist, e, *c, step - 1);
                    lemma_keep_wnodes(next_nodes@, old_hist, e, *c, step as int);
                    lemma_hist_ext(old_hist, e, node.id as int);
                }
                history.push(e);
                let ghost old_path = hist_path(old_hist, node.id as int);
                assert(history@[id as int] == e);
                assert(hist_path(history@, id as int) == old_path.push(action));
                assert(old_path.push(action).drop_last() =~= old_path);
                assert(apply_path(c.table, c.init@, old_path.push(action)) == new_state@);
                assert(new_state@ == moved(*node, *c, action as int));
                let nd = WNode { state: new_state, id, cost };
                assert(wnode_ok(nd, history@, *c, step as int));
                next_nodes.push(nd);
                assert(wnodes_ok(next_nodes@, history@, *c, step as int)) by {
                    assert forall|j: int| 0 <= j < next_nodes@.len() implies wnode_ok(#[trigger] next_nodes@[j], history@, *c, step as int) by {
                        if j < next_nodes@.len() - 1 {
                            assert(next_nodes@[j] == next_nodes@.drop_last()[j]);
                        } else {
                            assert(next_nodes@[j] == nd);
                        }
                    }
                }
            }
            k = k + 1;
        }
        nodes = next_nodes;
        step = step + 1;
    }
    None
}

/// The wreath beam search on a puzzle: the names of the moves found,
/// joined by `.` (`Some("")` when the initial state has cost 0); `None`
/// when the set-up fails or no solution shorter than `current_best`
/// (counted in moves) was found.
pub fn beam_search(puzzle: &Puzzle, allowed_move: &MoveTable, current_best: &String) -> (r: Option<String>)
    requires
        allowed_move.wf(),
    ensures
        r matches Some(s) ==> exists|c: WreathCtx, p: Seq<usize>|
            wreath_setup_result(*puzzle, *allowed_move, c) && wreath_found(c, p, split_seq(current_best@, '.').len() as int)
                && s@ == join_seq(move_names(c.table, p), '.'),
        (forall|c: WreathCtx| !wreath_setup_result(*puzzle, *allowed_move, c)) ==> r is None,
{
    let text = chars_of(current_best.as_str());
    let parts = split_chars(&text, '.');
    let current_step = parts.len();
    let c = match wreath_setup(puzzle, allowed_move) {
        Some(c) => c,
        None => {
            return None;
        },
    };
    match beam_search_ctx(&c, current_step) {
        Some(p) => {
            let s = path_text(&c.table, &p);
            assert(views(parts@).len() == parts@.len());
            assert(wreath_setup_result(*puzzle, *allowed_move, c) && wreath_found(c, p@, split_seq(current_best@, '.').len() as int)
                && s@ == join_seq(move_names(c.table, p@), '.'));
            Some(s)
        },
        None => None,
    }
}

} // verus!
