//! The globe solver's setting up and its first search: a beam search over
//! states ranked by `calc_cost`, keeping each state once.
use vstd::prelude::*;
use crate::globe_cost::{
    calc_cost, calc_cost_spec, compare_candidate, cand_lt, globe_dims, pack_state, Candidate,
};
use crate::packed_set::PackedSet;
use crate::perm::{
    action_fits, action_of, apply_action, apply_pairs, apply_path, create_action, lemma_apply_pairs_values,
    values_below, ActionTable, MoveTable,
};
use crate::pieces::{distinct_pieces, gen_piece_map, state_ids, string_views};
use crate::text::{chars_of, join_chars, join_seq, split_chars, split_seq, string_of, views};
use crate::moves::turn;

verus! {

broadcast use vstd::seq_lib::group_to_multiset_ensures;

/// A puzzle: its type, its solved and initial states (piece names joined by
/// `;`), and how many pieces may be left wrong.
pub struct Puzzle {
    pub puzzle_type: String,
    pub solution_state: String,
    pub initial_state: String,
    pub num_wildcards: i16,
}

/// A name that begins with `-f`.
pub open spec fn is_neg_f(name: Seq<char>) -> bool {
    name.len() >= 2 && name[0] == '-' && name[1] == 'f'
}

/// The names and sparse actions of the first `k` moves of `t` whose names
/// do not begin with `-f`, in order.
pub open spec fn globe_entries(t: MoveTable, k: int) -> Seq<(Seq<char>, Seq<(usize, usize)>)>
    decreases k,
{
    if k <= 0 {
        Seq::empty()
    } else {
        let p = globe_entries(t, k - 1);
        if is_neg_f(t.names[k - 1]@) {
            p
        } else {
            p.push((t.names[k - 1]@, action_of(t.perms[k - 1]@)))
        }
    }
}

/// The names and actions of a table, entry by entry.
pub open spec fn entries(t: ActionTable) -> Seq<(Seq<char>, Seq<(usize, usize)>)> {
    Seq::new(t.names@.len(), |i: int| (t.names[i]@, t.actions[i]@))
}

fn starts_neg_f(name: &String) -> (b: bool)
    ensures
        b == is_neg_f(name@),
{
    let v = chars_of(name.as_str());
    v.len() >= 2 && v[0] == '-' && v[1] == 'f'
}

/// The moves of `allowed_moves` that the globe solver uses: all but those
/// named `-f...`, each with its sparse action.
pub fn create_globe_actions(allowed_moves: &MoveTable) -> (r: ActionTable)
    requires
        allowed_moves.wf(),
    ensures
        r.wf(),
        entries(r) == globe_entries(*allowed_moves, allowed_moves.names.len() as int),
{
    let mut names: Vec<String> = Vec::new();
    let mut actions: Vec<Vec<(usize, usize)>> = Vec::new();
    let mut k: usize = 0;
    while k < allowed_moves.names.len()
        invariant
            allowed_moves.wf(),
            k <= allowed_moves.names.len(),
            names.len() == actions.len(),
            entries(ActionTable { names, actions }) == globe_entries(*allowed_moves, k as int),
        decreases allowed_moves.names.len() - k,
    {
        let ghost before = entries(ActionTable { names, actions });
        if !starts_neg_f(&allowed_moves.names[k]) {
            names.push(allowed_moves.names[k].clone());
            actions.push(create_action(&allowed_moves.perms[k]));
            assert(entries(ActionTable { names, actions }) =~= before.push(
                (allowed_moves.names[k as int]@, action_of(allowed_moves.perms[k as int]@)),
            ));
        }
        k = k + 1;
    }
    ActionTable { names, actions }
}

/// `ids` are the ids, in the piece list `keys`, of the pieces of `state`.
pub open spec fn ids_of(state: Seq<char>, keys: Seq<Seq<char>>, ids: Seq<usize>) -> bool {
    &&& ids.len() == split_seq(state, ';').len()
    &&& forall|k: int| 0 <= k < ids.len() ==> #[trigger] ids[k] < keys.len() && keys[ids[k] as int] == split_seq(state, ';')[k]
}

/// What a globe search works on: the moves, the initial and solved states
/// as piece ids, the number of piece types, and the order of each piece in
/// its row of the solved state.
pub struct GlobeCtx {
    pub table: ActionTable,
    pub init: Vec<usize>,
    pub sol: Vec<usize>,
    pub piece_num: usize,
    pub order_map: Vec<i32>,
}

/// A context the searches can run on: moves that fit the states, states of
/// `width * height` pieces of an even number of types, sizes whose costs
/// fit in `i32`, and an order below `width` for each piece.
pub open spec fn ctx_ok(c: GlobeCtx, width: int, height: int) -> bool {
    &&& c.table.wf()
    &&& c.table.fits(c.init.len() as nat)
    &&& c.init.len() == width * height
    &&& c.sol.len() == c.init.len()
    &&& c.piece_num >= 2
    &&& c.piece_num % 2 == 0
    &&& values_below(c.init@, c.piece_num as nat)
    &&& values_below(c.sol@, c.piece_num as nat)
    &&& globe_dims(c.init@, width, height, c.piece_num as int)
    &&& c.order_map.len() == c.piece_num
    &&& forall|j: int| 0 <= j < c.order_map.len() ==> 0 <= #[trigger] c.order_map@[j] < width
}

/// The context comes from `puzzle` and `allowed_moves`: the globe moves of
/// the table, the states written as ids of the pieces of the solved state
/// in order of first appearance, and the order of each piece in its row of
/// the solved state (`piece_orders`).
pub open spec fn setup_result(puzzle: Puzzle, allowed_moves: MoveTable, width: int, height: int, c: GlobeCtx) -> bool {
    let keys = distinct_pieces(split_seq(puzzle.solution_state@, ';'));
    &&& ctx_ok(c, width, height)
    &&& entries(c.table) == globe_entries(allowed_moves, allowed_moves.names.len() as int)
    &&& c.piece_num == keys.len()
    &&& ids_of(puzzle.initial_state@, keys, c.init@)
    &&& ids_of(puzzle.solution_state@, keys, c.sol@)
    &&& c.order_map@ == piece_orders(c.sol@, width, c.piece_num as int, height)
}

/// The ids of a state by distinct keys are unique.
pub(crate) proof fn lemma_ids_unique(state: Seq<char>, keys: Seq<Seq<char>>, a: Seq<usize>, b: Seq<usize>)
    requires
        keys.no_duplicates(),
        ids_of(state, keys, a),
        ids_of(state, keys, b),
    ensures
        a == b,
{
    assert forall|k: int| 0 <= k < a.len() implies a[k] == b[k] by {
        assert(keys[a[k] as int] == split_seq(state, ';')[k]);
        assert(keys[b[k] as int] == split_seq(state, ';')[k]);
    }
    assert(a =~= b);
}

/// A context that `setup_result` allows gives every piece of both states an
/// id in `pm`.
proof fn lemma_setup_known(puzzle: Puzzle, allowed: MoveTable, width: int, height: int, c: GlobeCtx, pm: crate::pieces::PieceMap)
    requires
        setup_result(puzzle, allowed, width, height, c),
        pm.keys() == distinct_pieces(split_seq(puzzle.solution_state@, ';')),
    ensures
        crate::pieces::all_known(puzzle.initial_state@, pm),
        crate::pieces::all_known(puzzle.solution_state@, pm),
{
    let keys = pm.keys();
    let si = split_seq(puzzle.initial_state@, ';');
    let ss = split_seq(puzzle.solution_state@, ';');
    assert forall|k: int| 0 <= k < si.len() implies #[trigger] keys.contains(si[k]) by {
        assert(c.init@[k] < keys.len() && keys[c.init@[k] as int] == si[k]);
    }
    assert forall|k: int| 0 <= k < ss.len() implies #[trigger] keys.contains(ss[k]) by {
        assert(c.sol@[k] < keys.len() && keys[c.sol@[k] as int] == ss[k]);
    }
}

/// What a context that `setup_result` allows shows of the puzzle: every
/// piece of both states has an id in `pm`, the sizes are in range, the
/// number of piece types is even and at least two, a table with the same
/// entries fits the states, every piece has an order below `width`, and the
/// ids of the solved state are those that `pm` gives.
proof fn lemma_setup_needs(
    puzzle: Puzzle,
    allowed: MoveTable,
    width: int,
    height: int,
    c: GlobeCtx,
    table: ActionTable,
    pm: crate::pieces::PieceMap,
    sol: Seq<usize>,
)
    requires
        setup_result(puzzle, allowed, width, height, c),
        table.wf(),
        entries(table) == globe_entries(allowed, allowed.names.len() as int),
        pm.wf(),
        pm.keys() == distinct_pieces(split_seq(puzzle.solution_state@, ';')),
        sol.len() == split_seq(puzzle.solution_state@, ';').len(),
        forall|k: int| 0 <= k < sol.len() ==> pm.maps(split_seq(puzzle.solution_state@, ';')[k], #[trigger] sol[k] as int),
    ensures
        crate::pieces::all_known(puzzle.initial_state@, pm),
        crate::pieces::all_known(puzzle.solution_state@, pm),
        1 <= width <= 1000,
        1 <= height <= 1000,
        width * width * width * height <= 1000000000,
        c.piece_num == pm.keys().len(),
        c.piece_num >= 2,
        c.piece_num % 2 == 0,
        split_seq(puzzle.initial_state@, ';').len() == width * height,
        split_seq(puzzle.solution_state@, ';').len() == width * height,
        table.fits((width * height) as nat),
        c.sol@ == sol,
        forall|j: int| 0 <= j < c.piece_num ==> #[trigger] piece_orders(sol, width, c.piece_num as int, height)[j] < width,
{
    let keys = pm.keys();
    let ss = split_seq(puzzle.solution_state@, ';');
    lemma_setup_known(puzzle, allowed, width, height, c, pm);
    assert forall|k: int| 0 <= k < table.actions.len() implies action_fits(#[trigger] table.actions[k]@, (width * height) as nat) by {
        assert(entries(table).len() == table.names.len());
        assert(entries(c.table).len() == c.table.names.len());
        assert(k < c.table.actions.len());
        assert(entries(table)[k] == entries(c.table)[k]);
        assert(entries(table)[k].1 == table.actions[k]@);
        assert(entries(c.table)[k].1 == c.table.actions[k]@);
        assert(action_fits(c.table.actions[k]@, c.init.len() as nat));
    }
    assert forall|k: int| 0 <= k < sol.len() implies c.sol@[k] == #[trigger] sol[k] by {
        assert(keys[c.sol@[k] as int] == ss[k]);
        assert(keys[sol[k] as int] == ss[k]);
    }
    assert(c.sol@ =~= sol);
    assert forall|j: int| 0 <= j < c.piece_num implies #[trigger] piece_orders(sol, width, c.piece_num as int, height)[j] < width by {
        assert(c.order_map@[j] < width);
    }
}

/// Sets a globe search up: the globe moves, both states as piece ids, and
/// the order of each piece in its row of the solved state (how many changes
/// of piece come before it in the row). `None` when a piece of the initial
/// state is not in the solved state, when the states are not `width *
/// height` pieces of an even number of types, when a move does not fit, or
/// when the sizes are beyond what the costs can count.
pub fn globe_setup(puzzle: &Puzzle, allowed_moves: &MoveTable, width: usize, height: usize) -> (r: Option<GlobeCtx>)
    requires
        allowed_moves.wf(),
    ensures
        r matches Some(c) ==> setup_result(*puzzle, *allowed_moves, width as int, height as int, c),
        r is None ==> forall|c: GlobeCtx| !setup_result(*puzzle, *allowed_moves, width as int, height as int, c),
        r matches Some(c0) ==> forall|c: GlobeCtx|
            #[trigger] setup_result(*puzzle, *allowed_moves, width as int, height as int, c) ==> c.init@ == c0.init@ && c.sol@
                == c0.sol@ && c.piece_num == c0.piece_num,
{
    let (piece_map, piece_list) = gen_piece_map(puzzle.solution_state.as_str());
    let table = create_globe_actions(allowed_moves);
    let init = match state_ids(puzzle.initial_state.as_str(), &piece_map) {
        Some(v) => v,
        None => {
            proof {
                assert forall|c: GlobeCtx| !setup_result(*puzzle, *allowed_moves, width as int, height as int, c) by {
                    if setup_result(*puzzle, *allowed_moves, width as int, height as int, c) {
                        lemma_setup_known(*puzzle, *allowed_moves, width as int, height as int, c, piece_map);
                    }
                }
            }
            return None;
        },
    };
    let sol = match state_ids(puzzle.solution_state.as_str(), &piece_map) {
        Some(v) => v,
        None => {
            proof {
                assert forall|c: GlobeCtx| !setup_result(*puzzle, *allowed_moves, width as int, height as int, c) by {
                    if setup_result(*puzzle, *allowed_moves, width as int, height as int, c) {
                        lemma_setup_known(*puzzle, *allowed_moves, width as int, height as int, c, piece_map);
                    }
                }
            }
            return None;
        },
    };
    let ghost keys = distinct_pieces(split_seq(puzzle.solution_state@, ';'));
    let n = piece_list.len();
    assert(piece_map.keys().len() == n);
    if !(1 <= width && width <= 1000 && 1 <= height && height <= 1000) {
            proof {
                assert forall|c: GlobeCtx| !setup_result(*puzzle, *allowed_moves, width as int, height as int, c) by {
                    if setup_result(*puzzle, *allowed_moves, width as int, height as int, c) {
                        lemma_setup_needs(*puzzle, *allowed_moves, width as int, height as int, c, table, piece_map, sol@);
                    }
                }
            }
        return None;
    }
    assert(width * height <= 1000000) by (nonlinear_arith)
        requires
            1 <= width <= 1000,
            1 <= height <= 1000,
    ;
    let wh = width * height;
    if init.len() != wh || sol.len() != wh || n < 2 || n % 2 != 0 {
            proof {
                assert forall|c: GlobeCtx| !setup_result(*puzzle, *allowed_moves, width as int, height as int, c) by {
                    if setup_result(*puzzle, *allowed_moves, width as int, height as int, c) {
                        lemma_setup_needs(*puzzle, *allowed_moves, width as int, height as int, c, table, piece_map, sol@);
                    }
                }
            }
        return None;
    }
    assert(width * width <= 1000000) by (nonlinear_arith)
        requires
            1 <= width <= 1000,
    ;
    assert(width * width * width <= 1000000000) by (nonlinear_arith)
        requires
            1 <= width <= 1000,
    ;
    assert(width * width * width * height <= 1000000000000) by (nonlinear_arith)
        requires
            1 <= width <= 1000,
            1 <= height <= 1000,
    ;
    if (width * width * width) as u64 * (height as u64) > 1000000000 {
            proof {
                assert forall|c: GlobeCtx| !setup_result(*puzzle, *allowed_moves, width as int, height as int, c) by {
                    if setup_result(*puzzle, *allowed_moves, width as int, height as int, c) {
                        lemma_setup_needs(*puzzle, *allowed_moves, width as int, height as int, c, table, piece_map, sol@);
                    }
                }
            }
        return None;
    }
    assert(width * width * width * height <= 1000000000);
    if !table_fits(&table, wh) {
            proof {
                assert forall|c: GlobeCtx| !setup_result(*puzzle, *allowed_moves, width as int, height as int, c) by {
                    if setup_result(*puzzle, *allowed_moves, width as int, height as int, c) {
                        lemma_setup_needs(*puzzle, *allowed_moves, width as int, height as int, c, table, piece_map, sol@);
                    }
                }
            }
        return None;
    }
    assert(values_below(init@, n as nat)) by {
        assert forall|i: int| 0 <= i < init.len() implies #[trigger] init@[i] < n by {
            assert(piece_map.maps(split_seq(puzzle.initial_state@, ';')[i], init@[i] as int));
        }
    }
    assert(values_below(sol@, n as nat)) by {
        assert forall|i: int| 0 <= i < sol.len() implies #[trigger] sol@[i] < n by {
            assert(piece_map.maps(split_seq(puzzle.solution_state@, ';')[i], sol@[i] as int));
        }
    }
    let order_map = match order_of_pieces(&sol, n, width, height) {
        Some(v) => v,
        None => {
            proof {
                assert forall|c: GlobeCtx| !setup_result(*puzzle, *allowed_moves, width as int, height as int, c) by {
                    if setup_result(*puzzle, *allowed_moves, width as int, height as int, c) {
                        lemma_setup_needs(*puzzle, *allowed_moves, width as int, height as int, c, table, piece_map, sol@);
                    }
                }
            }
            return None;
        },
    };
    let c = GlobeCtx { table, init, sol, piece_num: n, order_map };
    assert(ids_of(puzzle.initial_state@, keys, c.init@)) by {
        assert forall|k: int| 0 <= k < c.init@.len() implies #[trigger] c.init@[k] < keys.len() && keys[c.init@[k] as int]
            == split_seq(puzzle.initial_state@, ';')[k] by {
            assert(piece_map.maps(split_seq(puzzle.initial_state@, ';')[k], c.init@[k] as int));
        }
    }
    assert(ids_of(puzzle.solution_state@, keys, c.sol@)) by {
        assert forall|k: int| 0 <= k < c.sol@.len() implies #[trigger] c.sol@[k] < keys.len() && keys[c.sol@[k] as int]
            == split_seq(puzzle.solution_state@, ';')[k] by {
            assert(piece_map.maps(split_seq(puzzle.solution_state@, ';')[k], c.sol@[k] as int));
        }
    }
    proof {
        assert forall|c2: GlobeCtx| #[trigger] setup_result(*puzzle, *allowed_moves, width as int, height as int, c2) implies c2.init@
            == c.init@ && c2.sol@ == c.sol@ && c2.piece_num == c.piece_num by {
            lemma_ids_unique(puzzle.initial_state@, keys, c2.init@, c.init@);
            lemma_ids_unique(puzzle.solution_state@, keys, c2.sol@, c.sol@);
        }
    }
    Some(c)
}

pub(crate) fn table_fits(t: &ActionTable, n: usize) -> (b: bool)
    ensures
        b == t.fits(n as nat),
{
    let mut k: usize = 0;
    while k < t.actions.len()
        invariant
            k <= t.actions.len(),
            forall|j: int| 0 <= j < k ==> action_fits(#[trigger] t.actions[j]@, n as nat),
        decreases t.actions.len() - k,
    {
        let a = &t.actions[k];
        let mut i: usize = 0;
        while i < a.len()
            invariant
                i <= a.len(),
                k < t.actions.len(),
                *a == t.actions[k as int],
                forall|j: int| 0 <= j < i ==> #[trigger] a@[j].0 < n && a@[j].1 < n,
            decreases a.len() - i,
        {
            if a[i].0 >= n || a[i].1 >= n {
                assert(!action_fits(t.actions[k as int]@, n as nat)) by {
                    assert(!(a@[i as int].0 < n && a@[i as int].1 < n));
                }
                return false;
            }
            i = i + 1;
        }
        k = k + 1;
    }
    true
}

/// How many times the piece changes along the row that starts at `base`,
/// from its first cell up to cell `w`.
pub open spec fn change_count(sol: Seq<usize>, base: int, w: int) -> int
    decreases w,
{
    if w <= 0 {
        0
    } else {
        change_count(sol, base, w - 1) + if sol[base + w] != sol[base + w - 1] {
            1int
        } else {
            0int
        }
    }
}

/// `m` after giving, cell by cell along the first `w` cells of the row that
/// starts at `base`, the piece of the cell the change count up to it.
pub open spec fn row_order_update(m: Seq<i32>, sol: Seq<usize>, base: int, w: int) -> Seq<i32>
    decreases w,
{
    if w <= 0 {
        m
    } else {
        row_order_update(m, sol, base, w - 1).update(sol[base + w - 1] as int, change_count(sol, base, w - 1) as i32)
    }
}

/// The order of each of the `n` pieces after the first `h` rows: `width`
/// for a piece not met yet, else the change count at the last cell where
/// it was met.
pub open spec fn piece_orders(sol: Seq<usize>, width: int, n: int, h: int) -> Seq<i32>
    decreases h,
{
    if h <= 0 {
        Seq::new(n as nat, |i: int| width as i32)
    } else {
        row_order_update(piece_orders(sol, width, n, h - 1), sol, (h - 1) * width, width)
    }
}

/// The order of each piece in its row of the solved state
/// (`piece_orders`): 0 for the pieces equal to the first of the row,
/// counting up at each change of piece along the row, the last row where
/// the piece is met deciding. `None` when some piece does not appear.
fn order_of_pieces(sol: &Vec<usize>, n: usize, width: usize, height: usize) -> (r: Option<Vec<i32>>)
    requires
        sol.len() == width * height,
        1 <= width <= 1000,
        values_below(sol@, n as nat),
    ensures
        r is Some <==> forall|j: int| 0 <= j < n ==> #[trigger] piece_orders(sol@, width as int, n as int, height as int)[j]
            < width,
        r matches Some(v) ==> v@ == piece_orders(sol@, width as int, n as int, height as int),
        r matches Some(v) ==> v.len() == n && forall|j: int| 0 <= j < v.len() ==> 0 <= #[trigger] v@[j]
            < width,
{
    let mut order_map: Vec<i32> = Vec::new();
    let mut j: usize = 0;
    while j < n
        invariant
            j <= n,
            order_map.len() == j,
            width <= 1000,
            forall|t: int| 0 <= t < j ==> #[trigger] order_map@[t] == width,
        decreases n - j,
    {
        order_map.push(width as i32);
        j = j + 1;
    }
    assert(order_map@ =~= piece_orders(sol@, width as int, n as int, 0));
    let mut h: usize = 0;
    while h < height
        invariant
            h <= height,
            sol.len() == width * height,
            1 <= width <= 1000,
            values_below(sol@, n as nat),
            order_map.len() == n,
            forall|t: int| 0 <= t < n ==> 0 <= #[trigger] order_map@[t] <= width,
            order_map@ == piece_orders(sol@, width as int, n as int, h as int),
        decreases height - h,
    {
        proof {
            assert(h * width + width <= width * height) by (nonlinear_arith)
                requires
                    h < height,
            ;
        }
        let base = h * width;
        let ghost m0 = order_map@;
        let mut prev = sol[base];
        let mut idx: i32 = 0;
        let mut w: usize = 0;
        while w < width
            invariant
                w <= width <= 1000,
                base + width <= sol.len(),
                values_below(sol@, n as nat),
                order_map.len() == n,
                w == 0 ==> idx == 0 && prev == sol@[base as int],
                w > 0 ==> 0 <= idx <= w - 1,
                w > 0 ==> idx == change_count(sol@, base as int, w - 1) && prev == sol@[base + w - 1],
                forall|t: int| 0 <= t < n ==> 0 <= #[trigger] order_map@[t] <= width,
                order_map@ == row_order_update(m0, sol@, base as int, w as int),
            decreases width - w,
        {
            let x = sol[base + w];
            if x != prev {
                prev = x;
                idx = idx + 1;
            }
            assert(sol@[(base + w) as int] < n);
            assert(idx == change_count(sol@, base as int, w as int));
            order_map.set(x, idx);
            w = w + 1;
        }
        proof {
            assert(base as int == ((h + 1) - 1) * width);
        }
        h = h + 1;
    }
    let mut j: usize = 0;
    while j < n
        invariant
            j <= n,
            order_map.len() == n,
            forall|t: int| 0 <= t < n ==> 0 <= #[trigger] order_map@[t] <= width,
            forall|t: int| 0 <= t < j ==> #[trigger] order_map@[t] < width,
            order_map@ == piece_orders(sol@, width as int, n as int, height as int),
            1 <= width <= 1000,
        decreases n - j,
    {
        if order_map[j] >= width as i32 {
            assert(!(piece_orders(sol@, width as int, n as int, height as int)[j as int] < width));
            return None;
        }
        j = j + 1;
    }
    Some(order_map)
}

} // verus!
