//! The second phase of the globe solver: with every piece on its side, the
//! inversions left in the rows are removed greedily, one group of moves at a
//! time, choosing for each pair of mirrored rows which adjacent swap to make
//! and the column where the swaps cost the fewest row turns.
use vstd::prelude::*;
use crate::globe::{ctx_ok, globe_setup, setup_result, GlobeCtx, Puzzle};
use crate::globe_beam::{find_move, move_names, path_text};
use crate::globe_first::{first_sizes, lemma_apply_path_concat, state_ok, step_move};
use crate::globe_sim::{rev_sim_all, rev_sim_all_spec, row_ok};
use crate::moves::{layer_move, turn};
use crate::perm::{all_known, apply_pairs, apply_path, values_below, ActionTable, MoveTable};
use crate::text::{chars_of, join_seq, split_chars, split_seq, string_of, views};

verus! {

/// The orders of the pieces of row `h`.
pub open spec fn row_orders(state: Seq<usize>, order: Seq<i32>, width: int, h: int) -> Seq<i32> {
    Seq::new(width as nat, |w: int| order[state[h * width + w] as int])
}

/// Every row's inversion estimate is 0.
pub open spec fn inversions_zero(state: Seq<usize>, order: Seq<i32>, width: int, height: int) -> bool {
    forall|h: int| 0 <= h < height ==> rev_sim_all_spec(#[trigger] row_orders(state, order, width, h), width) == 0
}

/// The swaps to aim at in rows `h` and its mirror, from their inversion
/// estimates `inv0`, `inv1` and whether each has two equal neighbours
/// (`e0`, `e1`): -1 lowers the estimate, 0 keeps it (swapping equal
/// pieces), 1 raises it. `None` when the parities differ and the row with
/// no inversion has no equal neighbours to swap.
pub open spec fn pair_rule(inv0: int, inv1: int, e0: bool, e1: bool) -> Option<(int, int)> {
    if inv0 % 2 == inv1 % 2 {
        if inv0 == 0 {
            Some((if e0 { 0 } else { 1 }, -1))
        } else if inv1 == 0 {
            Some((-1, if e1 { 0 } else { 1 }))
        } else {
            Some((-1, -1))
        }
    } else {
        if inv0 == 0 {
            if e0 { Some((0, -1)) } else { None }
        } else if inv1 == 0 {
            if e1 { Some((-1, 0)) } else { None }
        } else if inv0 < inv1 {
            if e0 { Some((0, -1)) } else if e1 { Some((-1, 0)) } else { Some((-1, -1)) }
        } else {
            if e1 { Some((-1, 0)) } else if e0 { Some((0, -1)) } else { Some((-1, -1)) }
        }
    }
}

/// The swaps to aim at in a pair of mirrored rows.
pub fn pair_target(inv0: i32, inv1: i32, e0: bool, e1: bool) -> (r: Option<(i32, i32)>)
    requires
        inv0 >= 0,
        inv1 >= 0,
    ensures
        match r {
            Some((a, b)) => pair_rule(inv0 as int, inv1 as int, e0, e1) == Some((a as int, b as int)),
            None => pair_rule(inv0 as int, inv1 as int, e0, e1) is None,
        },
{
    if inv0 % 2 == inv1 % 2 {
        if inv0 == 0 {
            Some((if e0 { 0 } else { 1 }, -1))
        } else if inv1 == 0 {
            Some((-1, if e1 { 0 } else { 1 }))
        } else {
            Some((-1, -1))
        }
    } else {
        if inv0 == 0 {
            if e0 { Some((0, -1)) } else { None }
        } else if inv1 == 0 {
            if e1 { Some((-1, 0)) } else { None }
        } else if inv0 < inv1 {
            if e0 { Some((0, -1)) } else if e1 { Some((-1, 0)) } else { Some((-1, -1)) }
        } else {
            if e1 { Some((-1, 0)) } else if e0 { Some((0, -1)) } else { Some((-1, -1)) }
        }
    }
}

/// The shorter way round a ring of `w` cells from `a` to `b`.
pub open spec fn ring_dist(a: int, b: int, w: int) -> int {
    let x = (b + w - a) % w;
    let y = (a + w - b) % w;
    if x <= y { x } else { y }
}

fn row_orders_vec(state: &Vec<usize>, order: &Vec<i32>, width: usize, h: usize, Ghost(height): Ghost<int>) -> (r: Vec<i32>)
    requires
        state.len() == width * height,
        h < height,
        1 <= width <= 1000,
        forall|k: int| 0 <= k < state.len() ==> #[trigger] state[k] < order.len(),
    ensures
        r@ == row_orders(state@, order@, width as int, h as int),
{
    let mut v: Vec<i32> = Vec::new();
    let mut w: usize = 0;
    while w < width
        invariant
            w <= width,
            state.len() == width * height,
            h < height,
            1 <= width <= 1000,
            forall|k: int| 0 <= k < state.len() ==> #[trigger] state[k] < order.len(),
            v@ == row_orders(state@, order@, width as int, h as int).take(w as int),
        decreases width - w,
    {
        assert(h * width + w < width * height) by (nonlinear_arith)
            requires
                h < height,
                w < width,
        ;
        v.push(order[state[h * width + w]]);
        assert(v@ =~= row_orders(state@, order@, width as int, h as int).take(w + 1));
        w = w + 1;
    }
    assert(v@ =~= row_orders(state@, order@, width as int, h as int));
    v
}

/// Row `h` of `state` is row `h` of `sol` turned by `w` cells: the piece of
/// `sol` at column `i` is at column `(i + w) % width` of `state`.
pub open spec fn row_is_turned<T>(state: Seq<T>, sol: Seq<T>, width: int, h: int, w: int) -> bool {
    forall|i: int| 0 <= i < width ==> #[trigger] sol[h * width + i] == state[h * width + (i + w) % width]
}

/// Whether row `h` of `state` is row `h` of `sol` turned by `w` cells.
fn row_turned(state: &Vec<usize>, sol: &Vec<usize>, width: usize, h: usize, w: usize, Ghost(height): Ghost<int>) -> (ok: bool)
    requires
        state.len() == width * height,
        sol.len() == state.len(),
        h < height,
        w < width,
        1 <= width <= 1000,
    ensures
        ok == row_is_turned(state@, sol@, width as int, h as int, w as int),
{
    let mut i: usize = 0;
    while i < width
        invariant
            i <= width,
            state.len() == width * height,
            sol.len() == state.len(),
            h < height,
            w < width <= 1000,
            forall|k: int| 0 <= k < i ==> #[trigger] sol@[h * width + k] == state@[h * width + (k + w) % (width as int)],
        decreases width - i,
    {
        let j = (i + w) % width;
        assert(h * width + i < width * height && h * width + j < width * height) by (nonlinear_arith)
            requires
                h < height,
                i < width,
                j < width,
        ;
        if sol[h * width + i] != state[h * width + j] {
            return false;
        }
        i = i + 1;
    }
    assert(row_is_turned(state@, sol@, width as int, h as int, w as int));
    true
}

/// The inversion estimate of each row, the change of estimate that swapping
/// each piece with its left neighbour makes, and which changes (-1, 0, 1)
/// some swap of each row makes (0 also when two neighbours are equal).
/// `None` when a swap changes an estimate by more than one.
fn measure(c: &GlobeCtx, state: &Vec<usize>, width: usize, height: usize) -> (r: Option<(Vec<i32>, Vec<i32>, Vec<Vec<bool>>)>)
    requires
        first_sizes(*c, width as int, height as int),
        state_ok(state@, *c),
    ensures
        r matches Some((inv_num, inv_chg, exist)) ==> {
            &&& inv_num.len() == height
            &&& inv_chg.len() == width * height
            &&& exist.len() == height
            &&& forall|h: int| 0 <= h < height ==> #[trigger] exist@[h].len() == 3
            &&& forall|h: int| 0 <= h < height ==> #[trigger] inv_num@[h] == rev_sim_all_spec(row_orders(state@, c.order_map@, width as int, h), width as int)
            &&& forall|h: int| 0 <= h < height ==> 0 <= #[trigger] inv_num@[h] <= 1000000
            &&& forall|k: int| 0 <= k < inv_chg.len() ==> -1 <= #[trigger] inv_chg@[k] <= 1
        },
{
    let mut inv_num: Vec<i32> = Vec::new();
    let mut inv_chg: Vec<i32> = Vec::new();
    let mut exist: Vec<Vec<bool>> = Vec::new();
    let mut h: usize = 0;
    while h < height
        invariant
            h <= height,
            first_sizes(*c, width as int, height as int),
            state_ok(state@, *c),
            inv_num.len() == h,
            inv_chg.len() == h * width,
            exist.len() == h,
            forall|g: int| 0 <= g < h ==> #[trigger] exist@[g].len() == 3,
            forall|g: int| 0 <= g < h ==> #[trigger] inv_num@[g] == rev_sim_all_spec(row_orders(state@, c.order_map@, width as int, g), width as int),
            forall|g: int| 0 <= g < h ==> 0 <= #[trigger] inv_num@[g] <= 1000000,
            forall|k: int| 0 <= k < inv_chg.len() ==> -1 <= #[trigger] inv_chg@[k] <= 1,
        decreases height - h,
    {
        assert(forall|k: int| 0 <= k < state.len() ==> #[trigger] state@[k] < c.order_map.len());
        let mut v = row_orders_vec(state, &c.order_map, width, h, Ghost(height as int));
        assert(row_ok(v@, width as int)) by {
            assert forall|i: int| 0 <= i < v.len() implies 0 <= #[trigger] v@[i] < width by {
                assert(v@[i] == c.order_map@[state@[h * width + i] as int]);
                assert(h * width + i < width * height) by (nonlinear_arith)
                    requires
                        h < height,
                        i < width,
                ;
            }
        }
        proof {
            crate::globe_cost::lemma_row_estimate_bound(v@, width as int);
        }
        let base = rev_sim_all(&v, width);
        let mut row_exist: Vec<bool> = vec![false, false, false];
        let mut i: usize = 0;
        while i < width
            invariant
                i <= width,
                h < height,
                first_sizes(*c, width as int, height as int),
                v.len() == width,
                row_ok(v@, width as int),
                0 <= base <= 1000000,
                base == rev_sim_all_spec(row_orders(state@, c.order_map@, width as int, h as int), width as int),
                state_ok(state@, *c),
                inv_num.len() == h,
                exist.len() == h,
                forall|g: int| 0 <= g < h ==> #[trigger] exist@[g].len() == 3,
                forall|g: int| 0 <= g < h ==> #[trigger] inv_num@[g] == rev_sim_all_spec(row_orders(state@, c.order_map@, width as int, g), width as int),
                forall|g: int| 0 <= g < h ==> 0 <= #[trigger] inv_num@[g] <= 1000000,
                row_exist.len() == 3,
                inv_chg.len() == h * width + i,
                forall|k: int| 0 <= k < inv_chg.len() ==> -1 <= #[trigger] inv_chg@[k] <= 1,
            decreases width - i,
        {
            let j = (i + width - 1) % width;
            if v[i] == v[j] {
                row_exist.set(1, true);
                inv_chg.push(0);
            } else {
                let a = v[i];
                let b = v[j];
                v.set(i, b);
                v.set(j, a);
                assert(row_ok(v@, width as int)) by {
                    assert forall|t: int| 0 <= t < v.len() implies 0 <= #[trigger] v@[t] < width by {}
                }
                proof {
                    crate::globe_cost::lemma_row_estimate_bound(v@, width as int);
                }
                let r = rev_sim_all(&v, width);
                let d = r - base;
                if d < -1 || d > 1 {
                    return None;
                }
                inv_chg.push(d);
                row_exist.set((d + 1) as usize, true);
                v.set(i, a);
                v.set(j, b);
                assert(row_ok(v@, width as int)) by {
                    assert forall|t: int| 0 <= t < v.len() implies 0 <= #[trigger] v@[t] < width by {}
                }
            }
            i = i + 1;
        }
        inv_num.push(base);
        exist.push(row_exist);
        proof {
            assert(h * width + width == (h + 1) * width) by (nonlinear_arith);
        }
        h = h + 1;
    }
    assert(height * width == width * height) by (nonlinear_arith);
    Some((inv_num, inv_chg, exist))
}

/// The first turn `w2` from `w` up to `width` by which row `h` of `state`
/// is row `h` of `sol` turned (`row_is_turned`).
pub open spec fn first_turn<T>(state: Seq<T>, sol: Seq<T>, width: int, h: int, w: int) -> Option<int>
    decreases width - w,
{
    if w < 0 || w >= width {
        None
    } else if row_is_turned(state, sol, width, h, w) {
        Some(w)
    } else {
        first_turn(state, sol, width, h, w + 1)
    }
}

/// The index of the first move of `t` named `name`.
pub open spec fn first_index(t: ActionTable, name: Seq<char>) -> usize {
    (choose|k: int| t.is_first(name, k)) as usize
}

/// The moves that bring row `h` of `state` to its place in `sol`: `w`
/// turns `r<h>` when the row is `sol`'s turned by `w <= width / 2`, else
/// `width - w` turns `-r<h>`; none when no turn fits.
pub open spec fn row_align(t: ActionTable, state: Seq<usize>, sol: Seq<usize>, width: int, h: int) -> Seq<usize> {
    match first_turn(state, sol, width, h, 0) {
        Some(w) => if w <= width / 2 {
            Seq::new(w as nat, |i: int| first_index(t, layer_move(false, 'r', h as nat)))
        } else {
            Seq::new((width - w) as nat, |i: int| first_index(t, layer_move(true, 'r', h as nat)))
        },
        None => Seq::empty(),
    }
}

/// The row alignments of rows `h` to `height - 1`, each from the state the
/// ones before leave.
pub open spec fn align_path(t: ActionTable, state: Seq<usize>, sol: Seq<usize>, width: int, height: int, h: int) -> Seq<usize>
    decreases height - h,
{
    if h < 0 || h >= height {
        Seq::empty()
    } else {
        let a = row_align(t, state, sol, width, h);
        a + align_path(t, apply_path(t, state, a), sol, width, height, h + 1)
    }
}

proof fn lemma_first_index(t: ActionTable, name: Seq<char>, k: int)
    requires
        t.is_first(name, k),
    ensures
        first_index(t, name) == k,
{
    let c = choose|c: int| t.is_first(name, c);
    assert(t.is_first(name, c));
    if c < k {
        assert(t.names[c]@ != name);
    } else if c > k {
        assert(t.names[k]@ != name);
    }
}

proof fn lemma_first_turn_from(state: Seq<usize>, sol: Seq<usize>, width: int, h: int, a: int, b: int)
    requires
        0 <= a <= b,
        forall|w: int| a <= w < b ==> !#[trigger] row_is_turned(state, sol, width, h, w),
    ensures
        first_turn(state, sol, width, h, a) == first_turn(state, sol, width, h, b),
    decreases b - a,
{
    if a < b {
        assert(!row_is_turned(state, sol, width, h, a));
        lemma_first_turn_from(state, sol, width, h, a + 1, b);
    }
}

/// Moves of the table from `start`: a prefix that leaves no row with
/// inversions, then exactly the row alignments (`align_path`) of the state
/// it reaches.
pub open spec fn greedy_found(c: GlobeCtx, start: Seq<usize>, p: Seq<usize>, width: int, height: int) -> bool {
    &&& forall|k: int| 0 <= k < p.len() ==> #[trigger] p[k] < c.table.actions.len()
    &&& exists|k: int| 0 <= k <= p.len() && inversions_zero(#[trigger] apply_path(c.table, start, p.take(k)), c.order_map@, width, height)
        && p.skip(k) == align_path(c.table, apply_path(c.table, start, p.take(k)), c.sol@, width, height, 0)
}

/// Moves of the table made so far from `start`, reaching `cur`.
pub open spec fn tracked_moves(c: GlobeCtx, start: Seq<usize>, cur: Seq<usize>, sol: Seq<usize>) -> bool {
    &&& state_ok(cur, c)
    &&& cur == apply_path(c.table, start, sol)
    &&& forall|k: int| 0 <= k < sol.len() ==> #[trigger] sol[k] < c.table.actions.len()
}

/// `p` are the first moves of `t` with the names `names`, one for one.
pub open spec fn first_moves(t: ActionTable, p: Seq<usize>, names: Seq<Seq<char>>) -> bool {
    &&& p.len() == names.len()
    &&& forall|k: int| 0 <= k < p.len() ==> t.is_first(#[trigger] names[k], p[k] as int)
}

proof fn lemma_first_moves_push(t: ActionTable, p: Seq<usize>, names: Seq<Seq<char>>, a: usize, name: Seq<char>)
    requires
        first_moves(t, p, names),
        t.is_first(name, a as int),
    ensures
        first_moves(t, p.push(a), names.push(name)),
{
    assert forall|k: int| 0 <= k < p.len() + 1 implies t.is_first(#[trigger] names.push(name)[k], p.push(a)[k] as int) by {
        if k < p.len() {
            assert(names.push(name)[k] == names[k]);
            assert(p.push(a)[k] == p[k]);
        }
    }
}

proof fn lemma_first_moves_known(t: ActionTable, p: Seq<usize>, names: Seq<Seq<char>>)
    requires
        first_moves(t, p, names),
    ensures
        all_known(t, names),
{
    assert forall|k: int| 0 <= k < names.len() implies t.knows(#[trigger] names[k]) by {
        assert(t.is_first(names[k], p[k] as int));
        assert(t.names[p[k] as int]@ == names[k]);
    }
}

/// Makes the first move named `name`; `false` (nothing changed) when the
/// table has no such move.
fn push_named(c: &GlobeCtx, cur: &mut Vec<usize>, sol: &mut Vec<usize>, name: String, Ghost(start): Ghost<Seq<usize>>) -> (ok: bool)
    requires
        c.table.wf(),
        c.table.fits(c.init.len() as nat),
        tracked_moves(*c, start, old(cur)@, old(sol)@),
    ensures
        tracked_moves(*c, start, final(cur)@, final(sol)@),
        final(sol)@.len() >= old(sol)@.len(),
        final(sol)@.take(old(sol)@.len() as int) == old(sol)@,
        ok <==> c.table.knows(name@),
        ok ==> final(sol)@ == old(sol)@.push(final(sol)@.last()) && c.table.is_first(name@, final(sol)@.last() as int),
        !ok ==> final(sol)@ == old(sol)@ && final(cur)@ == old(cur)@,
{
    match find_move(&c.table, &name) {
        Some(a) => {
            let ghost before = sol@;
            step_move(c, cur, sol, a, Ghost(start));
            assert(sol@.take(before.len() as int) =~= before);
            assert forall|k: int| 0 <= k < sol@.len() implies #[trigger] sol@[k] < c.table.actions.len() by {
                if k < before.len() {
                    assert(sol@[k] == before[k]);
                }
            }
            true
        },
        None => {
            assert(sol@.take(sol@.len() as int) =~= sol@);
            false
        },
    }
}

/// Makes the first move named `[-]<side><layer>` (`-` when `neg`) `times`
/// times; `false` (nothing changed) when `times > 0` and the table has no
/// such move.
fn push_named_times(c: &GlobeCtx, cur: &mut Vec<usize>, sol: &mut Vec<usize>, neg: bool, side: char, layer: usize, times: usize, Ghost(start): Ghost<Seq<usize>>) -> (ok: bool)
    requires
        c.table.wf(),
        c.table.fits(c.init.len() as nat),
        tracked_moves(*c, start, old(cur)@, old(sol)@),
    ensures
        tracked_moves(*c, start, final(cur)@, final(sol)@),
        final(sol)@.len() >= old(sol)@.len(),
        final(sol)@.take(old(sol)@.len() as int) == old(sol)@,
        ok <==> times == 0 || c.table.knows(layer_move(neg, side, layer as nat)),
        ok ==> first_moves(
            c.table,
            final(sol)@.skip(old(sol)@.len() as int),
            Seq::new(times as nat, |i: int| layer_move(neg, side, layer as nat)),
        ),
        !ok ==> final(sol)@ == old(sol)@,
{
    let ghost s0 = sol@;
    let ghost name = layer_move(neg, side, layer as nat);
    assert(sol@.take(s0.len() as int) =~= s0);
    assert(sol@.skip(s0.len() as int) =~= Seq::<usize>::empty());
    assert(Seq::new(0, |i: int| name) =~= Seq::<Seq<char>>::empty());
    let mut t: usize = 0;
    while t < times
        invariant
            t <= times,
            c.table.wf(),
            c.table.fits(c.init.len() as nat),
            s0 == old(sol)@,
            name == layer_move(neg, side, layer as nat),
            tracked_moves(*c, start, cur@, sol@),
            sol@.len() >= s0.len(),
            sol@.take(s0.len() as int) == s0,
            t > 0 ==> c.table.knows(name),
            t == 0 ==> sol@ == s0,
            first_moves(c.table, sol@.skip(s0.len() as int), Seq::new(t as nat, |i: int| name)),
        decreases times - t,
    {
        let ghost before = sol@;
        if !push_named(c, cur, sol, turn(neg, side, layer), Ghost(start)) {
            return false;
        }
        proof {
            assert(sol@.take(s0.len() as int) =~= sol@.take(before.len() as int).take(s0.len() as int));
            assert(sol@.skip(s0.len() as int) =~= before.skip(s0.len() as int).push(sol@.last()));
            assert(Seq::new((t + 1) as nat, |i: int| name) =~= Seq::new(t as nat, |i: int| name).push(name));
            lemma_first_moves_push(c.table, before.skip(s0.len() as int), Seq::new(t as nat, |i: int| name), sol@.last(), name);
        }
        t = t + 1;
    }
    true
}

/// A turn of a row below `height` (`r<h>` or `-r<h>`) or of a column below
/// `width` (`f<w>`).
pub open spec fn grid_turn(n: Seq<char>, width: int, height: int) -> bool {
    ||| exists|h: nat| h < height && (n == #[trigger] layer_move(false, 'r', h) || n == layer_move(true, 'r', h))
    ||| exists|w: nat| w < width && n == #[trigger] layer_move(false, 'f', w)
}

/// Every move of `p` is a row or column turn (`grid_turn`).
pub open spec fn grid_turns(t: ActionTable, p: Seq<usize>, width: int, height: int) -> bool {
    forall|k: int| 0 <= k < p.len() ==> #[trigger] grid_turn(t.names[p[k] as int]@, width, height)
}

proof fn lemma_row_turn(neg: bool, h: nat, width: int, height: int)
    requires
        h < height,
    ensures
        grid_turn(layer_move(neg, 'r', h), width, height),
{
    assert(layer_move(false, 'r', h) == layer_move(false, 'r', h));
}

proof fn lemma_col_turn(w: nat, width: int, height: int)
    requires
        w < width,
    ensures
        grid_turn(layer_move(false, 'f', w), width, height),
{
    assert(layer_move(false, 'f', w) == layer_move(false, 'f', w));
}

/// Moves added to `before` that are the first moves with the names
/// `names`, all row or column turns, keep `grid_turns`.
proof fn lemma_grid_extend(t: ActionTable, before: Seq<usize>, after: Seq<usize>, names: Seq<Seq<char>>, width: int, height: int)
    requires
        grid_turns(t, before, width, height),
        after.len() >= before.len(),
        after.take(before.len() as int) == before,
        first_moves(t, after.skip(before.len() as int), names),
        forall|k: int| 0 <= k < names.len() ==> #[trigger] grid_turn(names[k], width, height),
    ensures
        grid_turns(t, after, width, height),
{
    assert forall|k: int| 0 <= k < after.len() implies #[trigger] grid_turn(t.names[after[k] as int]@, width, height) by {
        if k < before.len() {
            assert(after[k] == after.take(before.len() as int)[k]);
        } else {
            let j = k - before.len();
            assert(after.skip(before.len() as int)[j] == after[k]);
            assert(t.is_first(names[j], after[k] as int));
            assert(grid_turn(names[j], width, height));
        }
    }
}

proof fn lemma_grid_push(t: ActionTable, before: Seq<usize>, after: Seq<usize>, name: Seq<char>, width: int, height: int)
    requires
        grid_turns(t, before, width, height),
        after == before.push(after.last()),
        t.is_first(name, after.last() as int),
        grid_turn(name, width, height),
    ensures
        grid_turns(t, after, width, height),
{
    assert forall|k: int| 0 <= k < after.len() implies #[trigger] grid_turn(t.names[after[k] as int]@, width, height) by {
        if k < before.len() {
            assert(after[k] == before[k]);
        }
    }
}

proof fn lemma_grid_same(neg: bool, h: nat, names: Seq<Seq<char>>, width: int, height: int)
    requires
        h < height,
        forall|k: int| 0 <= k < names.len() ==> #[trigger] names[k] == layer_move(neg, 'r', h),
    ensures
        forall|k: int| 0 <= k < names.len() ==> #[trigger] grid_turn(names[k], width, height),
{
    lemma_row_turn(neg, h, width, height);
}

proof fn lemma_grid_mirror(need: Seq<bool>, height: int, neg: bool, n: int, width: int)
    requires
        0 <= n <= height,
    ensures
        forall|k: int| 0 <= k < mirror_names(need, height, neg, n).len() ==> #[trigger] grid_turn(
            mirror_names(need, height, neg, n)[k],
            width,
            height,
        ),
    decreases n,
{
    if n > 0 {
        lemma_grid_mirror(need, height, neg, n - 1, width);
        lemma_row_turn(neg, (height - 1 - (n - 1)) as nat, width, height);
        let a = mirror_names(need, height, neg, n - 1);
        let b = mirror_names(need, height, neg, n);
        assert forall|k: int| 0 <= k < b.len() implies #[trigger] grid_turn(b[k], width, height) by {
            if k < a.len() {
                assert(b[k] == a[k]);
            }
        }
    }
}

/// The inversions are removed greedily from `start`, at most 100000 rounds.
/// Each round measures the rows; when no row has inversions left, each row
/// is turned the shorter way to its solved position (when some turn gives
/// it) and the moves are done. Otherwise the swaps to make in each pair of
/// mirrored rows that has inversions are chosen by `pair_rule`, the column
/// where the rows need the fewest turns to bring such swaps is found, the
/// rows are turned there and the swap group (`f`, mirror rows back, `f`,
/// mirror rows twice forward, `f` at the far side, mirror rows back, `f`)
/// is made. `None` when a rule finds no swap, a move is missing, or the
/// rounds run out.
pub fn resolve_ctx(c: &GlobeCtx, start: &Vec<usize>, width: usize, height: usize) -> (r: Option<Vec<usize>>)
    requires
        first_sizes(*c, width as int, height as int),
        state_ok(start@, *c),
    ensures
        r matches Some(p) ==> greedy_found(*c, start@, p@, width as int, height as int),
        r matches Some(p) ==> grid_turns(c.table, p@, width as int, height as int),
{
    let ghost st = start@;
    let mut cur = start.clone();
    assert(cur@ =~= st);
    let mut sol: Vec<usize> = Vec::new();
    assert(apply_path(c.table, st, sol@) == st);
    assert(grid_turns(c.table, sol@, width as int, height as int));
    let hh = height / 2;
    let mut round: usize = 0;
    while round < 100000
        invariant
            st == start@,
            first_sizes(*c, width as int, height as int),
            hh == height / 2,
            tracked_moves(*c, st, cur@, sol@),
            grid_turns(c.table, sol@, width as int, height as int),
        decreases 100000 - round,
    {
        let (inv_num, inv_chg, exist) = match measure(c, &cur, width, height) {
            Some(m) => m,
            None => {
                return None;
            },
        };
        let mut all_zero = true;
        let mut h: usize = 0;
        while h < height
            invariant
                h <= height,
                inv_num.len() == height,
                all_zero == forall|g: int| 0 <= g < h ==> #[trigger] inv_num@[g] == 0,
            decreases height - h,
        {
            if inv_num[h] != 0 {
                all_zero = false;
            }
            h = h + 1;
        }
        if all_zero {
            let ghost k = sol.len() as int;
            let ghost zero_state = cur@;
            let ghost t = c.table;
            let ghost tsol = c.sol@;
            assert(inversions_zero(zero_state, c.order_map@, width as int, height as int)) by {
                assert forall|g: int| 0 <= g < height implies rev_sim_all_spec(#[trigger] row_orders(zero_state, c.order_map@, width as int, g), width as int) == 0 by {
                    assert(inv_num@[g] == 0);
                }
            }
            let ghost s0 = sol@;
            assert(sol@.take(k) =~= s0);
            assert(s0 + align_path(t, zero_state, tsol, width as int, height as int, 0) =~= sol@ + align_path(
                t,
                cur@,
                tsol,
                width as int,
                height as int,
                0,
            ));
            let mut h: usize = 0;
            while h < height
                invariant
                    h <= height,
                    t == c.table,
                    tsol == c.sol@,
                    first_sizes(*c, width as int, height as int),
                    tracked_moves(*c, st, cur@, sol@),
                    grid_turns(c.table, sol@, width as int, height as int),
                    sol@.len() >= k,
                    k == s0.len(),
                    sol@.take(k) == s0,
                    zero_state == apply_path(c.table, st, s0),
                    inversions_zero(zero_state, c.order_map@, width as int, height as int),
                    s0 + align_path(t, zero_state, tsol, width as int, height as int, 0) == sol@ + align_path(
                        t,
                        cur@,
                        tsol,
                        width as int,
                        height as int,
                        h as int,
                    ),
                decreases height - h,
            {
                let ghost cb = cur@;
                let ghost sb = sol@;
                let mut w: usize = 0;
                let mut done = false;
                while w < width && !done
                    invariant
                        w <= width,
                        h < height,
                        t == c.table,
                        tsol == c.sol@,
                        first_sizes(*c, width as int, height as int),
                        tracked_moves(*c, st, cur@, sol@),
                        grid_turns(c.table, sol@, width as int, height as int),
                        sol@.len() >= sb.len(),
                        sol@.take(sb.len() as int) == sb,
                        cb == apply_path(c.table, st, sb),
                        !done ==> sol@ == sb && cur@ == cb && first_turn(cb, tsol, width as int, h as int, 0)
                            == first_turn(cb, tsol, width as int, h as int, w as int),
                        done ==> sol@ == sb + row_align(t, cb, tsol, width as int, h as int) && cur@ == apply_path(
                            t,
                            cb,
                            row_align(t, cb, tsol, width as int, h as int),
                        ),
                    decreases width - w + (if done { 0int } else { 1int }),
                {
                    if row_turned(&cur, &c.sol, width, h, w, Ghost(height as int)) {
                        let ghost before = sol@;
                        let neg = w > width / 2;
                        let times = if w <= width / 2 { w } else { width - w };
                        let ok = push_named_times(c, &mut cur, &mut sol, neg, 'r', h, times, Ghost(st));
                        assert(sol@.take(sb.len() as int) =~= sol@.take(before.len() as int).take(sb.len() as int));
                        if !ok {
                            return None;
                        }
                        proof {
                            let name = layer_move(neg, 'r', h as nat);
                            let names = Seq::new(times as nat, |i: int| name);
                            let added = sol@.skip(sb.len() as int);
                            let ra = row_align(t, cb, tsol, width as int, h as int);
                            assert(first_turn(cb, tsol, width as int, h as int, w as int) == Some(w as int));
                            assert forall|i: int| 0 <= i < added.len() implies added[i] == ra[i] by {
                                assert(t.is_first(names[i], added[i] as int));
                                lemma_first_index(t, name, added[i] as int);
                            }
                            assert(added =~= ra);
                            assert(sol@ =~= sb + added);
                            lemma_apply_path_concat(t, st, sb, added);
                            lemma_grid_same(neg, h as nat, names, width as int, height as int);
                            lemma_grid_extend(c.table, before, sol@, names, width as int, height as int);
                        }
                        done = true;
                    } else {
                        proof {
                            lemma_first_turn_from(cb, tsol, width as int, h as int, w as int, w + 1);
                        }
                        w = w + 1;
                    }
                }
                proof {
                    if !done {
                        assert(first_turn(cb, tsol, width as int, h as int, w as int) is None);
                        assert(row_align(t, cb, tsol, width as int, h as int) =~= Seq::<usize>::empty());
                        assert(sb + Seq::<usize>::empty() =~= sb);
                        assert(apply_path(t, cb, Seq::<usize>::empty()) == cb);
                    }
                    let ra = row_align(t, cb, tsol, width as int, h as int);
                    assert(align_path(t, cb, tsol, width as int, height as int, h as int) == ra + align_path(
                        t,
                        apply_path(t, cb, ra),
                        tsol,
                        width as int,
                        height as int,
                        h + 1,
                    ));
                    assert(sb + (ra + align_path(t, apply_path(t, cb, ra), tsol, width as int, height as int, h + 1)) =~= (sb
                        + ra) + align_path(t, apply_path(t, cb, ra), tsol, width as int, height as int, h + 1));
                    assert(sol@.take(k) =~= sol@.take(sb.len() as int).take(k));
                }
                h = h + 1;
            }
            proof {
                assert(align_path(t, cur@, tsol, width as int, height as int, height as int) =~= Seq::<usize>::empty());
                assert(sol@ + Seq::<usize>::empty() =~= sol@);
                assert(sol@.skip(k) =~= align_path(t, zero_state, tsol, width as int, height as int, 0));
            }
            assert(sol@.take(k) == s0);
            assert(inversions_zero(apply_path(c.table, st, sol@.take(k)), c.order_map@, width as int, height as int));
            assert(0 <= k <= sol@.len());
            assert(sol@.skip(k) == align_path(c.table, apply_path(c.table, st, sol@.take(k)), c.sol@, width as int, height as int, 0));
            assert(forall|j: int| 0 <= j < sol.len() ==> #[trigger] sol@[j] < c.table.actions.len());
            assert(greedy_found(*c, start@, sol@, width as int, height as int));
            return Some(sol);
        }
        let mut need_move: Vec<bool> = Vec::new();
        let mut h: usize = 0;
        while h < hh
            invariant
                h <= hh == height / 2,
                inv_num.len() == height,
                need_move.len() == h,
            decreases hh - h,
        {
            need_move.push(inv_num[h] > 0 || inv_num[height - 1 - h] > 0);
            h = h + 1;
        }
        let mut target: Vec<i32> = Vec::new();
        let mut h: usize = 0;
        while h < height
            invariant
                h <= height,
                target.len() == h,
                forall|g: int| 0 <= g < h ==> -1 <= #[trigger] target@[g] <= 1,
            decreases height - h,
        {
            target.push(0);
            h = h + 1;
        }
        let mut h: usize = 0;
        while h < hh
            invariant
                h <= hh == height / 2,
                height >= 2,
                inv_num.len() == height,
                exist.len() == height,
                forall|g: int| 0 <= g < height ==> #[trigger] exist@[g].len() == 3,
                forall|g: int| 0 <= g < height ==> 0 <= #[trigger] inv_num@[g] <= 1000000,
                need_move.len() == hh,
                target.len() == height,
                forall|g: int| 0 <= g < height ==> -1 <= #[trigger] target@[g] <= 1,
            decreases hh - h,
        {
            if need_move[h] {
                let g = height - 1 - h;
                assert(exist@[h as int].len() == 3);
                assert(exist@[g as int].len() == 3);
                match pair_target(inv_num[h], inv_num[g], exist[h][1], exist[g][1]) {
                    Some((a, b)) => {
                        target.set(h, a);
                        target.set(g, b);
                    },
                    None => {
                        return None;
                    },
                }
            }
            h = h + 1;
        }
        assert(width * height <= 64000) by (nonlinear_arith)
            requires
                width <= 1000,
                height <= 64,
        ;
        let mut cost: Vec<usize> = Vec::new();
        let mut src: usize = 0;
        while src < width
            invariant
                src <= width,
                first_sizes(*c, width as int, height as int),
                hh == height / 2,
                width * height <= 64000,
                inv_chg.len() == width * height,
                need_move.len() == hh,
                target.len() == height,
                cost.len() == src,
            decreases width - src,
        {
            let mut total: usize = 0;
            let mut h: usize = 0;
            while h < height
                invariant
                    h <= height,
                    src < width,
                    first_sizes(*c, width as int, height as int),
                    hh == height / 2,
                    width * height <= 64000,
                    inv_chg.len() == width * height,
                    need_move.len() == hh,
                    target.len() == height,
                    width <= 1000,
                    total <= h * 1000,
                decreases height - h,
            {
                let m = if h <= height - 1 - h {
                    h
                } else {
                    height - 1 - h
                };
                if m >= hh {
                    return None;
                }
                if need_move[m] {
                    let mut min_cost = width;
                    let mut dst: usize = 0;
                    while dst < width
                        invariant
                            dst <= width,
                            h < height,
                            src < width,
                            width * height <= 64000,
                            inv_chg.len() == width * height,
                            target.len() == height,
                            min_cost <= width <= 1000,
                        decreases width - dst,
                    {
                        assert(h * width + dst < width * height) by (nonlinear_arith)
                            requires
                                h < height,
                                dst < width,
                        ;
                        if inv_chg[h * width + dst] == target[h] {
                            let a = (dst + width - src) % width;
                            let b = (src + width - dst) % width;
                            if a < min_cost {
                                min_cost = a;
                            }
                            if b < min_cost {
                                min_cost = b;
                            }
                        }
                        dst = dst + 1;
                    }
                    if min_cost >= width {
                        return None;
                    }
                    total = total + min_cost;
                }
                h = h + 1;
            }
            cost.push(total);
            src = src + 1;
        }
        let mut best: usize = 0;
        let mut w: usize = 1;
        while w < width
            invariant
                1 <= w <= width,
                cost.len() == width,
                best < width,
            decreases width - w,
        {
            if cost[w] < cost[best] {
                best = w;
            }
            w = w + 1;
        }
        let mut h: usize = 0;
        while h < height
            invariant
                h <= height,
                first_sizes(*c, width as int, height as int),
                hh == height / 2,
                width * height <= 64000,
                inv_chg.len() == width * height,
                need_move.len() == hh,
                target.len() == height,
                best < width,
                tracked_moves(*c, st, cur@, sol@),
                grid_turns(c.table, sol@, width as int, height as int),
            grid_turns(c.table, sol@, width as int, height as int),
            decreases height - h,
        {
            let m = if h <= height - 1 - h {
                h
            } else {
                height - 1 - h
            };
            if m >= hh {
                return None;
            }
            if need_move[m] {
                let mut min_cost = width;
                let mut shift: i32 = 0;
                let mut dst: usize = 0;
                while dst < width
                    invariant
                        dst <= width <= 1000,
                        h < height,
                        best < width,
                        width * height <= 64000,
                        inv_chg.len() == width * height,
                        target.len() == height,
                        min_cost <= width,
                        -1000 <= shift <= 1000,
                    decreases width - dst,
                {
                    assert(h * width + dst < width * height) by (nonlinear_arith)
                        requires
                            h < height,
                            dst < width,
                    ;
                    if inv_chg[h * width + dst] == target[h] {
                        let c0 = (dst + width - best) % width;
                        let c1 = (best + width - dst) % width;
                        if c0 < min_cost {
                            min_cost = c0;
                            shift = c0 as i32;
                        }
                        if c1 < min_cost {
                            min_cost = c1;
                            shift = -(c1 as i32);
                        }
                    }
                    dst = dst + 1;
                }
                let ghost before = sol@;
                if shift > 0 {
                    if !push_named_times(c, &mut cur, &mut sol, false, 'r', h, shift as usize, Ghost(st)) {
                        return None;
                    }
                    proof {
                        lemma_grid_same(false, h as nat, Seq::new(shift as nat, |i: int| layer_move(false, 'r', h as nat)), width as int, height as int);
                        lemma_grid_extend(
                            c.table,
                            before,
                            sol@,
                            Seq::new(shift as nat, |i: int| layer_move(false, 'r', h as nat)),
                            width as int,
                            height as int,
                        );
                    }
                } else if shift < 0 {
                    if !push_named_times(c, &mut cur, &mut sol, true, 'r', h, (-shift) as usize, Ghost(st)) {
                        return None;
                    }
                    proof {
                        lemma_grid_same(true, h as nat, Seq::new((-shift) as nat, |i: int| layer_move(true, 'r', h as nat)), width as int, height as int);
                        lemma_grid_extend(
                            c.table,
                            before,
                            sol@,
                            Seq::new((-shift) as nat, |i: int| layer_move(true, 'r', h as nat)),
                            width as int,
                            height as int,
                        );
                    }
                }
            }
            h = h + 1;
        }
        let far = (best + width / 2 + width - 1) % width;
        let ghost before = sol@;
        if !push_named(c, &mut cur, &mut sol, turn(false, 'f', best), Ghost(st)) {
            return None;
        }
        proof {
            lemma_col_turn(best as nat, width as int, height as int);
            lemma_grid_push(c.table, before, sol@, layer_move(false, 'f', best as nat), width as int, height as int);
        }
        let ghost before = sol@;
        if !mirror_rows(c, &mut cur, &mut sol, &need_move, height, true, Ghost(st)) {
            return None;
        }
        proof {
            lemma_grid_mirror(need_move@, height as int, true, (height / 2) as int, width as int);
            lemma_grid_extend(
                c.table,
                before,
                sol@,
                mirror_names(need_move@, height as int, true, (height / 2) as int),
                width as int,
                height as int,
            );
        }
        let ghost before = sol@;
        if !push_named(c, &mut cur, &mut sol, turn(false, 'f', best), Ghost(st)) {
            return None;
        }
        proof {
            lemma_col_turn(best as nat, width as int, height as int);
            lemma_grid_push(c.table, before, sol@, layer_move(false, 'f', best as nat), width as int, height as int);
        }
        let ghost before = sol@;
        if !mirror_rows(c, &mut cur, &mut sol, &need_move, height, false, Ghost(st)) {
            return None;
        }
        proof {
            lemma_grid_mirror(need_move@, height as int, false, (height / 2) as int, width as int);
            lemma_grid_extend(
                c.table,
                before,
                sol@,
                mirror_names(need_move@, height as int, false, (height / 2) as int),
                width as int,
                height as int,
            );
        }
        let ghost before = sol@;
        if !mirror_rows(c, &mut cur, &mut sol, &need_move, height, false, Ghost(st)) {
            return None;
        }
        proof {
            lemma_grid_mirror(need_move@, height as int, false, (height / 2) as int, width as int);
            lemma_grid_extend(
                c.table,
                before,
                sol@,
                mirror_names(need_move@, height as int, false, (height / 2) as int),
                width as int,
                height as int,
            );
        }
        let ghost before = sol@;
        if !push_named(c, &mut cur, &mut sol, turn(false, 'f', far), Ghost(st)) {
            return None;
        }
        proof {
            lemma_col_turn(far as nat, width as int, height as int);
            lemma_grid_push(c.table, before, sol@, layer_move(false, 'f', far as nat), width as int, height as int);
        }
        let ghost before = sol@;
        if !mirror_rows(c, &mut cur, &mut sol, &need_move, height, true, Ghost(st)) {
            return None;
        }
        proof {
            lemma_grid_mirror(need_move@, height as int, true, (height / 2) as int, width as int);
            lemma_grid_extend(
                c.table,
                before,
                sol@,
                mirror_names(need_move@, height as int, true, (height / 2) as int),
                width as int,
                height as int,
            );
        }
        let ghost before = sol@;
        if !push_named(c, &mut cur, &mut sol, turn(false, 'f', far), Ghost(st)) {
            return None;
        }
        proof {
            lemma_col_turn(far as nat, width as int, height as int);
            lemma_grid_push(c.table, before, sol@, layer_move(false, 'f', far as nat), width as int, height as int);
        }
        round = round + 1;
    }
    None
}

/// The turns of the mirror rows `height - 1 - h` of the first `n` pairs
/// `h` that need moving, in order of `h`: `-r<row>` when `neg`, `r<row>`
/// otherwise.
pub open spec fn mirror_names(need: Seq<bool>, height: int, neg: bool, n: int) -> Seq<Seq<char>>
    decreases n,
{
    if n <= 0 {
        Seq::empty()
    } else {
        mirror_names(need, height, neg, n - 1) + if need[n - 1] {
            seq![layer_move(neg, 'r', (height - 1 - (n - 1)) as nat)]
        } else {
            Seq::empty()
        }
    }
}

proof fn lemma_mirror_prefix(need: Seq<bool>, height: int, neg: bool, n: int, m: int)
    requires
        0 <= n <= m,
    ensures
        mirror_names(need, height, neg, n).len() <= mirror_names(need, height, neg, m).len(),
        mirror_names(need, height, neg, m).take(mirror_names(need, height, neg, n).len() as int)
            == mirror_names(need, height, neg, n),
    decreases m - n,
{
    let a = mirror_names(need, height, neg, n);
    if n < m {
        lemma_mirror_prefix(need, height, neg, n, m - 1);
        let b = mirror_names(need, height, neg, m - 1);
        let c = mirror_names(need, height, neg, m);
        assert(c.take(a.len() as int) =~= b.take(a.len() as int));
    } else {
        assert(a.take(a.len() as int) =~= a);
    }
}

/// Turns once each mirror row `height - 1 - h` of a pair `h` that needs
/// moving (`mirror_names`): backward (`-r`) when `neg`, forward otherwise.
/// `false` when one of these moves is missing from the table.
fn mirror_rows(c: &GlobeCtx, cur: &mut Vec<usize>, sol: &mut Vec<usize>, need_move: &Vec<bool>, height: usize, neg: bool, Ghost(start): Ghost<Seq<usize>>) -> (ok: bool)
    requires
        c.table.wf(),
        c.table.fits(c.init.len() as nat),
        tracked_moves(*c, start, old(cur)@, old(sol)@),
        need_move.len() == height / 2,
    ensures
        tracked_moves(*c, start, final(cur)@, final(sol)@),
        final(sol)@.len() >= old(sol)@.len(),
        final(sol)@.take(old(sol)@.len() as int) == old(sol)@,
        ok <==> all_known(c.table, mirror_names(need_move@, height as int, neg, (height / 2) as int)),
        ok ==> first_moves(
            c.table,
            final(sol)@.skip(old(sol)@.len() as int),
            mirror_names(need_move@, height as int, neg, (height / 2) as int),
        ),
{
    let ghost s0 = sol@;
    let ghost total = mirror_names(need_move@, height as int, neg, (height / 2) as int);
    assert(sol@.take(s0.len() as int) =~= s0);
    assert(sol@.skip(s0.len() as int) =~= Seq::<usize>::empty());
    assert(mirror_names(need_move@, height as int, neg, 0) =~= Seq::<Seq<char>>::empty());
    let mut h: usize = 0;
    while h < height / 2
        invariant
            h <= height / 2,
            c.table.wf(),
            c.table.fits(c.init.len() as nat),
            need_move.len() == height / 2,
            s0 == old(sol)@,
            total == mirror_names(need_move@, height as int, neg, (height / 2) as int),
            tracked_moves(*c, start, cur@, sol@),
            sol@.len() >= s0.len(),
            sol@.take(s0.len() as int) == s0,
            first_moves(c.table, sol@.skip(s0.len() as int), mirror_names(need_move@, height as int, neg, h as int)),
        decreases height / 2 - h,
    {
        let ghost before = sol@;
        let ghost pre = mirror_names(need_move@, height as int, neg, h as int);
        let ghost name = layer_move(neg, 'r', (height - 1 - h) as nat);
        proof {
            lemma_mirror_prefix(need_move@, height as int, neg, (h + 1) as int, (height / 2) as int);
        }
        if need_move[h] {
            assert(mirror_names(need_move@, height as int, neg, (h + 1) as int) == pre + seq![name]);
            if !push_named(c, cur, sol, turn(neg, 'r', height - 1 - h), Ghost(start)) {
                proof {
                    let j = pre.len() as int;
                    assert((pre + seq![name])[j] == name);
                    assert(total.take((pre.len() + 1) as int)[j] == name);
                    assert(total[j] == name);
                    assert(!all_known(c.table, total));
                }
                return false;
            }
            proof {
                assert(sol@.take(s0.len() as int) =~= sol@.take(before.len() as int).take(s0.len() as int));
                assert(sol@.skip(s0.len() as int) =~= before.skip(s0.len() as int).push(sol@.last()));
                assert(pre + seq![name] =~= pre.push(name));
                lemma_first_moves_push(c.table, before.skip(s0.len() as int), pre, sol@.last(), name);
            }
        } else {
            assert(mirror_names(need_move@, height as int, neg, (h + 1) as int) =~= pre);
        }
        h = h + 1;
    }
    proof {
        lemma_first_moves_known(c.table, sol@.skip(s0.len() as int), total);
    }
    true
}

/// The state after the moves named by the parts of `names` (split at `.`),
/// each the first move of the table with its name: the indexes of the moves,
/// or `None` when a name is missing.
fn moves_by_name(c: &GlobeCtx, names: &String) -> (r: Option<Vec<usize>>)
    ensures
        r is Some <==> all_known(c.table, split_seq(names@, '.')),
        r matches Some(p) ==> p.len() == split_seq(names@, '.').len() && forall|k: int| 0 <= k < p.len() ==> #[trigger] p@[k] < c.table.names.len()
            && c.table.names[p@[k] as int]@ == split_seq(names@, '.')[k],
        r matches Some(p) ==> first_moves(c.table, p@, split_seq(names@, '.')),
{
    let text = chars_of(names.as_str());
    let parts = split_chars(&text, '.');
    let ghost ps = views(parts@);
    let mut p: Vec<usize> = Vec::new();
    let mut i: usize = 0;
    while i < parts.len()
        invariant
            i <= parts.len(),
            ps == views(parts@),
            ps == split_seq(names@, '.'),
            p.len() == i,
            forall|k: int| 0 <= k < i ==> #[trigger] p@[k] < c.table.names.len() && c.table.names[p@[k] as int]@ == ps[k],
            forall|k: int| 0 <= k < i ==> c.table.is_first(#[trigger] ps[k], p@[k] as int),
        decreases parts.len() - i,
    {
        let name = string_of(&parts[i]);
        match find_move(&c.table, &name) {
            Some(a) => {
                p.push(a);
            },
            None => {
                assert(!c.table.knows(ps[i as int]));
                return None;
            },
        }
        i = i + 1;
    }
    proof {
        lemma_first_moves_known(c.table, p@, ps);
    }
    Some(p)
}

/// `first` names moves of the globe table of `c`, by the first move with
/// each name; `f` are their indexes.
pub open spec fn named_path(c: GlobeCtx, first: Seq<char>, f: Seq<usize>) -> bool {
    &&& f.len() == split_seq(first, '.').len()
    &&& forall|k: int| 0 <= k < f.len() ==> #[trigger] f[k] < c.table.names.len() && c.table.names[f[k] as int]@ == split_seq(first, '.')[k]
}

/// What `resolve_inversion_greedy` gives: after the moves named in `first`,
/// the moves of `s` (by name, joined by `.`), each a row or column turn
/// (`grid_turns`), of which some first ones leave no row with inversions
/// and the rest are the row alignments of the state they reach
/// (`greedy_found`).
pub open spec fn greedy_result(puzzle: Puzzle, allowed: MoveTable, first: Seq<char>, width: int, height: int, s: Seq<char>) -> bool {
    exists|c: GlobeCtx, f: Seq<usize>, p: Seq<usize>|
        setup_result(puzzle, allowed, width, height, c) && named_path(c, first, f)
            && greedy_found(c, apply_path(c.table, c.init@, f), p, width, height) && grid_turns(c.table, p, width, height)
            && s == join_seq(move_names(c.table, p), '.')
}

/// The second phase of the globe solver on a puzzle: from the initial state
/// after the moves named in `first_moves`, the moves that remove the
/// inversions, by name, joined by `.`. `None` when the set-up fails, the
/// rows are not 2 to 64, a name is missing, or the greedy rounds fail.
pub fn resolve_inversion_greedy(
    puzzle: &Puzzle,
    allowed_move: &MoveTable,
    first_moves: &String,
    width: usize,
    height: usize,
) -> (r: Option<String>)
    requires
        allowed_move.wf(),
    ensures
        r matches Some(s) ==> greedy_result(*puzzle, *allowed_move, first_moves@, width as int, height as int, s@),
{
    let c = match globe_setup(puzzle, allowed_move, width, height) {
        Some(c) => c,
        None => {
            return None;
        },
    };
    if height < 2 || height > 64 {
        return None;
    }
    assert(first_sizes(c, width as int, height as int));
    let f = match moves_by_name(&c, first_moves) {
        Some(f) => f,
        None => {
            return None;
        },
    };
    let mut cur = c.init.clone();
    assert(cur@ =~= c.init@);
    let mut done: Vec<usize> = Vec::new();
    assert(apply_path(c.table, c.init@, done@) == c.init@);
    let mut i: usize = 0;
    while i < f.len()
        invariant
            i <= f.len(),
            first_sizes(c, width as int, height as int),
            forall|k: int| 0 <= k < f.len() ==> #[trigger] f@[k] < c.table.names.len(),
            state_ok(cur@, c),
            cur@ == apply_path(c.table, c.init@, done@),
            done@ == f@.take(i as int),
        decreases f.len() - i,
    {
        assert(f@[i as int] < c.table.names.len());
        step_move(&c, &mut cur, &mut done, f[i], Ghost(c.init@));
        assert(done@ =~= f@.take(i + 1));
        i = i + 1;
    }
    assert(done@ =~= f@);
    match resolve_ctx(&c, &cur, width, height) {
        Some(p) => {
            let s = path_text(&c.table, &p);
            assert(setup_result(*puzzle, *allowed_move, width as int, height as int, c) && named_path(c, first_moves@, f@)
                && greedy_found(c, apply_path(c.table, c.init@, f@), p@, width as int, height as int) && grid_turns(
                c.table,
                p@,
                width as int,
                height as int,
            ) && s@ == join_seq(move_names(c.table, p@), '.'));
            Some(s)
        },
        None => None,
    }
}


/// Row `h` of a grid `width` cells wide turned by `d` cells: cell `i` of
/// the row takes the piece that cell `(i + d) mod width` held; every other
/// cell keeps its piece.
pub open spec fn turn_row<T>(s: Seq<T>, width: int, h: int, d: int) -> Seq<T> {
    Seq::new(
        s.len(),
        |j: int|
            if h * width <= j < h * width + width {
                s[h * width + (j - h * width + d) % width]
            } else {
                s[j]
            },
    )
}

/// The row moves of the table turn the rows: on every state of
/// `width * height` pieces, the first move named `r<h>` turns row `h` by
/// one cell (`turn_row` by 1) and the first named `-r<h>` turns it back
/// (by -1), for every row `h` below `height`.
pub open spec fn rows_turn(t: ActionTable, width: int, height: int) -> bool {
    &&& forall|h: int, s: Seq<usize>|
        0 <= h < height && s.len() == width * height ==> #[trigger] apply_pairs(
            s,
            s,
            t.actions[first_index(t, layer_move(false, 'r', h as nat)) as int]@,
        ) == turn_row(s, width, h, 1)
    &&& forall|h: int, s: Seq<usize>|
        0 <= h < height && s.len() == width * height ==> #[trigger] apply_pairs(
            s,
            s,
            t.actions[first_index(t, layer_move(true, 'r', h as nat)) as int]@,
        ) == turn_row(s, width, h, -1)
}

proof fn lemma_turn_row_twice(s: Seq<usize>, width: int, h: int, d1: int, d2: int)
    requires
        width >= 1,
        0 <= h,
        h * width + width <= s.len(),
    ensures
        turn_row(turn_row(s, width, h, d1), width, h, d2) == turn_row(s, width, h, d1 + d2),
{
    let s1 = turn_row(s, width, h, d1);
    let a = turn_row(s1, width, h, d2);
    let b = turn_row(s, width, h, d1 + d2);
    assert forall|j: int| 0 <= j < a.len() implies a[j] == b[j] by {
        if h * width <= j < h * width + width {
            let i = j - h * width;
            let k = h * width + (i + d2) % width;
            assert(0 <= (i + d2) % width < width);
            assert(s1[k] == s[h * width + (k - h * width + d1) % width]);
            assert(k - h * width == (i + d2) % width);
            vstd::arithmetic::div_mod::lemma_add_mod_noop_right(d1, i + d2, width);
            assert(d1 + (i + d2) % width == (i + d2) % width + d1);
            assert(d1 + (i + d2) == i + (d1 + d2));
        }
    }
    assert(a =~= b);
}

/// `n` copies of the first move named `[-]r<h>` turn row `h` by `n` cells
/// (`-n` when `neg`).
proof fn lemma_turns_apply(t: ActionTable, s: Seq<usize>, width: int, height: int, h: int, neg: bool, n: nat)
    requires
        width >= 1,
        0 <= h < height,
        s.len() == width * height,
        rows_turn(t, width, height),
    ensures
        apply_path(t, s, Seq::new(n, |i: int| first_index(t, layer_move(neg, 'r', h as nat)))) == turn_row(
            s,
            width,
            h,
            if neg { -(n as int) } else { n as int },
        ),
    decreases n,
{
    let a = first_index(t, layer_move(neg, 'r', h as nat));
    let p = Seq::new(n, |i: int| a);
    assert(h * width + width <= width * height) by (nonlinear_arith)
        requires
            0 <= h < height,
            width >= 1,
    ;
    if n == 0 {
        assert forall|j: int| 0 <= j < s.len() implies #[trigger] turn_row(s, width, h, 0)[j] == s[j] by {
            if h * width <= j < h * width + width {
                vstd::arithmetic::div_mod::lemma_small_mod((j - h * width) as nat, width as nat);
                assert((j - h * width + 0) % width == j - h * width);
            }
        }
        assert(turn_row(s, width, h, 0) =~= s);
        assert(p =~= Seq::<usize>::empty());
    } else {
        lemma_turns_apply(t, s, width, height, h, neg, (n - 1) as nat);
        assert(p.drop_last() =~= Seq::new((n - 1) as nat, |i: int| a));
        let d = if neg { -((n - 1) as int) } else { (n - 1) as int };
        let s1 = turn_row(s, width, h, d);
        assert(s1.len() == width * height);
        assert(apply_pairs(s1, s1, t.actions[a as int]@) == turn_row(s1, width, h, if neg { -1 } else { 1 }));
        lemma_turn_row_twice(s, width, h, d, if neg { -1 } else { 1 });
    }
}

pub(crate) proof fn lemma_first_turn_found<T>(state: Seq<T>, sol: Seq<T>, width: int, h: int, w: int, v: int)
    requires
        0 <= w <= v < width,
        row_is_turned(state, sol, width, h, v),
    ensures
        first_turn(state, sol, width, h, w) matches Some(x) && 0 <= x < width && row_is_turned(state, sol, width, h, x),
    decreases v - w,
{
    if !row_is_turned(state, sol, width, h, w) {
        lemma_first_turn_found(state, sol, width, h, w + 1, v);
    }
}

proof fn lemma_row_outside(h: int, g: int, width: int, x: int)
    requires
        width >= 1,
        0 <= h,
        0 <= g,
        g != h,
        0 <= x < width,
    ensures
        !(h * width <= g * width + x < h * width + width),
{
    if g < h {
        assert(g * width + width <= h * width) by (nonlinear_arith)
            requires
                g + 1 <= h,
                width >= 1,
        ;
    } else {
        assert(h * width + width <= g * width) by (nonlinear_arith)
            requires
                h + 1 <= g,
                width >= 1,
        ;
    }
}

/// The alignment of one row puts it in place: when row `h` of `s` is row
/// `h` of `sol` turned by some number of cells, the moves `row_align`
/// leave row `h` equal to `sol`'s and every other cell as it was.
proof fn lemma_row_align_places(t: ActionTable, s: Seq<usize>, sol: Seq<usize>, width: int, height: int, h: int, v: int)
    requires
        width >= 1,
        0 <= h < height,
        s.len() == width * height,
        rows_turn(t, width, height),
        0 <= v < width,
        row_is_turned(s, sol, width, h, v),
    ensures
        apply_path(t, s, row_align(t, s, sol, width, h)).len() == s.len(),
        forall|i: int| 0 <= i < width ==> #[trigger] apply_path(t, s, row_align(t, s, sol, width, h))[h * width + i] == sol[h * width + i],
        forall|j: int| 0 <= j < s.len() && !(h * width <= j < h * width + width) ==> #[trigger] apply_path(t, s, row_align(t, s, sol, width, h))[j] == s[j],
{
    assert(h * width + width <= width * height) by (nonlinear_arith)
        requires
            0 <= h < height,
            width >= 1,
    ;
    assert(0 <= h * width) by (nonlinear_arith)
        requires
            0 <= h,
            width >= 1,
    ;
    lemma_first_turn_found(s, sol, width, h, 0, v);
    let w = first_turn(s, sol, width, h, 0)->0;
    let r = apply_path(t, s, row_align(t, s, sol, width, h));
    if w <= width / 2 {
        lemma_turns_apply(t, s, width, height, h, false, w as nat);
        assert(r == turn_row(s, width, h, w));
        assert forall|i: int| 0 <= i < width implies #[trigger] r[h * width + i] == sol[h * width + i] by {
            assert(sol[h * width + i] == s[h * width + (i + w) % width]);
        }
    } else {
        lemma_turns_apply(t, s, width, height, h, true, (width - w) as nat);
        assert(r == turn_row(s, width, h, w - width));
        assert forall|i: int| 0 <= i < width implies #[trigger] r[h * width + i] == sol[h * width + i] by {
            assert(sol[h * width + i] == s[h * width + (i + w) % width]);
            vstd::arithmetic::div_mod::lemma_mod_sub_multiples_vanish(i + w, width);
            assert(-width + (i + w) == i + (w - width));
        }
    }
}

/// Every row of `s` from `h` on is the same row of `sol` turned by some
/// number of cells.
pub open spec fn rows_turned_from(s: Seq<usize>, sol: Seq<usize>, width: int, height: int, h: int) -> bool {
    forall|g: int| h <= g < height ==> #[trigger] row_turned_some(s, sol, width, g)
}

/// Row `g` of `s` is row `g` of `sol` turned by some number of cells.
pub open spec fn row_turned_some(s: Seq<usize>, sol: Seq<usize>, width: int, g: int) -> bool {
    exists|w: int| 0 <= w < width && #[trigger] row_is_turned(s, sol, width, g, w)
}

proof fn lemma_align_rows(t: ActionTable, s: Seq<usize>, sol: Seq<usize>, width: int, height: int, h: int)
    requires
        width >= 1,
        0 <= h <= height,
        s.len() == width * height,
        rows_turn(t, width, height),
        rows_turned_from(s, sol, width, height, h),
    ensures
        apply_path(t, s, align_path(t, s, sol, width, height, h)).len() == s.len(),
        forall|g: int, i: int|
            h <= g < height && 0 <= i < width ==> #[trigger] apply_path(t, s, align_path(t, s, sol, width, height, h))[g * width + i]
                == sol[g * width + i],
        forall|j: int| 0 <= j < h * width ==> #[trigger] apply_path(t, s, align_path(t, s, sol, width, height, h))[j] == s[j],
    decreases height - h,
{
    if h >= height {
        assert(align_path(t, s, sol, width, height, h) =~= Seq::<usize>::empty());
        assert(apply_path(t, s, Seq::<usize>::empty()) == s);
    } else {
        assert(row_turned_some(s, sol, width, h));
        let v = choose|w: int| 0 <= w < width && #[trigger] row_is_turned(s, sol, width, h, w);
        let a = row_align(t, s, sol, width, h);
        let s1 = apply_path(t, s, a);
        lemma_row_align_places(t, s, sol, width, height, h, v);
        assert forall|g: int| h + 1 <= g < height implies #[trigger] row_turned_some(s1, sol, width, g) by {
            assert(row_turned_some(s, sol, width, g));
            let w = choose|w: int| 0 <= w < width && #[trigger] row_is_turned(s, sol, width, g, w);
            assert forall|i: int| 0 <= i < width implies #[trigger] sol[g * width + i] == s1[g * width + (i + w) % width] by {
                let x = (i + w) % width;
                lemma_row_outside(h, g, width, x);
                assert(g * width + x < width * height) by (nonlinear_arith)
                    requires
                        g < height,
                        0 <= x < width,
                ;
                assert(s1[g * width + x] == s[g * width + x]);
            }
            assert(row_is_turned(s1, sol, width, g, w));
        }
        lemma_align_rows(t, s1, sol, width, height, h + 1);
        let rest = align_path(t, s1, sol, width, height, h + 1);
        assert(align_path(t, s, sol, width, height, h) == a + rest);
        crate::globe_first::lemma_apply_path_concat(t, s, a, rest);
        let r = apply_path(t, s, a + rest);
        assert forall|g: int, i: int| h <= g < height && 0 <= i < width implies #[trigger] r[g * width + i] == sol[g * width + i] by {
            assert((h + 1) * width == h * width + width) by (nonlinear_arith);
            if g == h {
                assert(g * width + i < (h + 1) * width);
            }
        }
        assert forall|j: int| 0 <= j < h * width implies #[trigger] r[j] == s[j] by {
            assert((h + 1) * width == h * width + width) by (nonlinear_arith);
            assert(h * width + width <= width * height) by (nonlinear_arith)
                requires
                    0 <= h < height,
                    width >= 1,
            ;
            assert(s1[j] == s[j]);
        }
    }
}

/// The row alignments solve the globe: on a table whose row moves turn the
/// rows (`rows_turn`), from a state each of whose rows is the solution's
/// row turned by some number of cells, the alignment moves `align_path`
/// lead to the solution.
pub proof fn lemma_align_solves(t: ActionTable, s: Seq<usize>, sol: Seq<usize>, width: int, height: int)
    requires
        width >= 1,
        height >= 0,
        s.len() == width * height,
        sol.len() == s.len(),
        rows_turn(t, width, height),
        rows_turned_from(s, sol, width, height, 0),
    ensures
        apply_path(t, s, align_path(t, s, sol, width, height, 0)) == sol,
{
    lemma_align_rows(t, s, sol, width, height, 0);
    let r = apply_path(t, s, align_path(t, s, sol, width, height, 0));
    assert forall|j: int| 0 <= j < r.len() implies r[j] == sol[j] by {
        let g = j / width;
        let i = j % width;
        assert(j == g * width + i) by {
            vstd::arithmetic::div_mod::lemma_fundamental_div_mod(j, width);
            assert(width * (j / width) == (j / width) * width) by (nonlinear_arith);
        }
        assert(g < height) by (nonlinear_arith)
            requires
                j < width * height,
                j == g * width + i,
                0 <= i,
                width >= 1,
        ;
        assert(0 <= g) by (nonlinear_arith)
            requires
                j >= 0,
                width >= 1,
                g == j / width,
        ;
        assert(r[g * width + i] == sol[g * width + i]);
    }
    assert(r =~= sol);
}

/// What the greedy phase gives solves the globe: when the state its
/// inversion-free prefix reaches has every row a turn of the solution's
/// row, the whole path (`greedy_found`) leads to the solution, on a table
/// whose row moves turn the rows.
pub proof fn lemma_greedy_solves(c: GlobeCtx, start: Seq<usize>, p: Seq<usize>, width: int, height: int, k: int)
    requires
        width >= 1,
        height >= 0,
        start.len() == width * height,
        c.sol@.len() == start.len(),
        rows_turn(c.table, width, height),
        0 <= k <= p.len(),
        p.skip(k) == align_path(c.table, apply_path(c.table, start, p.take(k)), c.sol@, width, height, 0),
        apply_path(c.table, start, p.take(k)).len() == start.len(),
        rows_turned_from(apply_path(c.table, start, p.take(k)), c.sol@, width, height, 0),
    ensures
        apply_path(c.table, start, p) == c.sol@,
{
    let z = apply_path(c.table, start, p.take(k));
    lemma_align_solves(c.table, z, c.sol@, width, height);
    assert(p.take(k) + p.skip(k) =~= p);
    crate::globe_first::lemma_apply_path_concat(c.table, start, p.take(k), p.skip(k));
}

} // verus!
