//! Costs of the wreath beam search: for each kind of piece, how many
//! single moves of a piece separate each place from the nearest place of
//! that kind in the solved state, and the cost of a state as the sum of
//! those distances over its pieces.
use vstd::prelude::*;
use crate::perm::{action_fits, apply_pairs, values_below};
use crate::search::{cost_sum, lemma_cost_sum_nonneg, lemma_cost_sum_update};

verus! {

/// The distance given to places that no piece of a kind can reach.
pub open spec fn far_cost() -> int {
    100000000
}

/// `u` and `v` are the two ends of a pair of some move.
pub open spec fn joined(moves: Seq<Seq<(usize, usize)>>, u: int, v: int) -> bool {
    exists|m: int, k: int|
        0 <= m < moves.len() && 0 <= k < moves[m].len() && (#[trigger] moves[m][k] == (u as usize, v as usize)
            || moves[m][k] == (v as usize, u as usize))
}

/// The views of the moves.
pub open spec fn move_views(moves: Seq<Vec<(usize, usize)>>) -> Seq<Seq<(usize, usize)>> {
    moves.map_values(|m: Vec<(usize, usize)>| m@)
}

/// Every pair of every move names places below `n`.
pub open spec fn moves_within(moves: Seq<Seq<(usize, usize)>>, n: int) -> bool {
    forall|m: int, k: int|
        0 <= m < moves.len() && 0 <= k < moves[m].len() ==> (#[trigger] moves[m][k]).0 < n && moves[m][k].1 < n
}

/// The distances of one kind `i`: 0 exactly at the places of kind `i` in
/// `sol`, at most one more than at any joined place, and, when positive and
/// reached, exactly one more than at some joined place.
pub open spec fn distances(row: Seq<i32>, sol: Seq<usize>, moves: Seq<Seq<(usize, usize)>>, i: int) -> bool {
    &&& forall|p: int| 0 <= p < row.len() ==> 0 <= #[trigger] row[p] <= far_cost()
    &&& forall|p: int| 0 <= p < row.len() ==> (#[trigger] row[p] == 0 <==> (p < sol.len() && sol[p] == i))
    &&& forall|u: int, v: int|
        0 <= u < row.len() && 0 <= v < row.len() && #[trigger] joined(moves, u, v) && row[u] < far_cost()
            ==> #[trigger] row[v] <= row[u] + 1
    &&& forall|v: int|
        0 <= v < row.len() && 0 < #[trigger] row[v] < far_cost() ==> exists|u: int|
            0 <= u < row.len() && #[trigger] joined(moves, u, v) && row[u] + 1 == row[v]
}

/// Adjacency lists: each entry of `g[u]` is joined to `u`, and both ends of
/// every pair list each other.
spec fn adjacency(g: Seq<Seq<usize>>, moves: Seq<Seq<(usize, usize)>>, n: int) -> bool {
    &&& g.len() == n
    &&& forall|u: int, k: int| 0 <= u < n && 0 <= k < g[u].len() ==> (#[trigger] g[u][k]) < n && joined(moves, u, g[u][k] as int)
    &&& forall|m: int, k: int|
        0 <= m < moves.len() && 0 <= k < moves[m].len() ==> g[(#[trigger] moves[m][k]).0 as int].contains(moves[m][k].1)
            && g[moves[m][k].1 as int].contains(moves[m][k].0)
}

/// The views of adjacency lists.
spec fn lists_view(g: Seq<Vec<usize>>) -> Seq<Seq<usize>> {
    g.map_values(|l: Vec<usize>| l@)
}

/// Appends `v` to list `u`.
fn push_neighbor(g: &mut Vec<Vec<usize>>, u: usize, v: usize)
    requires
        u < old(g).len(),
    ensures
        lists_view(final(g)@) == lists_view(old(g)@).update(u as int, lists_view(old(g)@)[u as int].push(v)),
        final(g).len() == old(g).len(),
{
    let ghost before = lists_view(g@);
    let mut l = g[u].clone();
    assert(l@ =~= before[u as int]);
    l.push(v);
    g.set(u, l);
    assert(lists_view(g@) =~= before.update(u as int, before[u as int].push(v)));
}

fn adjacency_lists(moves: &Vec<Vec<(usize, usize)>>, n: usize) -> (g: Vec<Vec<usize>>)
    requires
        moves_within(move_views(moves@), n as int),
    ensures
        adjacency(lists_view(g@), move_views(moves@), n as int),
{
    let ghost mv = move_views(moves@);
    let mut g: Vec<Vec<usize>> = Vec::new();
    let mut k: usize = 0;
    while k < n
        invariant
            k <= n,
            g.len() == k,
            forall|u: int| 0 <= u < k ==> (#[trigger] g@[u])@.len() == 0,
        decreases n - k,
    {
        g.push(Vec::new());
        k = k + 1;
    }
    assert forall|u: int| 0 <= u < n implies (#[trigger] lists_view(g@)[u]).len() == 0 by {
        assert(lists_view(g@)[u] == g@[u]@);
    }
    let mut m: usize = 0;
    while m < moves.len()
        invariant
            m <= moves.len(),
            mv == move_views(moves@),
            moves_within(mv, n as int),
            lists_view(g@).len() == n,
            g.len() == n,
            forall|u: int, kk: int|
                0 <= u < n && 0 <= kk < lists_view(g@)[u].len() ==> (#[trigger] lists_view(g@)[u][kk]) < n
                    && joined(mv, u, lists_view(g@)[u][kk] as int),
            forall|mm: int, kk: int|
                0 <= mm < m && 0 <= kk < mv[mm].len() ==> lists_view(g@)[(#[trigger] mv[mm][kk]).0 as int].contains(
                    mv[mm][kk].1,
                ) && lists_view(g@)[mv[mm][kk].1 as int].contains(mv[mm][kk].0),
        decreases moves.len() - m,
    {
        let mvec = &moves[m];
        assert(mv[m as int] == mvec@);
        let mut k: usize = 0;
        while k < mvec.len()
            invariant
                m < moves.len(),
                k <= mvec.len(),
                mv == move_views(moves@),
                mv[m as int] == mvec@,
                moves_within(mv, n as int),
                lists_view(g@).len() == n,
                g.len() == n,
                forall|u: int, kk: int|
                    0 <= u < n && 0 <= kk < lists_view(g@)[u].len() ==> (#[trigger] lists_view(g@)[u][kk]) < n
                        && joined(mv, u, lists_view(g@)[u][kk] as int),
                forall|mm: int, kk: int|
                    (0 <= mm < m && 0 <= kk < mv[mm].len()) || (mm == m && 0 <= kk < k) ==> lists_view(g@)[(
                    #[trigger] mv[mm][kk]).0 as int].contains(mv[mm][kk].1) && lists_view(g@)[mv[mm][kk].1 as int].contains(
                        mv[mm][kk].0,
                    ),
            decreases mvec.len() - k,
        {
            let (i, j) = mvec[k];
            assert(mv[m as int][k as int] == (i, j));
            assert(i < n && j < n);
            assert(joined(mv, i as int, j as int));
            assert(joined(mv, j as int, i as int));
            let ghost g0 = lists_view(g@);
            push_neighbor(&mut g, i, j);
            let ghost g1 = lists_view(g@);
            push_neighbor(&mut g, j, i);
            let ghost g2 = lists_view(g@);
            assert forall|u: int, kk: int|
                0 <= u < n && 0 <= kk < g2[u].len() implies (#[trigger] g2[u][kk]) < n && joined(mv, u, g2[u][kk] as int) by {
                if u == j && kk == g1[u].len() {
                } else if u == i && kk == g0[u].len() && (u != j || kk < g1[u].len()) {
                    assert(g2[u][kk] == g1[u][kk]);
                } else {
                    assert(g2[u][kk] == g1[u][kk]);
                    assert(g1[u][kk] == g0[u][kk]);
                }
            }
            assert forall|mm: int, kk: int|
                (0 <= mm < m && 0 <= kk < mv[mm].len()) || (mm == m && 0 <= kk < k + 1) implies g2[(
                #[trigger] mv[mm][kk]).0 as int].contains(mv[mm][kk].1) && g2[mv[mm][kk].1 as int].contains(
                    mv[mm][kk].0,
                ) by {
                let a = mv[mm][kk].0 as int;
                let b = mv[mm][kk].1 as int;
                assert(a < n && b < n);
                if mm == m && kk == k {
                    assert(g1[i as int][g0[i as int].len() as int] == j);
                    assert(g1[i as int].contains(j));
                    assert(g2[j as int][g1[j as int].len() as int] == i);
                    assert(g2[j as int].contains(i));
                    assert(g2[i as int].contains(j)) by {
                        let w = choose|w: int| 0 <= w < g1[i as int].len() && g1[i as int][w] == j;
                        assert(g2[i as int][w] == j);
                    }
                } else {
                    assert(g0[a].contains(mv[mm][kk].1));
                    assert(g0[b].contains(mv[mm][kk].0));
                    let w1 = choose|w: int| 0 <= w < g0[a].len() && g0[a][w] == mv[mm][kk].1;
                    let w2 = choose|w: int| 0 <= w < g0[b].len() && g0[b][w] == mv[mm][kk].0;
                    assert(g2[a][w1] == g0[a][w1]);
                    assert(g2[b][w2] == g0[b][w2]);
                }
            }
            k = k + 1;
        }
        m = m + 1;
    }
    g
}

/// `u` waits in the queue from `head` on.
spec fn pending(q: Seq<usize>, head: int, u: int) -> bool {
    exists|k: int| head <= k < q.len() && q[k] as int == u
}

/// Each list entry of a place that is reached and not waiting is at most
/// one farther.
spec fn closed_except(row: Seq<i32>, g: Seq<Seq<usize>>, q: Seq<usize>, head: int, skip: int) -> bool {
    forall|u: int, k: int|
        0 <= u < row.len() && 0 <= k < g[u].len() && row[u] < far_cost() && !pending(q, head, u) && u != skip
            ==> row[(#[trigger] g[u][k]) as int] <= row[u] + 1
}

/// Every reached place but those of kind `i` is one farther than some
/// joined place, or more.
spec fn witnessed(row: Seq<i32>, moves: Seq<Seq<(usize, usize)>>) -> bool {
    forall|v: int|
        0 <= v < row.len() && 0 < #[trigger] row[v] < far_cost() ==> exists|u: int|
            0 <= u < row.len() && #[trigger] joined(moves, u, v) && row[u] + 1 <= row[v]
}

/// The distances of kind `i` from its places in `sol`, by breadth-first
/// search over the adjacency lists.
fn kind_distances(sol: &Vec<usize>, g: &Vec<Vec<usize>>, n: usize, i: usize, Ghost(mv): Ghost<Seq<Seq<(usize, usize)>>>) -> (r: Vec<i32>)
    requires
        adjacency(lists_view(g@), mv, n as int),
        sol.len() <= n,
    ensures
        r.len() == n,
        distances(r@, sol@, mv, i as int),
{
    let ghost gv = lists_view(g@);
    let mut row: Vec<i32> = vec![100000000; n];
    let mut q: Vec<usize> = Vec::new();
    let mut idx: usize = 0;
    while idx < sol.len()
        invariant
            idx <= sol.len() <= n,
            row.len() == n,
            forall|p: int| 0 <= p < n ==> 0 <= #[trigger] row@[p] <= far_cost(),
            forall|p: int| 0 <= p < n ==> (#[trigger] row@[p] == 0 <==> (p < idx && sol@[p] == i)),
            forall|p: int| 0 <= p < n ==> (row@[p] == 0 || row@[p] == far_cost()),
            forall|p: int| 0 <= p < n && #[trigger] row@[p] == 0 ==> pending(q@, 0, p),
            forall|k: int| 0 <= k < q.len() ==> #[trigger] q@[k] < n,
        decreases sol.len() - idx,
    {
        if sol[idx] == i {
            let ghost q0 = q@;
            row.set(idx, 0);
            q.push(idx);
            assert(q@[q0.len() as int] == idx);
            assert forall|p: int| 0 <= p < n && #[trigger] row@[p] == 0 implies pending(q@, 0, p) by {
                if p != idx {
                    let k = choose|k: int| 0 <= k < q0.len() && q0[k] as int == p;
                    assert(q@[k] == q0[k]);
                }
            }
        }
        idx = idx + 1;
    }
    proof {
        lemma_cost_sum_nonneg(row@);
        assert forall|v: int| 0 <= v < row.len() && 0 < #[trigger] row@[v] < far_cost() implies exists|u: int|
            0 <= u < row.len() && #[trigger] joined(mv, u, v) && row@[u] + 1 <= row@[v] by {}
    }
    let mut head: usize = 0;
    while head < q.len()
        invariant
            head <= q.len(),
            gv == lists_view(g@),
            adjacency(gv, mv, n as int),
            sol.len() <= n,
            row.len() == n,
            forall|k: int| 0 <= k < q.len() ==> #[trigger] q@[k] < n,
            forall|p: int| 0 <= p < n ==> 0 <= #[trigger] row@[p] <= far_cost(),
            forall|p: int| 0 <= p < n ==> (#[trigger] row@[p] == 0 <==> (p < sol.len() && sol@[p] == i)),
            closed_except(row@, gv, q@, head as int, -1),
            witnessed(row@, mv),
            cost_sum(row@) >= 0,
        decreases 2 * cost_sum(row@) + (q.len() - head),
    {
        let ghost measure = 2 * cost_sum(row@) + (q.len() - head);
        let v = q[head];
        head = head + 1;
        let c = row[v];
        assert(gv[v as int] == g@[v as int]@);
        let nb = &g[v];
        let mut k: usize = 0;
        while k < nb.len()
            invariant
                k <= nb.len(),
                v < n,
                nb@ == gv[v as int],
                head <= q.len(),
                gv == lists_view(g@),
                adjacency(gv, mv, n as int),
                sol.len() <= n,
                row.len() == n,
                row@[v as int] == c,
                forall|kk: int| 0 <= kk < q.len() ==> #[trigger] q@[kk] < n,
                forall|p: int| 0 <= p < n ==> 0 <= #[trigger] row@[p] <= far_cost(),
                forall|p: int| 0 <= p < n ==> (#[trigger] row@[p] == 0 <==> (p < sol.len() && sol@[p] == i)),
                closed_except(row@, gv, q@, head as int, v as int),
                forall|kk: int| 0 <= kk < k && c < far_cost() ==> row@[(#[trigger] nb@[kk]) as int] <= c + 1,
                witnessed(row@, mv),
                cost_sum(row@) >= 0,
                2 * cost_sum(row@) + (q.len() - head) < measure,
            decreases nb.len() - k,
        {
            let w = nb[k];
            assert(w < n);
            if c < 100000000 && c + 1 < row[w] {
                let ghost r0 = row@;
                let ghost q0 = q@;
                proof {
                    lemma_cost_sum_update(row@, w as int, (c + 1) as i32);
                    assert(joined(mv, v as int, w as int));
                }
                row.set(w, c + 1);
                q.push(w);
                proof {
                    assert(q@[q0.len() as int] == w);
                    assert forall|u: int| #[trigger] pending(q0, head as int, u) implies pending(q@, head as int, u) by {
                        let kk = choose|kk: int| head <= kk < q0.len() && q0[kk] as int == u;
                        assert(q@[kk] == q0[kk]);
                    }
                    assert(pending(q@, head as int, w as int));
                    assert forall|u: int, kk: int|
                        0 <= u < row@.len() && 0 <= kk < gv[u].len() && row@[u] < far_cost() && !pending(q@, head as int, u) && u != v
                            implies row@[(#[trigger] gv[u][kk]) as int] <= row@[u] + 1 by {
                        assert(u != w);
                        assert(!pending(q0, head as int, u));
                        assert(r0[u] == row@[u]);
                    }
                    assert forall|x: int|
                        0 <= x < row@.len() && 0 < #[trigger] row@[x] < far_cost() implies exists|u: int|
                            0 <= u < row@.len() && #[trigger] joined(mv, u, x) && row@[u] + 1 <= row@[x] by {
                        if x == w {
                            assert(joined(mv, v as int, w as int) && row@[v as int] + 1 <= row@[x]);
                        } else {
                            assert(r0[x] == row@[x]);
                            let u = choose|u: int| 0 <= u < r0.len() && #[trigger] joined(mv, u, x) && r0[u] + 1 <= r0[x];
                            assert(joined(mv, u, x) && row@[u] + 1 <= row@[x]);
                        }
                    }
                    lemma_cost_sum_nonneg(row@);
                }
            }
            k = k + 1;
        }
        proof {
            assert forall|u: int, kk: int|
                0 <= u < row@.len() && 0 <= kk < gv[u].len() && row@[u] < far_cost() && !pending(q@, head as int, u) && u != -1
                    implies row@[(#[trigger] gv[u][kk]) as int] <= row@[u] + 1 by {
                if u == v {
                    assert(nb@[kk] == gv[u][kk]);
                }
            }
        }
    }
    proof {
        let r = row@;
        assert forall|u: int| 0 <= u < n implies !pending(q@, head as int, u) by {}
        assert forall|u: int, x: int|
            0 <= u < r.len() && 0 <= x < r.len() && #[trigger] joined(mv, u, x) && r[u] < far_cost() implies #[trigger] r[x] <= r[u] + 1 by {
            let (m, k) = choose|m: int, k: int|
                0 <= m < mv.len() && 0 <= k < mv[m].len() && (#[trigger] mv[m][k] == (u as usize, x as usize)
                    || mv[m][k] == (x as usize, u as usize));
            assert(gv[u].contains(x as usize));
            let kk = choose|kk: int| 0 <= kk < gv[u].len() && gv[u][kk] == x as usize;
            assert(r[gv[u][kk] as int] <= r[u] + 1);
        }
        assert forall|x: int| 0 <= x < r.len() && 0 < #[trigger] r[x] < far_cost() implies exists|u: int|
            0 <= u < r.len() && #[trigger] joined(mv, u, x) && r[u] + 1 == r[x] by {
            let u = choose|u: int| 0 <= u < r.len() && #[trigger] joined(mv, u, x) && r[u] + 1 <= r[x];
            assert(joined(mv, x, u)) by {
                let (m, k) = choose|m: int, k: int|
                    0 <= m < mv.len() && 0 <= k < mv[m].len() && (#[trigger] mv[m][k] == (u as usize, x as usize)
                        || mv[m][k] == (x as usize, u as usize));
            }
            assert(r[x] <= r[u] + 1);
        }
    }
    row
}

/// For each kind `0 .. piece_kind`, the distances of every place from the
/// places of that kind in `sol_state`, one move pair being one step
/// (`distances`); `far_cost` where no such place can be reached.
pub fn gen_cost_table(
    sol_state: &Vec<usize>,
    valid_moves: &Vec<Vec<(usize, usize)>>,
    piece_num: usize,
    piece_kind: usize,
) -> (r: Vec<Vec<i32>>)
    requires
        moves_within(move_views(valid_moves@), piece_num as int),
        sol_state.len() <= piece_num,
    ensures
        r.len() == piece_kind,
        forall|i: int|
            0 <= i < piece_kind ==> (#[trigger] r@[i]).len() == piece_num && distances(
                r@[i]@,
                sol_state@,
                move_views(valid_moves@),
                i,
            ),
{
    let g = adjacency_lists(valid_moves, piece_num);
    let mut table: Vec<Vec<i32>> = Vec::new();
    let mut i: usize = 0;
    while i < piece_kind
        invariant
            i <= piece_kind,
            adjacency(lists_view(g@), move_views(valid_moves@), piece_num as int),
            sol_state.len() <= piece_num,
            table.len() == i,
            forall|k: int|
                0 <= k < i ==> (#[trigger] table@[k]).len() == piece_num && distances(
                    table@[k]@,
                    sol_state@,
                    move_views(valid_moves@),
                    k,
                ),
        decreases piece_kind - i,
    {
        let row = kind_distances(sol_state, &g, piece_num, i, Ghost(move_views(valid_moves@)));
        table.push(row);
        i = i + 1;
    }
    table
}

/// The rows of a cost table.
pub open spec fn table_rows(t: Seq<Vec<i32>>) -> Seq<Seq<i32>> {
    t.map_values(|r: Vec<i32>| r@)
}

/// A row for each kind, each covering the `n` places with costs between 0
/// and `far_cost`.
pub open spec fn table_ok(t: Seq<Seq<i32>>, n: int) -> bool {
    forall|v: int|
        0 <= v < t.len() ==> (#[trigger] t[v]).len() >= n && forall|p: int| 0 <= p < n ==> 0 <= #[trigger] t[v][p] <= far_cost()
}

/// The cost of the first `k` pieces: each piece's distance from its place.
pub open spec fn table_sum(state: Seq<usize>, t: Seq<Seq<i32>>, k: int) -> int
    decreases k,
{
    if k <= 0 {
        0
    } else {
        table_sum(state, t, k - 1) + t[state[k - 1] as int][k - 1]
    }
}

/// How many of the first `k` places differ from the solved state.
pub open spec fn mismatches(state: Seq<usize>, sol: Seq<usize>, k: int) -> int
    decreases k,
{
    if k <= 0 {
        0
    } else {
        mismatches(state, sol, k - 1) + if state[k - 1] != sol[k - 1] {
            1int
        } else {
            0int
        }
    }
}

/// The cost of a state: 0 when it differs from the solved state in at most
/// `wild` places, else the sum of the distances of its pieces.
pub open spec fn wreath_cost(state: Seq<usize>, sol: Seq<usize>, t: Seq<Seq<i32>>, wild: int) -> int {
    if mismatches(state, sol, state.len() as int) <= wild {
        0
    } else {
        table_sum(state, t, state.len() as int)
    }
}

pub proof fn lemma_table_sum_bound(state: Seq<usize>, t: Seq<Seq<i32>>, k: int)
    requires
        0 <= k <= state.len(),
        values_below(state, t.len()),
        table_ok(t, state.len() as int),
    ensures
        0 <= table_sum(state, t, k) <= k * far_cost(),
    decreases k,
{
    if k > 0 {
        lemma_table_sum_bound(state, t, k - 1);
        assert(state[k - 1] < t.len());
        assert(0 <= t[state[k - 1] as int][k - 1] <= far_cost());
    }
}

proof fn lemma_mismatches_bound(state: Seq<usize>, sol: Seq<usize>, k: int)
    requires
        k >= 0,
    ensures
        0 <= mismatches(state, sol, k) <= k,
    decreases k,
{
    if k > 0 {
        lemma_mismatches_bound(state, sol, k - 1);
    }
}

/// The cost of `state` (`wreath_cost`), summed in `i64`.
pub fn calc_cost(state: &Vec<usize>, sol_state: &Vec<usize>, cost_table: &Vec<Vec<i32>>, num_wildcards: i16) -> (r: i64)
    requires
        state.len() == sol_state.len(),
        state.len() <= 1000000,
        values_below(state@, cost_table.len() as nat),
        table_ok(table_rows(cost_table@), state.len() as int),
    ensures
        r == wreath_cost(state@, sol_state@, table_rows(cost_table@), num_wildcards as int),
{
    let ghost t = table_rows(cost_table@);
    let mut dif: i64 = 0;
    let mut cost: i64 = 0;
    let mut i: usize = 0;
    while i < state.len()
        invariant
            i <= state.len() <= 1000000,
            state.len() == sol_state.len(),
            t == table_rows(cost_table@),
            values_below(state@, cost_table.len() as nat),
            table_ok(t, state.len() as int),
            cost == table_sum(state@, t, i as int),
            dif == mismatches(state@, sol_state@, i as int),
        decreases state.len() - i,
    {
        let v = state[i];
        assert(t[v as int] == cost_table@[v as int]@);
        proof {
            lemma_table_sum_bound(state@, t, i as int);
            lemma_mismatches_bound(state@, sol_state@, i as int);
            assert(i * far_cost() <= 1000000 * far_cost()) by (nonlinear_arith)
                requires
                    i <= 1000000,
            ;
        }
        cost = cost + cost_table[v][i] as i64;
        if sol_state[i] != v {
            dif = dif + 1;
        }
        i = i + 1;
    }
    if dif <= num_wildcards as i64 {
        0
    } else {
        cost
    }
}

/// The change of the cost sum made by the pairs `act` of a move on `base`:
/// each pair `(p0, p1)` takes away the distance of the piece at `p0` and
/// adds that of the piece coming from `p1`.
pub open spec fn cost_delta(base: Seq<usize>, t: Seq<Seq<i32>>, act: Seq<(usize, usize)>) -> int
    decreases act.len(),
{
    if act.len() == 0 {
        0
    } else {
        let (p0, p1) = act.last();
        cost_delta(base, t, act.drop_last()) - t[base[p0 as int] as int][p0 as int] + t[base[p1 as int] as int][p0 as int]
    }
}

/// The change of the number of differing places made by the pairs `act`.
pub open spec fn dif_delta(base: Seq<usize>, sol: Seq<usize>, act: Seq<(usize, usize)>) -> int
    decreases act.len(),
{
    if act.len() == 0 {
        0
    } else {
        let (p0, p1) = act.last();
        dif_delta(base, sol, act.drop_last()) - (if base[p0 as int] != sol[p0 as int] {
            1int
        } else {
            0int
        }) + (if base[p1 as int] != sol[p0 as int] {
            1int
        } else {
            0int
        })
    }
}

proof fn lemma_delta_bounds(base: Seq<usize>, sol: Seq<usize>, t: Seq<Seq<i32>>, act: Seq<(usize, usize)>)
    requires
        action_fits(act, base.len()),
        values_below(base, t.len()),
        table_ok(t, base.len() as int),
    ensures
        -act.len() * far_cost() <= cost_delta(base, t, act) <= act.len() * far_cost(),
        -act.len() <= dif_delta(base, sol, act) <= act.len(),
    decreases act.len(),
{
    if act.len() > 0 {
        assert(action_fits(act.drop_last(), base.len())) by {
            assert forall|k: int| 0 <= k < act.drop_last().len() implies #[trigger] act.drop_last()[k].0 < base.len() && act.drop_last()[k].1 < base.len() by {
                assert(act.drop_last()[k] == act[k]);
                assert(act[k].0 < base.len() && act[k].1 < base.len());
            }
        }
        lemma_delta_bounds(base, sol, t, act.drop_last());
        let l = act.len() - 1;
        assert(act[l].0 < base.len() && act[l].1 < base.len());
        assert(base[act[l].0 as int] < t.len() && base[act[l].1 as int] < t.len());
        assert(0 <= t[base[act[l].0 as int] as int][act[l].0 as int] <= far_cost());
        assert(0 <= t[base[act[l].1 as int] as int][act[l].0 as int] <= far_cost());
        assert((act.len() - 1) * far_cost() + far_cost() == act.len() * far_cost()) by (nonlinear_arith);
    }
}

/// The cost after the move `action` on `base_state`, found from the cost
/// `current_cost` of `base_state` by the changes at the places it moves:
/// 0 when the moved state differs from the solved state in at most
/// `num_wildcards` places, else `current_cost + cost_delta`.
pub fn calc_cost_dif(
    base_state: &Vec<usize>,
    sol_state: &Vec<usize>,
    cost_table: &Vec<Vec<i32>>,
    action: &Vec<(usize, usize)>,
    current_cost: i64,
    num_wildcards: i16,
) -> (r: i64)
    requires
        base_state.len() == sol_state.len(),
        base_state.len() <= 1000000,
        action.len() <= 1000000,
        action_fits(action@, base_state.len() as nat),
        values_below(base_state@, cost_table.len() as nat),
        table_ok(table_rows(cost_table@), base_state.len() as int),
        0 <= current_cost <= 1000000 * far_cost(),
    ensures
        r == if mismatches(base_state@, sol_state@, base_state.len() as int) + dif_delta(base_state@, sol_state@, action@)
            <= num_wildcards {
            0
        } else {
            current_cost + cost_delta(base_state@, table_rows(cost_table@), action@)
        },
{
    let ghost t = table_rows(cost_table@);
    let mut cost = current_cost;
    let mut dif: i64 = 0;
    let mut i: usize = 0;
    while i < base_state.len()
        invariant
            i <= base_state.len() <= 1000000,
            base_state.len() == sol_state.len(),
            dif == mismatches(base_state@, sol_state@, i as int),
        decreases base_state.len() - i,
    {
        proof {
            lemma_mismatches_bound(base_state@, sol_state@, i as int);
        }
        if sol_state[i] != base_state[i] {
            dif = dif + 1;
        }
        i = i + 1;
    }
    let ghost dif0 = dif as int;
    proof {
        lemma_mismatches_bound(base_state@, sol_state@, base_state.len() as int);
    }
    assert(action@.take(0) =~= Seq::<(usize, usize)>::empty());
    let mut k: usize = 0;
    while k < action.len()
        invariant
            k <= action.len() <= 1000000,
            base_state.len() == sol_state.len(),
            base_state.len() <= 1000000,
            t == table_rows(cost_table@),
            action_fits(action@, base_state.len() as nat),
            values_below(base_state@, cost_table.len() as nat),
            table_ok(t, base_state.len() as int),
            0 <= current_cost <= 1000000 * far_cost(),
            0 <= dif0 <= 1000000,
            cost == current_cost + cost_delta(base_state@, t, action@.take(k as int)),
            dif == dif0 + dif_delta(base_state@, sol_state@, action@.take(k as int)),
        decreases action.len() - k,
    {
        let (p0, p1) = action[k];
        assert(action@.take(k + 1).drop_last() =~= action@.take(k as int));
        assert(action@.take(k + 1).last() == (p0, p1));
        assert(p0 < base_state.len() && p1 < base_state.len());
        let a = base_state[p0];
        let b = base_state[p1];
        assert(t[a as int] == cost_table@[a as int]@);
        assert(t[b as int] == cost_table@[b as int]@);
        proof {
            assert(action_fits(action@.take(k as int), base_state.len() as nat)) by {
                assert forall|j: int| 0 <= j < action@.take(k as int).len() implies #[trigger] action@.take(k as int)[j].0 < base_state.len() && action@.take(k as int)[j].1 < base_state.len() by {
                    assert(action@.take(k as int)[j] == action@[j]);
                }
            }
            lemma_delta_bounds(base_state@, sol_state@, t, action@.take(k as int));
            assert(k * far_cost() <= 1000000 * far_cost()) by (nonlinear_arith)
                requires
                    k <= 1000000,
            ;
        }
        cost = cost - cost_table[a][p0] as i64;
        cost = cost + cost_table[b][p0] as i64;
        if a != sol_state[p0] {
            dif = dif - 1;
        }
        if b != sol_state[p0] {
            dif = dif + 1;
        }
        k = k + 1;
    }
    assert(action@.take(action.len() as int) =~= action@);
    if dif <= num_wildcards as i64 {
        0
    } else {
        cost
    }
}

/// No two pairs of the move write the same place.
pub open spec fn targets_distinct(act: Seq<(usize, usize)>) -> bool {
    forall|a: int, b: int| 0 <= a < b < act.len() ==> (#[trigger] act[a]).0 != (#[trigger] act[b]).0
}

proof fn lemma_untouched(base: Seq<usize>, orig: Seq<usize>, act: Seq<(usize, usize)>, p: int)
    requires
        forall|k: int| 0 <= k < act.len() ==> (#[trigger] act[k]).0 != p,
        action_fits(act, base.len()),
        orig.len() == base.len(),
        0 <= p < base.len(),
    ensures
        apply_pairs(base, orig, act).len() == base.len(),
        apply_pairs(base, orig, act)[p] == base[p],
    decreases act.len(),
{
    if act.len() > 0 {
        assert forall|k: int| 0 <= k < act.drop_last().len() implies (#[trigger] act.drop_last()[k]).0 != p by {
            assert(act.drop_last()[k] == act[k]);
        }
        assert(action_fits(act.drop_last(), base.len())) by {
            assert forall|k: int| 0 <= k < act.drop_last().len() implies #[trigger] act.drop_last()[k].0 < base.len() && act.drop_last()[k].1 < base.len() by {
                assert(act.drop_last()[k] == act[k]);
                assert(act[k].0 < base.len() && act[k].1 < base.len());
            }
        }
        lemma_untouched(base, orig, act.drop_last(), p);
        assert(act[act.len() - 1].0 != p);
        assert(act[act.len() - 1].0 < base.len());
    }
}

proof fn lemma_sum_update(s: Seq<usize>, t: Seq<Seq<i32>>, p: int, v: usize, k: int)
    requires
        0 <= p < s.len(),
        k <= s.len(),
    ensures
        table_sum(s.update(p, v), t, k) == table_sum(s, t, k) + if p < k {
            t[v as int][p] - t[s[p] as int][p]
        } else {
            0
        },
        mismatches(s.update(p, v), s, k) >= 0,
    decreases k,
{
    if k > 0 {
        lemma_sum_update(s, t, p, v, k - 1);
    }
}

proof fn lemma_mis_update(s: Seq<usize>, sol: Seq<usize>, p: int, v: usize, k: int)
    requires
        0 <= p < s.len(),
        k <= s.len(),
    ensures
        mismatches(s.update(p, v), sol, k) == mismatches(s, sol, k) + if p < k {
            (if v != sol[p] { 1int } else { 0int }) - (if s[p] != sol[p] { 1int } else { 0int })
        } else {
            0
        },
    decreases k,
{
    if k > 0 {
        lemma_mis_update(s, sol, p, v, k - 1);
    }
}

/// For a move whose pairs write distinct places, the changes that
/// `calc_cost_dif` adds up are exactly the change of the cost sum and of
/// the number of differing places: starting from the exact cost of `base`,
/// it gives the exact cost (`wreath_cost`) of the moved state.
pub proof fn lemma_cost_dif_exact(base: Seq<usize>, sol: Seq<usize>, t: Seq<Seq<i32>>, act: Seq<(usize, usize)>)
    requires
        action_fits(act, base.len()),
        targets_distinct(act),
        base.len() == sol.len(),
    ensures
        apply_pairs(base, base, act).len() == base.len(),
        table_sum(apply_pairs(base, base, act), t, base.len() as int) == table_sum(base, t, base.len() as int)
            + cost_delta(base, t, act),
        mismatches(apply_pairs(base, base, act), sol, base.len() as int) == mismatches(base, sol, base.len() as int)
            + dif_delta(base, sol, act),
    decreases act.len(),
{
    let n = base.len() as int;
    if act.len() == 0 {
    } else {
        let a2 = act.drop_last();
        assert(action_fits(a2, base.len())) by {
            assert forall|k: int| 0 <= k < a2.len() implies #[trigger] a2[k].0 < base.len() && a2[k].1 < base.len() by {
                assert(a2[k] == act[k]);
                assert(act[k].0 < base.len() && act[k].1 < base.len());
            }
        }
        assert(targets_distinct(a2)) by {
            assert forall|a: int, b: int| 0 <= a < b < a2.len() implies (#[trigger] a2[a]).0 != (#[trigger] a2[b]).0 by {
                assert(a2[a] == act[a] && a2[b] == act[b]);
            }
        }
        lemma_cost_dif_exact(base, sol, t, a2);
        let l = act.len() - 1;
        let (p0, p1) = act[l];
        assert(p0 < base.len() && p1 < base.len());
        let s = apply_pairs(base, base, a2);
        assert forall|k: int| 0 <= k < a2.len() implies (#[trigger] a2[k]).0 != p0 as int by {
            assert(a2[k] == act[k]);
            assert(act[k].0 != act[l].0);
        }
        lemma_untouched(base, base, a2, p0 as int);
        assert(s[p0 as int] == base[p0 as int]);
        assert(apply_pairs(base, base, act) == s.update(p0 as int, base[p1 as int]));
        lemma_sum_update(s, t, p0 as int, base[p1 as int], n);
        lemma_mis_update(s, sol, p0 as int, base[p1 as int], n);
    }
}

} // verus!
