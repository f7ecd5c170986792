//! Shortest-path search over packed positions: a priority queue ordered by
//! `(cost, position)` and Dijkstra's algorithm recording, for each position,
//! the position and move it was first reached from on a cheapest path.
use vstd::prelude::*;
use std::collections::HashMap;
use crate::four_faces::{apply_action_to_packed_perm, permuted_bits, sticker_move};

verus! {

broadcast use vstd::std_specs::hash::group_hash_axioms;

/// `a` comes before `b`: lower cost, then lower position.
pub open spec fn entry_lt(a: (i32, u32), b: (i32, u32)) -> bool {
    a.0 < b.0 || (a.0 == b.0 && a.1 < b.1)
}

/// Entries in decreasing order, so that the least is last.
pub open spec fn sorted_desc(q: Seq<(i32, u32)>) -> bool {
    forall|i: int, j: int| 0 <= i < j < q.len() ==> !entry_lt(#[trigger] q[i], #[trigger] q[j])
}

/// Adds `x` to a queue kept in decreasing order.
pub fn queue_push(q: &mut Vec<(i32, u32)>, x: (i32, u32))
    requires
        sorted_desc(old(q)@),
    ensures
        sorted_desc(final(q)@),
        final(q).len() == old(q).len() + 1,
        forall|e: (i32, u32)| final(q)@.contains(e) <==> (old(q)@.contains(e) || e == x),
{
    let mut k: usize = 0;
    while k < q.len() && (x.0 < q[k].0 || (x.0 == q[k].0 && x.1 < q[k].1))
        invariant
            k <= q.len(),
            q@ == old(q)@,
            forall|i: int| 0 <= i < k ==> entry_lt(x, #[trigger] q@[i]),
        decreases q.len() - k,
    {
        k = k + 1;
    }
    let ghost before = q@;
    q.insert(k, x);
    assert(q@ == before.insert(k as int, x));
    assert forall|i: int, j: int| 0 <= i < j < q@.len() implies !entry_lt(
        #[trigger] q@[i],
        #[trigger] q@[j],
    ) by {
        if j < k {
            assert(q@[i] == before[i] && q@[j] == before[j]);
        } else if j == k {
            assert(q@[i] == before[i]);
        } else if i == k {
            assert(q@[j] == before[j - 1]);
            if k < before.len() {
                assert(!entry_lt(x, before[k as int]));
                if j - 1 > k {
                    assert(!entry_lt(before[k as int], before[j - 1]));
                }
            }
        } else if i < k {
            assert(q@[i] == before[i] && q@[j] == before[j - 1]);
        } else {
            assert(q@[i] == before[i - 1] && q@[j] == before[j - 1]);
        }
    }
    assert forall|e: (i32, u32)| q@.contains(e) <==> (before.contains(e) || e == x) by {
        if q@.contains(e) {
            let i = choose|i: int| 0 <= i < q@.len() && q@[i] == e;
            if i < k {
                assert(before[i] == e);
            } else if i > k {
                assert(before[i - 1] == e);
            }
        }
        if before.contains(e) {
            let i = choose|i: int| 0 <= i < before.len() && before[i] == e;
            if i < k {
                assert(q@[i] == e);
            } else {
                assert(q@[i + 1] == e);
            }
        }
        if e == x {
            assert(q@[k as int] == x);
        }
    }
}

/// Sum of the costs.
pub open spec fn cost_sum(c: Seq<i32>) -> int
    decreases c.len(),
{
    if c.len() == 0 {
        0
    } else {
        cost_sum(c.drop_last()) + c.last()
    }
}

pub proof fn lemma_cost_sum_update(c: Seq<i32>, i: int, v: i32)
    requires
        0 <= i < c.len(),
    ensures
        cost_sum(c.update(i, v)) == cost_sum(c) - c[i] + v,
    decreases c.len(),
{
    let u = c.update(i, v);
    if i < c.len() - 1 {
        lemma_cost_sum_update(c.drop_last(), i, v);
        assert(u.drop_last() =~= c.drop_last().update(i, v));
    } else {
        assert(u.drop_last() =~= c.drop_last());
    }
}

pub proof fn lemma_cost_sum_nonneg(c: Seq<i32>)
    requires
        forall|i: int| 0 <= i < c.len() ==> #[trigger] c[i] >= 0,
    ensures
        cost_sum(c) >= 0,
    decreases c.len(),
{
    if c.len() > 0 {
        assert forall|i: int| 0 <= i < c.drop_last().len() implies #[trigger] c.drop_last()[i]
            >= 0 by {
            assert(c.drop_last()[i] == c[i]);
        }
        lemma_cost_sum_nonneg(c.drop_last());
    }
}

/// `map` sends each key to an index of `list` that holds that key.
pub open spec fn map_indexes(list: Seq<u32>, map: Map<u32, usize>) -> bool {
    forall|x: u32| #[trigger]
        map.contains_key(x) ==> map[x] < list.len() && list[map[x] as int] == x
}

/// The views of a table of moves with costs.
pub open spec fn table_view(actions: Seq<(Vec<usize>, i32)>) -> Seq<(Seq<usize>, i32)> {
    actions.map_values(|e: (Vec<usize>, i32)| (e.0@, e.1))
}

/// A table of moves on the 16 stickers, each with a cost of at least one.
pub open spec fn move_costs_ok(actions: Seq<(Seq<usize>, i32)>) -> bool {
    forall|k: int| 0 <= k < actions.len() ==> sticker_move(#[trigger] actions[k].0) && actions[k].1 >= 1
}

/// Every recorded step is a move of the table: position `i` is reached from
/// position `prev_state[i]` by the move `prev_action[i]`.
pub open spec fn steps_valid(
    list: Seq<u32>,
    actions: Seq<(Seq<usize>, i32)>,
    prev_state: Seq<Option<usize>>,
    prev_action: Seq<Option<usize>>,
) -> bool {
    &&& prev_state.len() == list.len()
    &&& prev_action.len() == list.len()
    &&& forall|i: int|
        0 <= i < list.len() ==> (#[trigger] prev_state[i] is Some <==> prev_action[i] is Some)
    &&& forall|i: int|
        0 <= i < list.len() && #[trigger] prev_state[i] is Some ==> {
            let p = prev_state[i]->0;
            let a = prev_action[i]->0;
            &&& p < list.len()
            &&& a < actions.len()
            &&& permuted_bits(list[p as int], actions[a as int].0, 16) == list[i]
        }
}

/// Every recorded step goes down a rank, so following them always ends.
pub open spec fn steps_ranked(prev_state: Seq<Option<usize>>, rank: Seq<int>) -> bool {
    &&& rank.len() == prev_state.len()
    &&& forall|i: int| 0 <= i < rank.len() ==> #[trigger] rank[i] >= 0
    &&& forall|i: int|
        0 <= i < prev_state.len() && #[trigger] prev_state[i] is Some ==> prev_state[i]->0
            < prev_state.len() && rank[prev_state[i]->0 as int] < rank[i]
}

/// Predecessor tables that can be followed back from any position.
pub open spec fn path_tables(
    list: Seq<u32>,
    actions: Seq<(Seq<usize>, i32)>,
    prev_state: Seq<Option<usize>>,
    prev_action: Seq<Option<usize>>,
) -> bool {
    &&& steps_valid(list, actions, prev_state, prev_action)
    &&& exists|rank: Seq<int>| steps_ranked(prev_state, rank)
}

/// Some move of `actions` takes a position of `list` to one the map does
/// not know.
#[verifier::opaque]
pub open spec fn leaves_map(list: Seq<u32>, map: Map<u32, usize>, actions: Seq<(Seq<usize>, i32)>) -> bool {
    exists|i: int, a: int|
        0 <= i < list.len() && 0 <= a < actions.len() && !map.contains_key(
            permuted_bits(#[trigger] list[i], #[trigger] actions[a].0, 16),
        )
}

/// The place in the map of the position that move `a` leads to from
/// position `i` of `list`.
pub open spec fn next_place(list: Seq<u32>, map: Map<u32, usize>, actions: Seq<(Seq<usize>, i32)>, i: int, a: int) -> int {
    map[permuted_bits(list[i], actions[a].0, 16)] as int
}

/// Move `a` from position `i` leads to a position of the map, and that
/// position costs no more than `i` plus the move (unless that sum leaves
/// `i32`).
pub open spec fn move_relaxed(
    list: Seq<u32>,
    map: Map<u32, usize>,
    actions: Seq<(Seq<usize>, i32)>,
    cost: Seq<i32>,
    i: int,
    a: int,
) -> bool {
    &&& map.contains_key(permuted_bits(list[i], actions[a].0, 16))
    &&& (cost[i] + actions[a].1 > i32::MAX || cost[next_place(list, map, actions, i, a)] <= cost[i] + actions[a].1)
}

/// Every move from position `i` is relaxed.
pub open spec fn relaxed(list: Seq<u32>, map: Map<u32, usize>, actions: Seq<(Seq<usize>, i32)>, cost: Seq<i32>, i: int) -> bool {
    forall|a: int| 0 <= a < actions.len() ==> #[trigger] move_relaxed(list, map, actions, cost, i, a)
}

/// The predecessor tables lie on cheapest paths from `root`, with `cost`
/// the least total move cost of each position (`i32::MAX` for those not
/// reached): the root costs 0 and has no step; a position other than the
/// root has a step exactly when it is reached; each step's cost is that of
/// its predecessor plus the move; and from every reached position every
/// move is relaxed, so no path is cheaper (`lemma_cheapest_walk`).
pub open spec fn cheapest_tables(
    list: Seq<u32>,
    map: Map<u32, usize>,
    actions: Seq<(Seq<usize>, i32)>,
    prev_state: Seq<Option<usize>>,
    prev_action: Seq<Option<usize>>,
    root: int,
    cost: Seq<i32>,
) -> bool {
    &&& steps_valid(list, actions, prev_state, prev_action)
    &&& cost.len() == list.len()
    &&& 0 <= root < list.len()
    &&& cost[root] == 0
    &&& prev_state[root] is None
    &&& forall|i: int| 0 <= i < list.len() ==> #[trigger] cost[i] >= 0
    &&& forall|i: int| 0 <= i < list.len() && i != root ==> (#[trigger] prev_state[i] is Some <==> cost[i] < i32::MAX)
    &&& forall|i: int|
        0 <= i < list.len() && #[trigger] prev_state[i] is Some ==> cost[i] == cost[prev_state[i]->0 as int]
            + actions[prev_action[i]->0 as int].1
    &&& forall|i: int| 0 <= i < list.len() && cost[i] < i32::MAX ==> #[trigger] relaxed(list, map, actions, cost, i)
    &&& forall|i: int| 0 <= i < list.len() && #[trigger] cost[i] < i32::MAX ==> map.contains_key(list[i]) && map[list[i]] == i
}

/// The place reached from place `i` by the moves `w` in turn (`None` when
/// a move leaves the map), and their total cost.
pub open spec fn walk_end(list: Seq<u32>, map: Map<u32, usize>, actions: Seq<(Seq<usize>, i32)>, i: int, w: Seq<int>) -> Option<int>
    decreases w.len(),
{
    if w.len() == 0 {
        Some(i)
    } else if 0 <= i < list.len() && 0 <= w[0] < actions.len() && map.contains_key(permuted_bits(list[i], actions[w[0]].0, 16)) {
        walk_end(list, map, actions, next_place(list, map, actions, i, w[0]), w.drop_first())
    } else {
        None
    }
}

/// The total cost of the moves `w`.
pub open spec fn walk_cost(actions: Seq<(Seq<usize>, i32)>, w: Seq<int>) -> int
    decreases w.len(),
{
    if w.len() == 0 {
        0
    } else {
        actions[w[0]].1 + walk_cost(actions, w.drop_first())
    }
}

/// Cheapest paths: from a reached place, any walk of moves of the table
/// whose total stays below `i32::MAX` stays in the map and ends at a place
/// that costs no more than the start plus the walk. With the root's cost 0,
/// no path from the root is cheaper than the recorded cost, and every place
/// so reached has a step.
pub proof fn lemma_cheapest_walk(
    list: Seq<u32>,
    map: Map<u32, usize>,
    actions: Seq<(Seq<usize>, i32)>,
    prev_state: Seq<Option<usize>>,
    prev_action: Seq<Option<usize>>,
    root: int,
    cost: Seq<i32>,
    i: int,
    w: Seq<int>,
)
    requires
        cheapest_tables(list, map, actions, prev_state, prev_action, root, cost),
        map_indexes(list, map),
        move_costs_ok(actions),
        0 <= i < list.len(),
        cost[i] < i32::MAX,
        forall|k: int| 0 <= k < w.len() ==> 0 <= #[trigger] w[k] < actions.len(),
        cost[i] + walk_cost(actions, w) < i32::MAX,
    ensures
        walk_end(list, map, actions, i, w) is Some,
        0 <= walk_end(list, map, actions, i, w)->0 < list.len(),
        cost[walk_end(list, map, actions, i, w)->0] <= cost[i] + walk_cost(actions, w),
    decreases w.len(),
{
    if w.len() > 0 {
        let a = w[0];
        assert(0 <= a < actions.len());
        assert(relaxed(list, map, actions, cost, i));
        assert(move_relaxed(list, map, actions, cost, i, a));
        lemma_walk_cost_nonneg(actions, w.drop_first());
        let n = next_place(list, map, actions, i, a);
        assert(cost[n] <= cost[i] + actions[a].1);
        assert forall|k: int| 0 <= k < w.drop_first().len() implies 0 <= #[trigger] w.drop_first()[k] < actions.len() by {
            assert(w.drop_first()[k] == w[k + 1]);
        }
        lemma_cheapest_walk(list, map, actions, prev_state, prev_action, root, cost, n, w.drop_first());
    }
}

proof fn lemma_walk_cost_nonneg(actions: Seq<(Seq<usize>, i32)>, w: Seq<int>)
    requires
        move_costs_ok(actions),
        forall|k: int| 0 <= k < w.len() ==> 0 <= #[trigger] w[k] < actions.len(),
    ensures
        walk_cost(actions, w) >= 0,
    decreases w.len(),
{
    if w.len() > 0 {
        assert(0 <= w[0] < actions.len());
        assert(sticker_move(actions[w[0]].0) && actions[w[0]].1 >= 1);
        assert forall|k: int| 0 <= k < w.drop_first().len() implies 0 <= #[trigger] w.drop_first()[k] < actions.len() by {
            assert(w.drop_first()[k] == w[k + 1]);
        }
        lemma_walk_cost_nonneg(actions, w.drop_first());
    }
}

proof fn lemma_relaxed_lower(
    list: Seq<u32>,
    map: Map<u32, usize>,
    actions: Seq<(Seq<usize>, i32)>,
    cost: Seq<i32>,
    cost2: Seq<i32>,
    i: int,
    upto: int,
)
    requires
        cost2.len() == cost.len(),
        0 <= i < cost.len(),
        cost2[i] == cost[i],
        forall|k: int| 0 <= k < cost.len() ==> #[trigger] cost2[k] <= cost[k],
        map_indexes(list, map),
        list.len() == cost.len(),
        forall|a: int| 0 <= a < upto ==> #[trigger] move_relaxed(list, map, actions, cost, i, a),
    ensures
        forall|a: int| 0 <= a < upto ==> #[trigger] move_relaxed(list, map, actions, cost2, i, a),
{
    assert forall|a: int| 0 <= a < upto implies #[trigger] move_relaxed(list, map, actions, cost2, i, a) by {
        assert(move_relaxed(list, map, actions, cost, i, a));
        let x = permuted_bits(list[i], actions[a].0, 16);
        let nk = next_place(list, map, actions, i, a);
        assert(nk < list.len());
        assert(cost2[nk] <= cost[nk]);
    }
}

proof fn lemma_pop_keeps(qb: Seq<(i32, u32)>, e: (i32, u32))
    requires
        qb.len() > 0,
        qb.contains(e),
        e != qb[qb.len() - 1],
    ensures
        qb.subrange(0, qb.len() - 1).contains(e),
{
    let k = choose|k: int| 0 <= k < qb.len() && qb[k] == e;
    assert(qb.subrange(0, qb.len() - 1)[k] == e);
}

/// Dijkstra's algorithm from `start` over the positions of `perm_list`, with
/// the queue ordered by `(cost, position)`. Returns, for each position, the
/// position and move through which a cheapest path first reached it
/// (`cheapest_tables`), or `None` when a move leads to a position that the
/// map does not know.
#[verifier::spinoff_prover]
pub fn dijkstra_packed(
    start: u32,
    perm_list: &Vec<u32>,
    perm_map: &HashMap<u32, usize>,
    actions: &Vec<(Vec<usize>, i32)>,
) -> (r: Option<(Vec<Option<usize>>, Vec<Option<usize>>)>)
    requires
        map_indexes(perm_list@, perm_map@),
        perm_map@.contains_key(start),
        move_costs_ok(table_view(actions@)),
    ensures
        match r {
            Some((prev_state, prev_action)) => path_tables(
                perm_list@,
                table_view(actions@),
                prev_state@,
                prev_action@,
            ) && prev_state@[perm_map@[start] as int] is None && exists|cost: Seq<i32>|
                cheapest_tables(
                    perm_list@,
                    perm_map@,
                    table_view(actions@),
                    prev_state@,
                    prev_action@,
                    perm_map@[start] as int,
                    cost,
                ),
            None => leaves_map(perm_list@, perm_map@, table_view(actions@)),
        },
{
    let ghost lst = perm_list@;
    let ghost mp = perm_map@;
    let ghost tv = table_view(actions@);
    let n = perm_list.len();
    let mut prev_state: Vec<Option<usize>> = vec![None; n];
    let mut prev_action: Vec<Option<usize>> = vec![None; n];
    let mut cost: Vec<i32> = vec![i32::MAX; n];
    let mut queue: Vec<(i32, u32)> = Vec::new();
    let start_idx = *perm_map.get(&start).unwrap();
    cost.set(start_idx, 0);
    queue_push(&mut queue, (0, start));
    proof {
        assert forall|i: int| 0 <= i < n implies #[trigger] cost@[i] >= 0 by {}
        lemma_cost_sum_nonneg(cost@);
        assert(queue@.contains((cost@[start_idx as int], lst[start_idx as int])));
    }
    while queue.len() > 0
        invariant
            n == perm_list.len(),
            lst == perm_list@,
            mp == perm_map@,
            tv == table_view(actions@),
            tv.len() == actions.len(),
            map_indexes(perm_list@, perm_map@),
            move_costs_ok(table_view(actions@)),
            start_idx == perm_map@[start],
            start_idx < n,
            cost.len() == n,
            cost@[start_idx as int] == 0,
            forall|i: int| 0 <= i < n ==> #[trigger] cost@[i] >= 0,
            sorted_desc(queue@),
            forall|e: (i32, u32)| #[trigger] queue@.contains(e) ==> perm_map@.contains_key(e.1),
            steps_valid(perm_list@, table_view(actions@), prev_state@, prev_action@),
            steps_ranked(prev_state@, cost@.map_values(|c: i32| c as int)),
            prev_state@[start_idx as int] is None,
            forall|i: int| 0 <= i < n && i != start_idx ==> (#[trigger] prev_state@[i] is Some <==> cost@[i] < i32::MAX),
            forall|i: int|
                0 <= i < n && #[trigger] prev_state@[i] is Some ==> cost@[i] >= cost@[prev_state@[i]->0 as int]
                    + tv[prev_action@[i]->0 as int].1,
            forall|i: int| 0 <= i < n && #[trigger] cost@[i] < i32::MAX ==> mp.contains_key(lst[i]) && mp[lst[i]] == i,
            forall|i: int|
                0 <= i < n && cost@[i] < i32::MAX ==> queue@.contains((cost@[i], lst[i])) || #[trigger] relaxed(
                    lst,
                    mp,
                    tv,
                    cost@,
                    i,
                ),
        decreases 2 * cost_sum(cost@) + queue.len(),
    {
        let ghost measure = 2 * cost_sum(cost@) + queue.len();
        let ghost qb = queue@;
        let (cur_cost, state) = queue.pop().unwrap();
        assert(qb[qb.len() - 1] == (cur_cost, state));
        assert(qb.contains((cur_cost, state)));
        assert(queue@ =~= qb.subrange(0, qb.len() - 1));
        assert forall|e: (i32, u32)| #[trigger] queue@.contains(e) implies perm_map@.contains_key(
            e.1,
        ) by {
            let i = choose|i: int| 0 <= i < queue@.len() && queue@[i] == e;
            assert(qb[i] == e);
            assert(qb.contains(e));
        }
        assert(sorted_desc(queue@)) by {
            assert forall|i: int, j: int| 0 <= i < j < queue@.len() implies !entry_lt(
                #[trigger] queue@[i],
                #[trigger] queue@[j],
            ) by {
                assert(queue@[i] == qb[i] && queue@[j] == qb[j]);
            }
        }
        let idx = *perm_map.get(&state).unwrap();
        let c = cost[idx];
        proof {
            assert forall|i: int|
                0 <= i < n && cost@[i] < i32::MAX && i != idx implies queue@.contains((cost@[i], lst[i])) || #[trigger] relaxed(
                lst,
                mp,
                tv,
                cost@,
                i,
            ) by {
                if !relaxed(lst, mp, tv, cost@, i) {
                    assert(qb.contains((cost@[i], lst[i])));
                    if (cost@[i], lst[i]) == qb[qb.len() - 1] {
                        assert(mp[lst[i]] == i);
                    } else {
                        lemma_pop_keeps(qb, (cost@[i], lst[i]));
                    }
                }
            }
        }
        if cur_cost > c {
            proof {
                lemma_cost_sum_nonneg(cost@);
                if c < i32::MAX && !relaxed(lst, mp, tv, cost@, idx as int) {
                    assert(qb.contains((cost@[idx as int], lst[idx as int])));
                    lemma_pop_keeps(qb, (cost@[idx as int], lst[idx as int]));
                }
            }
            continue;
        }
        let mut action_idx: usize = 0;
        while action_idx < actions.len()
            invariant
                n == perm_list.len(),
                lst == perm_list@,
                mp == perm_map@,
                tv == table_view(actions@),
                tv.len() == actions.len(),
                map_indexes(perm_list@, perm_map@),
                move_costs_ok(table_view(actions@)),
                start_idx == perm_map@[start],
                start_idx < n,
                idx < n,
                perm_list@[idx as int] == state,
                cost.len() == n,
                cost@[idx as int] == c,
                c >= 0,
                cost@[start_idx as int] == 0,
                forall|i: int| 0 <= i < n ==> #[trigger] cost@[i] >= 0,
                sorted_desc(queue@),
                forall|e: (i32, u32)| #[trigger] queue@.contains(e) ==> perm_map@.contains_key(e.1),
                steps_valid(perm_list@, table_view(actions@), prev_state@, prev_action@),
                steps_ranked(prev_state@, cost@.map_values(|c: i32| c as int)),
                prev_state@[start_idx as int] is None,
                2 * cost_sum(cost@) + queue.len() < measure,
                forall|i: int| 0 <= i < n && i != start_idx ==> (#[trigger] prev_state@[i] is Some <==> cost@[i] < i32::MAX),
                forall|i: int|
                    0 <= i < n && #[trigger] prev_state@[i] is Some ==> cost@[i] >= cost@[prev_state@[i]->0 as int]
                        + tv[prev_action@[i]->0 as int].1,
                forall|i: int| 0 <= i < n && #[trigger] cost@[i] < i32::MAX ==> mp.contains_key(lst[i]) && mp[lst[i]] == i,
                forall|i: int|
                    0 <= i < n && cost@[i] < i32::MAX && i != idx ==> queue@.contains((cost@[i], lst[i])) || #[trigger] relaxed(
                        lst,
                        mp,
                        tv,
                        cost@,
                        i,
                    ),
                forall|a: int| 0 <= a < action_idx ==> #[trigger] move_relaxed(lst, mp, tv, cost@, idx as int, a),
            decreases actions.len() - action_idx,
        {
            assert(sticker_move(table_view(actions@)[action_idx as int].0) && table_view(
                actions@,
            )[action_idx as int].1 >= 1);
            let perm = &actions[action_idx].0;
            let action_cost = actions[action_idx].1;
            assert(tv[action_idx as int] == (perm@, action_cost));
            let next_state = apply_action_to_packed_perm(state, perm);
            let next_idx = match perm_map.get(&next_state) {
                Some(v) => *v,
                None => {
                    assert(table_view(actions@)[action_idx as int].0 == actions@[action_idx as int].0@);
                    assert(!perm_map@.contains_key(
                        permuted_bits(perm_list@[idx as int], table_view(actions@)[action_idx as int].0, 16),
                    ));
                    proof {
                        reveal(leaves_map);
                    }
                    return None;
                },
            };
            assert(next_idx as int == next_place(lst, mp, tv, idx as int, action_idx as int));
            match action_cost.checked_add(c) {
                Some(new_cost) => {
                    if new_cost < cost[next_idx] {
                        let ghost old_cost = cost@;
                        let ghost old_prev = prev_state@;
                        let ghost old_pa = prev_action@;
                        let ghost old_q = queue@;
                        proof {
                            lemma_cost_sum_update(cost@, next_idx as int, new_cost);
                        }
                        cost.set(next_idx, new_cost);
                        prev_state.set(next_idx, Some(idx));
                        prev_action.set(next_idx, Some(action_idx));
                        queue_push(&mut queue, (new_cost, next_state));
                        proof {
                            assert(next_idx != idx);
                            let rank = cost@.map_values(|c: i32| c as int);
                            assert forall|i: int|
                                0 <= i < prev_state@.len() && #[trigger] prev_state@[i] is Some implies
                                prev_state@[i]->0 < prev_state@.len() && rank[prev_state@[i]->0 as int]
                                < rank[i] by {
                                if i != next_idx {
                                    assert(old_prev[i] == prev_state@[i]);
                                }
                            }
                            assert(steps_ranked(prev_state@, rank));
                            assert forall|k: int| 0 <= k < n implies #[trigger] cost@[k] <= old_cost[k] by {}
                            assert forall|i: int|
                                0 <= i < n && #[trigger] prev_state@[i] is Some implies cost@[i] >= cost@[prev_state@[i]->0 as int]
                                    + tv[prev_action@[i]->0 as int].1 by {
                                if i != next_idx {
                                    assert(old_prev[i] == prev_state@[i] && old_pa[i] == prev_action@[i]);
                                    let j = prev_state@[i]->0 as int;
                                    assert(cost@[j] <= old_cost[j]);
                                }
                            }
                            assert forall|i: int| 0 <= i < n && #[trigger] cost@[i] < i32::MAX implies mp.contains_key(lst[i])
                                && mp[lst[i]] == i by {
                                if i == next_idx {
                                    assert(lst[next_idx as int] == next_state);
                                } else {
                                    assert(old_cost[i] == cost@[i]);
                                }
                            }
                            assert forall|i: int|
                                0 <= i < n && cost@[i] < i32::MAX && i != idx implies queue@.contains((cost@[i], lst[i])) || #[trigger] relaxed(
                                lst,
                                mp,
                                tv,
                                cost@,
                                i,
                            ) by {
                                if i == next_idx {
                                    assert(lst[next_idx as int] == next_state);
                                    assert(queue@.contains((new_cost, next_state)));
                                } else {
                                    assert(old_cost[i] == cost@[i]);
                                    if old_q.contains((cost@[i], lst[i])) {
                                        assert(queue@.contains((cost@[i], lst[i])));
                                    } else {
                                        assert(relaxed(lst, mp, tv, old_cost, i));
                                        lemma_relaxed_lower(lst, mp, tv, old_cost, cost@, i, tv.len() as int);
                                    }
                                }
                            }
                            lemma_relaxed_lower(lst, mp, tv, old_cost, cost@, idx as int, action_idx as int);
                            assert forall|e: (i32, u32)| #[trigger] queue@.contains(e) implies perm_map@.contains_key(e.1) by {
                                if e != (new_cost, next_state) {
                                    assert(old_q.contains(e));
                                }
                            }
                        }
                    }
                    assert(move_relaxed(lst, mp, tv, cost@, idx as int, action_idx as int));
                },
                None => {
                    assert(move_relaxed(lst, mp, tv, cost@, idx as int, action_idx as int));
                },
            }
            action_idx = action_idx + 1;
        }
        proof {
            lemma_cost_sum_nonneg(cost@);
            assert(relaxed(lst, mp, tv, cost@, idx as int));
        }
    }
    proof {
        assert(steps_ranked(prev_state@, cost@.map_values(|c: i32| c as int)));
        assert forall|i: int| 0 <= i < n && cost@[i] < i32::MAX implies #[trigger] relaxed(lst, mp, tv, cost@, i) by {
            if !relaxed(lst, mp, tv, cost@, i) {
                assert(queue@.contains((cost@[i], lst[i])));
            }
        }
        assert forall|i: int|
            0 <= i < lst.len() && #[trigger] prev_state@[i] is Some implies cost@[i] == cost@[prev_state@[i]->0 as int]
                + tv[prev_action@[i]->0 as int].1 by {
            let j = prev_state@[i]->0 as int;
            let a = prev_action@[i]->0 as int;
            assert(cost@[i] >= cost@[j] + tv[a].1);
            assert(i != start_idx);
            assert(cost@[i] < i32::MAX);
            assert(sticker_move(tv[a].0) && tv[a].1 >= 1);
            assert(cost@[j] < i32::MAX);
            assert(relaxed(lst, mp, tv, cost@, j));
            assert(move_relaxed(lst, mp, tv, cost@, j, a));
            assert(permuted_bits(lst[j], tv[a].0, 16) == lst[i]);
            assert(mp[lst[i]] == i);
        }
        assert(cheapest_tables(lst, mp, tv, prev_state@, prev_action@, start_idx as int, cost@));
    }
    Some((prev_state, prev_action))
}

} // verus!
