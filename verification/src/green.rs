//! The stage that finishes the last two faces (2 and 5) of a cube whose
//! pieces are all distinct. Eight stickers are tracked at a time, four on
//! each face; a position is the arrangement of those eight pieces, packed
//! three bits per piece, together with how far the inner corner ring of
//! each face is turned (four values each).
use vstd::prelude::*;
use std::collections::HashMap;
use itertools::Itertools;
use crate::four_faces::index_views;
use crate::perm::{apply_perm, gather};
use crate::search::{cost_sum, lemma_cost_sum_nonneg, lemma_cost_sum_update, steps_ranked};

verus! {

broadcast use vstd::std_specs::hash::group_hash_axioms;

/// The `k`-element arrangements of `s` (distinct positions of `s`, in
/// order), listed in lexicographic order of positions.
pub open spec fn arrangements(s: Seq<usize>, k: nat) -> Seq<Seq<usize>>
    decreases s.len(), 1int, 0int,
{
    if k == 0 {
        seq![Seq::<usize>::empty()]
    } else {
        arrangements_from(s, k, 0)
    }
}

/// The arrangements of `s` whose first entry is taken from position `i` or later.
pub open spec fn arrangements_from(s: Seq<usize>, k: nat, i: nat) -> Seq<Seq<usize>>
    decreases s.len(), 0int, s.len() - i,
{
    if k == 0 || i >= s.len() {
        Seq::<Seq<usize>>::empty()
    } else {
        arrangements(s.remove(i as int), (k - 1) as nat).map_values(
            |p: Seq<usize>| seq![s[i as int]] + p,
        ) + arrangements_from(s, k, i + 1)
    }
}

/// The numbers `0..n`.
pub open spec fn upto(n: nat) -> Seq<usize> {
    Seq::new(n, |i: int| i as usize)
}

/// All `k`-element arrangements of `0..n` (`Itertools::permutations`).
#[verifier::external_body]
pub(crate) fn permutations(n: usize, k: usize) -> (r: Vec<Vec<usize>>)
    ensures
        index_views(r@) == arrangements(upto(n as nat), k as nat),
{
    (0..n).permutations(k).collect()
}

/// `p` read as a base-8 number, its first entry the least significant digit.
pub open spec fn code8(p: Seq<usize>) -> int
    decreases p.len(),
{
    if p.len() == 0 {
        0
    } else {
        p[0] + 8 * code8(p.drop_first())
    }
}

/// Eight entries, each below 8.
pub open spec fn octal8(p: Seq<usize>) -> bool {
    p.len() == 8 && forall|i: int| 0 <= i < 8 ==> #[trigger] p[i] < 8
}

/// `8` to the power `k`.
pub open spec fn pow8(k: nat) -> int
    decreases k,
{
    if k == 0 {
        1
    } else {
        8 * pow8((k - 1) as nat)
    }
}

proof fn lemma_code8_bound(p: Seq<usize>)
    requires
        forall|i: int| 0 <= i < p.len() ==> #[trigger] p[i] < 8,
    ensures
        0 <= code8(p) < pow8(p.len()),
    decreases p.len(),
{
    if p.len() > 0 {
        assert forall|i: int| 0 <= i < p.drop_first().len() implies #[trigger] p.drop_first()[i]
            < 8 by {
            assert(p.drop_first()[i] == p[i + 1]);
        }
        lemma_code8_bound(p.drop_first());
        assert(p[0] < 8);
    }
}

/// The base-8 code of `p` when it is eight entries below 8.
pub fn pack8(p: &Vec<usize>) -> (r: Option<u32>)
    ensures
        match r {
            Some(c) => octal8(p@) && c as int == code8(p@),
            None => !octal8(p@),
        },
{
    if p.len() != 8 {
        return None;
    }
    let mut i: usize = 0;
    while i < 8
        invariant
            i <= 8,
            p.len() == 8,
            forall|j: int| 0 <= j < i ==> #[trigger] p@[j] < 8,
        decreases 8 - i,
    {
        if p[i] >= 8 {
            return None;
        }
        i = i + 1;
    }
    let mut res: u32 = 0;
    let mut k: usize = 8;
    proof {
        assert(p@.subrange(8, 8).len() == 0);
    }
    while k > 0
        invariant
            k <= 8,
            octal8(p@),
            res as int == code8(p@.subrange(k as int, 8)),
            res < pow8((8 - k) as nat),
        decreases k,
    {
        k = k - 1;
        let ghost s = p@.subrange(k as int, 8);
        assert(s.drop_first() =~= p@.subrange(k + 1, 8));
        assert(s[0] == p@[k as int]);
        assert(pow8((8 - k) as nat) == 8 * pow8((8 - k - 1) as nat));
        assert(pow8(8) == 16777216) by {
            reveal_with_fuel(pow8, 9);
        }
        assert(pow8((8 - k) as nat) <= 16777216) by {
            reveal_with_fuel(pow8, 9);
        }
        res = res * 8 + p[k] as u32;
    }
    assert(p@.subrange(0, 8) =~= p@);
    Some(res)
}

/// `map` sends each key to a place of `list` holding eight entries below 8
/// whose code is that key.
pub open spec fn code_map(list: Seq<Seq<usize>>, map: Map<u32, usize>) -> bool {
    forall|key: u32| #[trigger]
        map.contains_key(key) ==> {
            &&& map[key] < list.len()
            &&& octal8(list[map[key] as int])
            &&& code8(list[map[key] as int]) == key as int
        }
}

/// All arrangements of `0..8` in lexicographic order, with the map from the
/// code of each to its place in the list.
pub fn get_perm_map() -> (r: (Vec<Vec<usize>>, HashMap<u32, usize>))
    ensures
        index_views(r.0@) == arrangements(upto(8), 8),
        code_map(index_views(r.0@), r.1@),
{
    let perm_list = permutations(8, 8);
    let mut perm_map: HashMap<u32, usize> = HashMap::new();
    let mut i: usize = 0;
    while i < perm_list.len()
        invariant
            i <= perm_list.len(),
            code_map(index_views(perm_list@), perm_map@),
        decreases perm_list.len() - i,
    {
        match pack8(&perm_list[i]) {
            Some(c) => {
                perm_map.insert(c, i);
                assert(index_views(perm_list@)[i as int] == perm_list@[i as int]@);
            },
            None => {},
        }
        i = i + 1;
    }
    (perm_list, perm_map)
}

/// The views of a table of moves of the eight-piece search.
pub open spec fn moves_view(actions: Seq<(Vec<usize>, usize, usize, i32)>) -> Seq<
    (Seq<usize>, usize, usize, i32),
> {
    actions.map_values(|m: (Vec<usize>, usize, usize, i32)| (m.0@, m.1, m.2, m.3))
}

/// Each move names, for each of the eight places, the place whose piece
/// moves there; turns each ring by less than a full turn; and costs at
/// least one.
pub open spec fn ring_moves_ok(actions: Seq<(Seq<usize>, usize, usize, i32)>) -> bool {
    forall|k: int|
        0 <= k < actions.len() ==> {
            &&& octal8(#[trigger] actions[k].0)
            &&& actions[k].1 < 4
            &&& actions[k].2 < 4
            &&& actions[k].3 >= 1
        }
}

/// The ring part of the position reached from position `i` by move `m`:
/// with 16 ring states per arrangement, `4 * turn0 + turn1` after adding the
/// move's turns; with one, nothing.
pub open spec fn ring_part(rots: int, i: int, m: (Seq<usize>, usize, usize, i32)) -> int {
    if rots == 16 {
        4 * (((i % 16) / 4 + m.1) % 4) + (i % 4 + m.2) % 4
    } else {
        0
    }
}

/// The position reached from position `i` by move `m`, with `rots` ring
/// states per arrangement; `None` when the moved arrangement has no place
/// in the map.
pub open spec fn ring_step(
    list: Seq<Seq<usize>>,
    map: Map<u32, usize>,
    rots: int,
    i: int,
    m: (Seq<usize>, usize, usize, i32),
) -> Option<int> {
    let q = gather(list[i / rots], m.0);
    if octal8(q) && map.contains_key(code8(q) as u32) {
        Some(rots * map[code8(q) as u32] + ring_part(rots, i, m))
    } else {
        None
    }
}

/// Every recorded step is a move: position `i` is reached from position
/// `prev_state[i]` by the move `prev_action[i]`.
pub open spec fn ring_steps_valid(
    list: Seq<Seq<usize>>,
    map: Map<u32, usize>,
    rots: int,
    actions: Seq<(Seq<usize>, usize, usize, i32)>,
    prev_state: Seq<Option<usize>>,
    prev_action: Seq<Option<usize>>,
) -> bool {
    &&& prev_state.len() == rots * list.len()
    &&& prev_action.len() == rots * list.len()
    &&& forall|i: int|
        0 <= i < prev_state.len() ==> (#[trigger] prev_state[i] is Some <==> prev_action[i] is Some)
    &&& forall|i: int|
        0 <= i < prev_state.len() && #[trigger] prev_state[i] is Some ==> {
            let p = prev_state[i]->0;
            let a = prev_action[i]->0;
            &&& p < prev_state.len()
            &&& a < actions.len()
            &&& ring_step(list, map, rots, p as int, actions[a as int]) == Some(i)
        }
}

/// Predecessor tables whose steps are moves and can be followed back from
/// any position.
pub open spec fn ring_tables(
    list: Seq<Seq<usize>>,
    map: Map<u32, usize>,
    rots: int,
    actions: Seq<(Seq<usize>, usize, usize, i32)>,
    prev_state: Seq<Option<usize>>,
    prev_action: Seq<Option<usize>>,
) -> bool {
    &&& ring_steps_valid(list, map, rots, actions, prev_state, prev_action)
    &&& exists|rank: Seq<int>| steps_ranked(prev_state, rank)
}

/// Some position has a move that leaves the map, or some arrangement of
/// the list is not eight long.
pub open spec fn ring_gap(
    list: Seq<Seq<usize>>,
    map: Map<u32, usize>,
    rots: int,
    actions: Seq<(Seq<usize>, usize, usize, i32)>,
) -> bool {
    ||| exists|r: int| 0 <= r < list.len() && #[trigger] list[r].len() != 8
    ||| exists|i: int, k: int|
        0 <= i < rots * list.len() && 0 <= k < actions.len() && #[trigger] ring_step(
            list,
            map,
            rots,
            i,
            #[trigger] actions[k],
        ) is None
}

/// Move `a` from position `i` stays in the map and leads to a position that
/// costs no more than `i` plus the move (unless that sum leaves `i32`).
pub open spec fn ring_move_relaxed(
    list: Seq<Seq<usize>>,
    map: Map<u32, usize>,
    rots: int,
    actions: Seq<(Seq<usize>, usize, usize, i32)>,
    cost: Seq<i32>,
    i: int,
    a: int,
) -> bool {
    &&& ring_step(list, map, rots, i, actions[a]) is Some
    &&& (cost[i] + actions[a].3 > i32::MAX || cost[ring_step(list, map, rots, i, actions[a])->0] <= cost[i]
        + actions[a].3)
}

/// Every move from position `i` is relaxed.
pub open spec fn ring_relaxed(
    list: Seq<Seq<usize>>,
    map: Map<u32, usize>,
    rots: int,
    actions: Seq<(Seq<usize>, usize, usize, i32)>,
    cost: Seq<i32>,
    i: int,
) -> bool {
    forall|a: int| 0 <= a < actions.len() ==> #[trigger] ring_move_relaxed(list, map, rots, actions, cost, i, a)
}

/// Position `i` was expanded: it is reached, and it is not a start that
/// is left out of the expansion at cost 0.
pub open spec fn expanded(cost: Seq<i32>, pushed: Seq<usize>, i: int) -> bool {
    cost[i] < i32::MAX && (cost[i] > 0 || pushed.contains(i as usize))
}

/// The predecessor tables lie on cheapest paths from the starts, with
/// `cost` the least total move cost of each position (`i32::MAX` for those
/// not reached): the starts cost 0 and only they do; a position has a step
/// exactly when it is reached and costs more than 0; each step costs its
/// predecessor's cost plus the move, from an expanded predecessor; and from
/// every expanded position every move is relaxed, so no path through
/// expanded positions is cheaper.
pub open spec fn ring_cheapest(
    list: Seq<Seq<usize>>,
    map: Map<u32, usize>,
    rots: int,
    actions: Seq<(Seq<usize>, usize, usize, i32)>,
    starts: Seq<usize>,
    pushed: Seq<usize>,
    prev_state: Seq<Option<usize>>,
    prev_action: Seq<Option<usize>>,
    cost: Seq<i32>,
) -> bool {
    &&& cost.len() == rots * list.len()
    &&& forall|j: int| 0 <= j < starts.len() ==> cost[#[trigger] starts[j] as int] == 0
    &&& forall|i: int| 0 <= i < cost.len() ==> #[trigger] cost[i] >= 0
    &&& forall|i: int| 0 <= i < cost.len() && #[trigger] cost[i] == 0 ==> starts.contains(i as usize)
    &&& forall|i: int| 0 <= i < cost.len() ==> (#[trigger] prev_state[i] is Some <==> 0 < cost[i] < i32::MAX)
    &&& forall|i: int|
        0 <= i < cost.len() && #[trigger] prev_state[i] is Some ==> cost[i] == cost[prev_state[i]->0 as int]
            + actions[prev_action[i]->0 as int].3 && expanded(cost, pushed, prev_state[i]->0 as int)
    &&& forall|i: int| 0 <= i < cost.len() && #[trigger] expanded(cost, pushed, i) ==> ring_relaxed(list, map, rots, actions, cost, i)
}

/// A step that stays in the map leads to a position of the search.
proof fn lemma_ring_step_range(list: Seq<Seq<usize>>, map: Map<u32, usize>, rots: int, i: int, m: (Seq<usize>, usize, usize, i32))
    requires
        rots == 1 || rots == 16,
        code_map(list, map),
        ring_step(list, map, rots, i, m) is Some,
        m.1 < 4,
        m.2 < 4,
    ensures
        0 <= ring_step(list, map, rots, i, m)->0 < rots * list.len(),
{
    let q = gather(list[i / rots], m.0);
    let key = code8(q) as u32;
    assert(map.contains_key(key));
    let r = map[key];
    assert(r < list.len());
    let part = ring_part(rots, i, m);
    assert(0 <= part < rots) by {
        if rots == 16 {
            assert(0 <= ((i % 16) / 4 + m.1) % 4 < 4);
            assert(0 <= (i % 4 + m.2) % 4 < 4);
        }
    }
    assert(rots * r + part < rots * list.len()) by (nonlinear_arith)
        requires
            r < list.len(),
            0 <= part < rots,
            rots >= 1,
    ;
    assert(rots * r >= 0) by (nonlinear_arith)
        requires
            r >= 0,
            rots >= 1,
    ;
}

proof fn lemma_ring_relaxed_lower(
    list: Seq<Seq<usize>>,
    map: Map<u32, usize>,
    rots: int,
    actions: Seq<(Seq<usize>, usize, usize, i32)>,
    cost: Seq<i32>,
    cost2: Seq<i32>,
    i: int,
    upto: int,
)
    requires
        cost2.len() == cost.len() == rots * list.len(),
        0 <= i < cost.len(),
        cost2[i] == cost[i],
        forall|k: int| 0 <= k < cost.len() ==> #[trigger] cost2[k] <= cost[k],
        forall|a: int| 0 <= a < upto ==> #[trigger] ring_move_relaxed(list, map, rots, actions, cost, i, a),
        upto <= actions.len(),
        rots == 1 || rots == 16,
        code_map(list, map),
        ring_moves_ok(actions),
    ensures
        forall|a: int| 0 <= a < upto ==> #[trigger] ring_move_relaxed(list, map, rots, actions, cost2, i, a),
{
    assert forall|a: int| 0 <= a < upto implies #[trigger] ring_move_relaxed(list, map, rots, actions, cost2, i, a) by {
        assert(ring_move_relaxed(list, map, rots, actions, cost, i, a));
        lemma_ring_step_range(list, map, rots, i, actions[a]);
        let nk = ring_step(list, map, rots, i, actions[a])->0;
        assert(cost2[nk] <= cost[nk]);
    }
}

/// Dijkstra's algorithm over the positions `rots * place + ring`, from the
/// positions `starts` (cost 0), expanding at cost 0 only those of `pushed`.
/// Positions of equal cost are expanded in increasing order, and a position
/// keeps the first cheapest step that reaches it. Returns, for each
/// position, the position and move it was reached from, or `None` when a
/// move leaves the map.
#[verifier::rlimit(80)]
#[verifier::spinoff_prover]
pub fn ring_search(
    perm_list: &Vec<Vec<usize>>,
    perm_map: &HashMap<u32, usize>,
    actions: &Vec<(Vec<usize>, usize, usize, i32)>,
    rots: usize,
    starts: &Vec<usize>,
    pushed: &Vec<usize>,
) -> (r: Option<(Vec<Option<usize>>, Vec<Option<usize>>)>)
    requires
        rots == 1 || rots == 16,
        rots * perm_list.len() <= usize::MAX,
        code_map(index_views(perm_list@), perm_map@),
        ring_moves_ok(moves_view(actions@)),
        forall|k: int| 0 <= k < starts.len() ==> #[trigger] starts@[k] < rots * perm_list.len(),
        forall|k: int| 0 <= k < pushed.len() ==> #[trigger] pushed@[k] < rots * perm_list.len(),
    ensures
        match r {
            Some((prev_state, prev_action)) => {
                &&& ring_tables(
                    index_views(perm_list@),
                    perm_map@,
                    rots as int,
                    moves_view(actions@),
                    prev_state@,
                    prev_action@,
                )
                &&& forall|k: int|
                    0 <= k < starts.len() ==> prev_state@[#[trigger] starts@[k] as int] is None
                &&& exists|cost: Seq<i32>|
                    ring_cheapest(
                        index_views(perm_list@),
                        perm_map@,
                        rots as int,
                        moves_view(actions@),
                        starts@,
                        pushed@,
                        prev_state@,
                        prev_action@,
                        cost,
                    )
            },
            None => ring_gap(index_views(perm_list@), perm_map@, rots as int, moves_view(actions@)),
        },
{
    let ghost list = index_views(perm_list@);
    let ghost ms = moves_view(actions@);
    let n = rots * perm_list.len();
    let mut prev_state: Vec<Option<usize>> = vec![None; n];
    let mut prev_action: Vec<Option<usize>> = vec![None; n];
    let mut cost: Vec<i32> = vec![i32::MAX; n];
    let mut mark: Vec<bool> = vec![false; n];
    let mut k: usize = 0;
    while k < starts.len()
        invariant
            k <= starts.len(),
            cost.len() == n,
            n == rots * perm_list.len(),
            forall|j: int| 0 <= j < starts.len() ==> #[trigger] starts@[j] < n,
            forall|i: int| 0 <= i < n ==> #[trigger] cost@[i] >= 0,
            forall|j: int| 0 <= j < k ==> cost@[#[trigger] starts@[j] as int] == 0,
            forall|i: int| 0 <= i < n ==> #[trigger] cost@[i] == 0 || cost@[i] == i32::MAX,
            forall|i: int| 0 <= i < n && #[trigger] cost@[i] == 0 ==> starts@.contains(i as usize),
        decreases starts.len() - k,
    {
        assert(starts@[k as int] == starts@[k as int]);
        cost.set(starts[k], 0);
        k = k + 1;
    }
    k = 0;
    while k < pushed.len()
        invariant
            k <= pushed.len(),
            mark.len() == n,
            n == rots * perm_list.len(),
            forall|j: int| 0 <= j < pushed.len() ==> #[trigger] pushed@[j] < n,
            forall|i: int| 0 <= i < n && #[trigger] mark@[i] ==> pushed@.contains(i as usize),
            forall|j: int| 0 <= j < k ==> mark@[#[trigger] pushed@[j] as int],
        decreases pushed.len() - k,
    {
        mark.set(pushed[k], true);
        k = k + 1;
    }
    assert forall|i: int| 0 <= i < n implies #[trigger] mark@[i] <==> pushed@.contains(i as usize) by {
        if pushed@.contains(i as usize) {
            let j = choose|j: int| 0 <= j < pushed.len() && pushed@[j] == i as usize;
            assert(mark@[pushed@[j] as int]);
        }
    }
    proof {
        assert(steps_ranked(prev_state@, cost@.map_values(|c: i32| c as int)));
        lemma_cost_sum_nonneg(cost@);
    }
    let mut level: i32 = 0;
    let mut top: i32 = 0;
    while level <= top
        invariant
            rots == 1 || rots == 16,
            n == rots * perm_list.len(),
            list == index_views(perm_list@),
            ms == moves_view(actions@),
            code_map(list, perm_map@),
            ring_moves_ok(ms),
            cost.len() == n,
            mark.len() == n,
            0 <= level <= top + 1,
            top < i32::MAX,
            forall|i: int| 0 <= i < n ==> #[trigger] cost@[i] >= 0,
            forall|j: int| 0 <= j < starts.len() ==> #[trigger] starts@[j] < n,
            forall|j: int|
                0 <= j < starts.len() ==> cost@[#[trigger] starts@[j] as int] == 0
                    && prev_state@[starts@[j] as int] is None,
            ring_steps_valid(list, perm_map@, rots as int, ms, prev_state@, prev_action@),
            steps_ranked(prev_state@, cost@.map_values(|c: i32| c as int)),
            cost_sum(cost@) >= 0,
            forall|i: int| 0 <= i < n ==> (#[trigger] mark@[i] <==> pushed@.contains(i as usize)),
            forall|i: int| 0 <= i < n && #[trigger] cost@[i] == 0 ==> starts@.contains(i as usize),
            forall|i: int| 0 <= i < n ==> (#[trigger] prev_state@[i] is Some <==> 0 < cost@[i] < i32::MAX),
            forall|i: int|
                0 <= i < n && #[trigger] prev_state@[i] is Some ==> cost@[i] >= cost@[prev_state@[i]->0 as int]
                    + ms[prev_action@[i]->0 as int].3 && expanded(cost@, pushed@, prev_state@[i]->0 as int),
            forall|i: int| 0 <= i < n && #[trigger] cost@[i] < i32::MAX ==> cost@[i] <= top,
            forall|i: int|
                0 <= i < n && #[trigger] expanded(cost@, pushed@, i) && cost@[i] < level ==> ring_relaxed(
                    list,
                    perm_map@,
                    rots as int,
                    ms,
                    cost@,
                    i,
                ),
        decreases cost_sum(cost@), top + 1 - level,
    {
        let ghost sum0 = cost_sum(cost@);
        let ghost top0 = top;
        let mut idx: usize = 0;
        while idx < n
            invariant
                rots == 1 || rots == 16,
                n == rots * perm_list.len(),
                list == index_views(perm_list@),
                ms == moves_view(actions@),
                code_map(list, perm_map@),
                ring_moves_ok(ms),
                cost.len() == n,
                mark.len() == n,
                0 <= level <= top0,
                top0 <= top,
                top < i32::MAX,
                forall|i: int| 0 <= i < n ==> #[trigger] cost@[i] >= 0,
                forall|j: int| 0 <= j < starts.len() ==> #[trigger] starts@[j] < n,
                forall|j: int|
                    0 <= j < starts.len() ==> cost@[#[trigger] starts@[j] as int] == 0
                        && prev_state@[starts@[j] as int] is None,
                ring_steps_valid(list, perm_map@, rots as int, ms, prev_state@, prev_action@),
                steps_ranked(prev_state@, cost@.map_values(|c: i32| c as int)),
                cost_sum(cost@) <= sum0,
                cost_sum(cost@) == sum0 ==> top == top0,
                idx <= n,
                forall|i: int| 0 <= i < n ==> (#[trigger] mark@[i] <==> pushed@.contains(i as usize)),
                forall|i: int| 0 <= i < n && #[trigger] cost@[i] == 0 ==> starts@.contains(i as usize),
                forall|i: int| 0 <= i < n ==> (#[trigger] prev_state@[i] is Some <==> 0 < cost@[i] < i32::MAX),
                forall|i: int|
                    0 <= i < n && #[trigger] prev_state@[i] is Some ==> cost@[i] >= cost@[prev_state@[i]->0 as int]
                        + ms[prev_action@[i]->0 as int].3 && expanded(cost@, pushed@, prev_state@[i]->0 as int),
                forall|i: int| 0 <= i < n && #[trigger] cost@[i] < i32::MAX ==> cost@[i] <= top,
                forall|i: int|
                    0 <= i < n && #[trigger] expanded(cost@, pushed@, i) && (cost@[i] < level || (cost@[i] == level
                        && i < idx)) ==> ring_relaxed(list, perm_map@, rots as int, ms, cost@, i),
            decreases n - idx,
        {
            if cost[idx] == level && (level > 0 || mark[idx]) {
                assert(expanded(cost@, pushed@, idx as int));
                let rank = idx / rots;
                let ring = idx % rots;
                let r0 = ring / 4;
                let r1 = ring % 4;
                proof {
                    assert(rank < perm_list.len()) by (nonlinear_arith)
                        requires
                            idx < n,
                            n == rots * perm_list.len(),
                            rots >= 1,
                            rank == idx / rots,
                    ;
                }
                let state = &perm_list[rank];
                if state.len() != 8 {
                    proof {
                        assert(list[rank as int] == state@);
                        assert(list[rank as int].len() != 8);
                    }
                    return None;
                }
                let mut a: usize = 0;
                while a < actions.len()
                    invariant
                        rots == 1 || rots == 16,
                        n == rots * perm_list.len(),
                        list == index_views(perm_list@),
                        ms == moves_view(actions@),
                        code_map(list, perm_map@),
                        ring_moves_ok(ms),
                        idx < n,
                        rank == idx / rots,
                        rank < perm_list.len(),
                        ring == idx % rots,
                        r0 == ring / 4,
                        r1 == ring % 4,
                        state == &perm_list@[rank as int],
                        state.len() == 8,
                        cost.len() == n,
                        mark.len() == n,
                        cost@[idx as int] == level,
                        0 <= level <= top0,
                        top0 <= top,
                        top < i32::MAX,
                        forall|i: int| 0 <= i < n ==> #[trigger] cost@[i] >= 0,
                        forall|j: int| 0 <= j < starts.len() ==> #[trigger] starts@[j] < n,
                        forall|j: int|
                            0 <= j < starts.len() ==> cost@[#[trigger] starts@[j] as int] == 0
                                && prev_state@[starts@[j] as int] is None,
                        ring_steps_valid(list, perm_map@, rots as int, ms, prev_state@, prev_action@),
                        steps_ranked(prev_state@, cost@.map_values(|c: i32| c as int)),
                        cost_sum(cost@) <= sum0,
                        cost_sum(cost@) == sum0 ==> top == top0,
                        a <= actions.len(),
                        ms.len() == actions.len(),
                        expanded(cost@, pushed@, idx as int),
                        forall|i: int| 0 <= i < n ==> (#[trigger] mark@[i] <==> pushed@.contains(i as usize)),
                        forall|i: int| 0 <= i < n && #[trigger] cost@[i] == 0 ==> starts@.contains(i as usize),
                        forall|i: int| 0 <= i < n ==> (#[trigger] prev_state@[i] is Some <==> 0 < cost@[i] < i32::MAX),
                        forall|i: int|
                            0 <= i < n && #[trigger] prev_state@[i] is Some ==> cost@[i] >= cost@[prev_state@[i]->0 as int]
                                + ms[prev_action@[i]->0 as int].3 && expanded(cost@, pushed@, prev_state@[i]->0 as int),
                        forall|i: int| 0 <= i < n && #[trigger] cost@[i] < i32::MAX ==> cost@[i] <= top,
                        forall|i: int|
                            0 <= i < n && i != idx && #[trigger] expanded(cost@, pushed@, i) && (cost@[i] < level || (
                            cost@[i] == level && i < idx)) ==> ring_relaxed(list, perm_map@, rots as int, ms, cost@, i),
                        forall|b: int| 0 <= b < a ==> #[trigger] ring_move_relaxed(list, perm_map@, rots as int, ms, cost@, idx as int, b),
                    decreases actions.len() - a,
                {
                    assert(ms[a as int] == (actions@[a as int].0@, actions@[a as int].1, actions@[a as int].2, actions@[a as int].3));
                    assert(octal8(ms[a as int].0));
                    let mv = &actions[a].0;
                    let next = apply_perm(state, mv);
                    assert(list[rank as int] == state@);
                    let code = match pack8(&next) {
                        Some(c) => c,
                        None => {
                            proof {
                                assert(ring_step(list, perm_map@, rots as int, idx as int, ms[a as int]) is None);
                            }
                            return None;
                        },
                    };
                    let next_rank = match perm_map.get(&code) {
                        Some(v) => *v,
                        None => {
                            proof {
                                assert(ring_step(list, perm_map@, rots as int, idx as int, ms[a as int]) is None);
                            }
                            return None;
                        },
                    };
                    let next_ring: usize = if rots == 16 {
                        4 * ((r0 + actions[a].1) % 4) + (r1 + actions[a].2) % 4
                    } else {
                        0
                    };
                    proof {
                        if rots == 16 {
                            assert(r1 == idx % 4) by (nonlinear_arith)
                                requires
                                    ring == idx % 16,
                                    r1 == ring % 4,
                            ;
                        }
                        assert(next_ring == ring_part(rots as int, idx as int, ms[a as int]));
                        assert(next_ring < rots);
                        assert(rots * next_rank + next_ring < n) by (nonlinear_arith)
                            requires
                                next_rank < perm_list.len(),
                                next_ring < rots,
                                n == rots * perm_list.len(),
                        ;
                    }
                    let next_idx = rots * next_rank + next_ring;
                    proof {
                        assert(ring_step(list, perm_map@, rots as int, idx as int, ms[a as int]) == Some(next_idx as int));
                    }
                    match level.checked_add(actions[a].3) {
                        Some(new_cost) => {
                            if new_cost < cost[next_idx] {
                                let ghost old_prev = prev_state@;
                                let ghost old_pa = prev_action@;
                                let ghost old_cost = cost@;
                                let ghost old_top = top;
                                proof {
                                    lemma_cost_sum_update(cost@, next_idx as int, new_cost);
                                }
                                cost.set(next_idx, new_cost);
                                prev_state.set(next_idx, Some(idx));
                                prev_action.set(next_idx, Some(a));
                                if new_cost > top {
                                    top = new_cost;
                                }
                                proof {
                                    let rank_seq = cost@.map_values(|c: i32| c as int);
                                    assert forall|i: int|
                                        0 <= i < prev_state@.len() && #[trigger] prev_state@[i] is Some implies
                                        prev_state@[i]->0 < prev_state@.len() && rank_seq[prev_state@[i]->0 as int]
                                        < rank_seq[i] by {
                                        if i != next_idx {
                                            assert(old_prev[i] == prev_state@[i]);
                                        }
                                    }
                                    assert(steps_ranked(prev_state@, rank_seq));
                                    assert forall|i: int|
                                        0 <= i < prev_state@.len() && #[trigger] prev_state@[i] is Some implies {
                                            let p = prev_state@[i]->0;
                                            let aa = prev_action@[i]->0;
                                            &&& p < prev_state@.len()
                                            &&& aa < ms.len()
                                            &&& ring_step(list, perm_map@, rots as int, p as int, ms[aa as int]) == Some(i)
                                        } by {
                                        if i != next_idx {
                                            assert(old_prev[i] == prev_state@[i]);
                                        }
                                    }
                                    assert forall|j: int|
                                        0 <= j < starts.len() implies cost@[#[trigger] starts@[j] as int] == 0
                                            && prev_state@[starts@[j] as int] is None by {
                                        assert(starts@[j] != next_idx);
                                    }
                                    assert(next_idx != idx);
                                    assert forall|k: int| 0 <= k < n implies #[trigger] cost@[k] <= old_cost[k] by {}
                                    assert forall|i: int| 0 <= i < n && #[trigger] cost@[i] == 0 implies starts@.contains(i as usize) by {
                                        if i != next_idx {
                                            assert(old_cost[i] == 0);
                                        }
                                    }
                                    assert forall|i: int| 0 <= i < n implies (#[trigger] prev_state@[i] is Some <==> 0 < cost@[i] < i32::MAX) by {
                                        if i != next_idx {
                                            assert(old_prev[i] == prev_state@[i] && old_cost[i] == cost@[i]);
                                        }
                                    }
                                    assert forall|i: int|
                                        0 <= i < n && #[trigger] prev_state@[i] is Some implies cost@[i] >= cost@[prev_state@[i]->0 as int]
                                            + ms[prev_action@[i]->0 as int].3 && expanded(cost@, pushed@, prev_state@[i]->0 as int) by {
                                        if i != next_idx {
                                            assert(old_prev[i] == prev_state@[i] && old_pa[i] == prev_action@[i] && old_cost[i] == cost@[i]);
                                            let j = prev_state@[i]->0 as int;
                                            assert(cost@[j] <= old_cost[j]);
                                            assert(expanded(old_cost, pushed@, j));
                                        }
                                    }
                                    assert forall|i: int| 0 <= i < n && #[trigger] cost@[i] < i32::MAX implies cost@[i] <= top by {
                                        if i != next_idx {
                                            assert(old_cost[i] == cost@[i]);
                                        }
                                    }
                                    assert forall|i: int|
                                        0 <= i < n && i != idx && #[trigger] expanded(cost@, pushed@, i) && (cost@[i] < level || (
                                        cost@[i] == level && i < idx)) implies ring_relaxed(list, perm_map@, rots as int, ms, cost@, i) by {
                                        assert(i != next_idx);
                                        assert(old_cost[i] == cost@[i]);
                                        assert(expanded(old_cost, pushed@, i));
                                        assert(ring_relaxed(list, perm_map@, rots as int, ms, old_cost, i));
                                        lemma_ring_relaxed_lower(list, perm_map@, rots as int, ms, old_cost, cost@, i, ms.len() as int);
                                    }
                                    lemma_ring_relaxed_lower(list, perm_map@, rots as int, ms, old_cost, cost@, idx as int, a as int);
                                    assert(expanded(cost@, pushed@, idx as int));
                                }
                            }
                        },
                        None => {},
                    }
                    assert(ring_move_relaxed(list, perm_map@, rots as int, ms, cost@, idx as int, a as int));
                    a = a + 1;
                }
                assert(ring_relaxed(list, perm_map@, rots as int, ms, cost@, idx as int));
            }
            idx = idx + 1;
        }
        proof {
            lemma_cost_sum_nonneg(cost@);
        }
        level = level + 1;
    }
    proof {
        assert forall|i: int| 0 <= i < n && #[trigger] expanded(cost@, pushed@, i) implies ring_relaxed(
            list,
            perm_map@,
            rots as int,
            ms,
            cost@,
            i,
        ) by {
            assert(cost@[i] <= top);
        }
        assert forall|i: int|
            0 <= i < n && #[trigger] prev_state@[i] is Some implies cost@[i] == cost@[prev_state@[i]->0 as int]
                + ms[prev_action@[i]->0 as int].3 by {
            let j = prev_state@[i]->0 as int;
            let b = prev_action@[i]->0 as int;
            assert(expanded(cost@, pushed@, j));
            assert(ring_relaxed(list, perm_map@, rots as int, ms, cost@, j));
            assert(ring_move_relaxed(list, perm_map@, rots as int, ms, cost@, j, b));
            assert(ring_step(list, perm_map@, rots as int, j, ms[b]) == Some(i));
        }
        assert(ring_cheapest(list, perm_map@, rots as int, ms, starts@, pushed@, prev_state@, prev_action@, cost@));
    }
    Some((prev_state, prev_action))
}

/// The eight entries `a0, .., a7`.
fn octets(a0: usize, a1: usize, a2: usize, a3: usize, a4: usize, a5: usize, a6: usize, a7: usize) -> (r: Vec<usize>)
    ensures
        r@ == seq![a0, a1, a2, a3, a4, a5, a6, a7],
{
    let mut r: Vec<usize> = Vec::new();
    r.push(a0);
    r.push(a1);
    r.push(a2);
    r.push(a3);
    r.push(a4);
    r.push(a5);
    r.push(a6);
    r.push(a7);
    assert(r@ =~= seq![a0, a1, a2, a3, a4, a5, a6, a7]);
    r
}

/// The moves of the centre search: turns of the top and bottom rings, and three-cycles through both faces; no ring turns are tracked.
pub open spec fn center_ring_moves() -> Seq<(Seq<usize>, usize, usize, i32)> {
    seq![
        (seq![2, 0, 3, 1, 4, 5, 6, 7], 0, 0, 1),
        (seq![1, 3, 0, 2, 4, 5, 6, 7], 0, 0, 1),
        (seq![0, 1, 2, 3, 6, 4, 7, 5], 0, 0, 1),
        (seq![0, 1, 2, 3, 5, 7, 4, 6], 0, 0, 1),
        (seq![5, 1, 0, 3, 4, 7, 6, 2], 0, 0, 3),
        (seq![7, 1, 5, 3, 4, 2, 6, 0], 0, 0, 4),
        (seq![2, 1, 7, 3, 4, 0, 6, 5], 0, 0, 3),
        (seq![0, 3, 2, 6, 1, 5, 4, 7], 0, 0, 3),
        (seq![0, 6, 2, 4, 3, 5, 1, 7], 0, 0, 4),
        (seq![0, 4, 2, 1, 6, 5, 3, 7], 0, 0, 3),
    ]
}

/// The moves of the corner search: those of the centre search, each with the quarter turns it gives the two inner rings.
pub open spec fn corner_ring_moves() -> Seq<(Seq<usize>, usize, usize, i32)> {
    seq![
        (seq![2, 0, 3, 1, 4, 5, 6, 7], 1, 0, 1),
        (seq![1, 3, 0, 2, 4, 5, 6, 7], 3, 0, 1),
        (seq![0, 1, 2, 3, 6, 4, 7, 5], 0, 1, 1),
        (seq![0, 1, 2, 3, 5, 7, 4, 6], 0, 3, 1),
        (seq![5, 1, 0, 3, 4, 7, 6, 2], 3, 0, 3),
        (seq![7, 1, 5, 3, 4, 2, 6, 0], 2, 0, 4),
        (seq![2, 1, 7, 3, 4, 0, 6, 5], 1, 0, 3),
        (seq![0, 3, 2, 6, 1, 5, 4, 7], 3, 0, 3),
        (seq![0, 6, 2, 4, 3, 5, 1, 7], 2, 0, 4),
        (seq![0, 4, 2, 1, 6, 5, 3, 7], 1, 0, 3),
    ]
}

/// The moves of the edge search: ring turns, and the commutators that cycle three edge pieces between the faces.
pub open spec fn edge_ring_moves() -> Seq<(Seq<usize>, usize, usize, i32)> {
    seq![
        (seq![1, 3, 0, 2, 4, 5, 6, 7], 1, 0, 1),
        (seq![2, 0, 3, 1, 4, 5, 6, 7], 3, 0, 1),
        (seq![0, 1, 2, 3, 5, 7, 4, 6], 0, 1, 1),
        (seq![0, 1, 2, 3, 6, 4, 7, 5], 0, 3, 1),
        (seq![0, 1, 6, 3, 4, 5, 7, 2], 0, 0, 8),
        (seq![0, 1, 7, 3, 4, 5, 2, 6], 0, 0, 8),
        (seq![0, 5, 2, 3, 4, 7, 6, 1], 0, 0, 8),
        (seq![0, 7, 2, 3, 4, 1, 6, 5], 0, 0, 8),
        (seq![6, 1, 0, 3, 4, 5, 2, 7], 0, 0, 8),
        (seq![2, 1, 6, 3, 4, 5, 0, 7], 0, 0, 8),
        (seq![5, 0, 2, 3, 4, 1, 6, 7], 0, 0, 8),
        (seq![1, 5, 2, 3, 4, 0, 6, 7], 0, 0, 8),
    ]
}

proof fn lemma_center_moves_ok()
    ensures
        ring_moves_ok(center_ring_moves()),
{
    let t = center_ring_moves();
    assert forall|k: int| 0 <= k < t.len() implies {
        &&& octal8(#[trigger] t[k].0)
        &&& t[k].1 < 4
        &&& t[k].2 < 4
        &&& t[k].3 >= 1
    } by {
        if k == 0 {
            assert(octal8(t[0].0));
        } else if k == 1 {
            assert(octal8(t[1].0));
        } else if k == 2 {
            assert(octal8(t[2].0));
        } else if k == 3 {
            assert(octal8(t[3].0));
        } else if k == 4 {
            assert(octal8(t[4].0));
        } else if k == 5 {
            assert(octal8(t[5].0));
        } else if k == 6 {
            assert(octal8(t[6].0));
        } else if k == 7 {
            assert(octal8(t[7].0));
        } else if k == 8 {
            assert(octal8(t[8].0));
        } else if k == 9 {
            assert(octal8(t[9].0));
        }
    }
}

proof fn lemma_corner_moves_ok()
    ensures
        ring_moves_ok(corner_ring_moves()),
{
    let t = corner_ring_moves();
    assert forall|k: int| 0 <= k < t.len() implies {
        &&& octal8(#[trigger] t[k].0)
        &&& t[k].1 < 4
        &&& t[k].2 < 4
        &&& t[k].3 >= 1
    } by {
        if k == 0 {
            assert(octal8(t[0].0));
        } else if k == 1 {
            assert(octal8(t[1].0));
        } else if k == 2 {
            assert(octal8(t[2].0));
        } else if k == 3 {
            assert(octal8(t[3].0));
        } else if k == 4 {
            assert(octal8(t[4].0));
        } else if k == 5 {
            assert(octal8(t[5].0));
        } else if k == 6 {
            assert(octal8(t[6].0));
        } else if k == 7 {
            assert(octal8(t[7].0));
        } else if k == 8 {
            assert(octal8(t[8].0));
        } else if k == 9 {
            assert(octal8(t[9].0));
        }
    }
}

proof fn lemma_edge_moves_ok()
    ensures
        ring_moves_ok(edge_ring_moves()),
{
    let t = edge_ring_moves();
    assert forall|k: int| 0 <= k < t.len() implies {
        &&& octal8(#[trigger] t[k].0)
        &&& t[k].1 < 4
        &&& t[k].2 < 4
        &&& t[k].3 >= 1
    } by {
        if k == 0 {
            assert(octal8(t[0].0));
        } else if k == 1 {
            assert(octal8(t[1].0));
        } else if k == 2 {
            assert(octal8(t[2].0));
        } else if k == 3 {
            assert(octal8(t[3].0));
        } else if k == 4 {
            assert(octal8(t[4].0));
        } else if k == 5 {
            assert(octal8(t[5].0));
        } else if k == 6 {
            assert(octal8(t[6].0));
        } else if k == 7 {
            assert(octal8(t[7].0));
        } else if k == 8 {
            assert(octal8(t[8].0));
        } else if k == 9 {
            assert(octal8(t[9].0));
        } else if k == 10 {
            assert(octal8(t[10].0));
        } else if k == 11 {
            assert(octal8(t[11].0));
        }
    }
}

/// The moves of the centre search.
fn center_moves() -> (r: Vec<(Vec<usize>, usize, usize, i32)>)
    ensures
        moves_view(r@) == center_ring_moves(),
{
    let mut r: Vec<(Vec<usize>, usize, usize, i32)> = Vec::new();
    r.push((octets(2, 0, 3, 1, 4, 5, 6, 7), 0, 0, 1));
    r.push((octets(1, 3, 0, 2, 4, 5, 6, 7), 0, 0, 1));
    r.push((octets(0, 1, 2, 3, 6, 4, 7, 5), 0, 0, 1));
    r.push((octets(0, 1, 2, 3, 5, 7, 4, 6), 0, 0, 1));
    r.push((octets(5, 1, 0, 3, 4, 7, 6, 2), 0, 0, 3));
    r.push((octets(7, 1, 5, 3, 4, 2, 6, 0), 0, 0, 4));
    r.push((octets(2, 1, 7, 3, 4, 0, 6, 5), 0, 0, 3));
    r.push((octets(0, 3, 2, 6, 1, 5, 4, 7), 0, 0, 3));
    r.push((octets(0, 6, 2, 4, 3, 5, 1, 7), 0, 0, 4));
    r.push((octets(0, 4, 2, 1, 6, 5, 3, 7), 0, 0, 3));
    assert(moves_view(r@) =~= center_ring_moves());
    r
}

/// The moves of the corner search.
fn corner_moves() -> (r: Vec<(Vec<usize>, usize, usize, i32)>)
    ensures
        moves_view(r@) == corner_ring_moves(),
{
    let mut r: Vec<(Vec<usize>, usize, usize, i32)> = Vec::new();
    r.push((octets(2, 0, 3, 1, 4, 5, 6, 7), 1, 0, 1));
    r.push((octets(1, 3, 0, 2, 4, 5, 6, 7), 3, 0, 1));
    r.push((octets(0, 1, 2, 3, 6, 4, 7, 5), 0, 1, 1));
    r.push((octets(0, 1, 2, 3, 5, 7, 4, 6), 0, 3, 1));
    r.push((octets(5, 1, 0, 3, 4, 7, 6, 2), 3, 0, 3));
    r.push((octets(7, 1, 5, 3, 4, 2, 6, 0), 2, 0, 4));
    r.push((octets(2, 1, 7, 3, 4, 0, 6, 5), 1, 0, 3));
    r.push((octets(0, 3, 2, 6, 1, 5, 4, 7), 3, 0, 3));
    r.push((octets(0, 6, 2, 4, 3, 5, 1, 7), 2, 0, 4));
    r.push((octets(0, 4, 2, 1, 6, 5, 3, 7), 1, 0, 3));
    assert(moves_view(r@) =~= corner_ring_moves());
    r
}

/// The moves of the edge search.
fn edge_moves() -> (r: Vec<(Vec<usize>, usize, usize, i32)>)
    ensures
        moves_view(r@) == edge_ring_moves(),
{
    let mut r: Vec<(Vec<usize>, usize, usize, i32)> = Vec::new();
    r.push((octets(1, 3, 0, 2, 4, 5, 6, 7), 1, 0, 1));
    r.push((octets(2, 0, 3, 1, 4, 5, 6, 7), 3, 0, 1));
    r.push((octets(0, 1, 2, 3, 5, 7, 4, 6), 0, 1, 1));
    r.push((octets(0, 1, 2, 3, 6, 4, 7, 5), 0, 3, 1));
    r.push((octets(0, 1, 6, 3, 4, 5, 7, 2), 0, 0, 8));
    r.push((octets(0, 1, 7, 3, 4, 5, 2, 6), 0, 0, 8));
    r.push((octets(0, 5, 2, 3, 4, 7, 6, 1), 0, 0, 8));
    r.push((octets(0, 7, 2, 3, 4, 1, 6, 5), 0, 0, 8));
    r.push((octets(6, 1, 0, 3, 4, 5, 2, 7), 0, 0, 8));
    r.push((octets(2, 1, 6, 3, 4, 5, 0, 7), 0, 0, 8));
    r.push((octets(5, 0, 2, 3, 4, 1, 6, 7), 0, 0, 8));
    r.push((octets(1, 5, 2, 3, 4, 0, 6, 7), 0, 0, 8));
    assert(moves_view(r@) =~= edge_ring_moves());
    r
}

/// The place in the map of arrangement `p`, when it has one.
fn place_of(perm_map: &HashMap<u32, usize>, p: &Vec<usize>) -> (r: Option<usize>)
    ensures
        match r {
            Some(i) => octal8(p@) && perm_map@.contains_key(code8(p@) as u32) && i == perm_map@[code8(
                p@,
            ) as u32],
            None => !(octal8(p@) && perm_map@.contains_key(code8(p@) as u32)),
        },
{
    match pack8(p) {
        Some(c) => match perm_map.get(&c) {
            Some(i) => Some(*i),
            None => None,
        },
        None => None,
    }
}

/// The arrangement that the start search is at for bottom turn `i` and
/// top turn `j`: the identity, turned by `top` once per step along a row of
/// four, and by `btm` after each row.
pub open spec fn start_at(top: Seq<usize>, btm: Seq<usize>, i: int, j: int) -> Seq<usize>
    decreases i, j,
{
    if j > 0 {
        gather(start_at(top, btm, i, j - 1), top)
    } else if i > 0 {
        gather(start_at(top, btm, i - 1, 4), btm)
    } else {
        seq![0usize, 1, 2, 3, 4, 5, 6, 7]
    }
}

/// The search position of start `t` (bottom turn `t / 4`, top turn
/// `t % 4`): the place of its arrangement, and with sixteen ring states the
/// ring state `4 * (t % 4) + t / 4`.
pub open spec fn start_place(map: Map<u32, usize>, top: Seq<usize>, btm: Seq<usize>, rots: int, t: int) -> int {
    rots * map[code8(start_at(top, btm, t / 4, t % 4)) as u32] + if rots == 16 {
        4 * (t % 4) + t / 4
    } else {
        0
    }
}

/// The positions of the first `t` starts.
pub open spec fn start_list(map: Map<u32, usize>, top: Seq<usize>, btm: Seq<usize>, rots: int, t: int) -> Seq<usize>
    decreases t,
{
    if t <= 0 {
        Seq::empty()
    } else {
        start_list(map, top, btm, rots, t - 1).push(start_place(map, top, btm, rots, t - 1) as usize)
    }
}

/// The positions of those of the first `t` starts that are expanded at
/// cost 0: all of them when `parity` is 2, else those whose turn counts
/// add up to `parity` (mod 2).
pub open spec fn pushed_list(map: Map<u32, usize>, top: Seq<usize>, btm: Seq<usize>, rots: int, parity: int, t: int) -> Seq<usize>
    decreases t,
{
    if t <= 0 {
        Seq::empty()
    } else {
        pushed_list(map, top, btm, rots, parity, t - 1) + if parity == 2 || ((t - 1) / 4 + (t - 1) % 4) % 2 == parity {
            seq![start_place(map, top, btm, rots, t - 1) as usize]
        } else {
            Seq::empty()
        }
    }
}

/// Each of the sixteen start arrangements is in the map.
pub open spec fn starts_in_map(map: Map<u32, usize>, top: Seq<usize>, btm: Seq<usize>) -> bool {
    forall|i: int, j: int|
        0 <= i < 4 && 0 <= j < 4 ==> octal8(#[trigger] start_at(top, btm, i, j)) && map.contains_key(
            code8(start_at(top, btm, i, j)) as u32,
        )
}

/// The sixteen arrangements reached from the identity by turning the top
/// ring `j` times after turning the bottom ring `i` times, as places
/// `rots * place + (4 * j + i)` (or `place` with one ring state), with those
/// where `i + j` has parity `parity` listed in `pushed` too (all of them
/// when `parity` is 2).
fn ring_starts(
    perm_list: &Vec<Vec<usize>>,
    perm_map: &HashMap<u32, usize>,
    top: &Vec<usize>,
    btm: &Vec<usize>,
    rots: usize,
    parity: usize,
) -> (r: Option<(Vec<usize>, Vec<usize>)>)
    requires
        code_map(index_views(perm_list@), perm_map@),
        rots == 1 || rots == 16,
        rots * perm_list.len() <= usize::MAX,
        octal8(top@),
        octal8(btm@),
    ensures
        match r {
            Some((starts, pushed)) => {
                &&& forall|k: int| 0 <= k < starts.len() ==> #[trigger] starts@[k] < rots * perm_list.len()
                &&& forall|k: int| 0 <= k < pushed.len() ==> #[trigger] pushed@[k] < rots * perm_list.len()
            },
            None => true,
        },
        r is Some <==> starts_in_map(perm_map@, top@, btm@),
        r matches Some((starts, pushed)) ==> starts@ == start_list(perm_map@, top@, btm@, rots as int, 16) && pushed@
            == pushed_list(perm_map@, top@, btm@, rots as int, parity as int, 16),
{
    let mut starts: Vec<usize> = Vec::new();
    let mut pushed: Vec<usize> = Vec::new();
    let mut start = octets(0, 1, 2, 3, 4, 5, 6, 7);
    assert(start@ == start_at(top@, btm@, 0, 0));
    let mut i: usize = 0;
    while i < 4
        invariant
            code_map(index_views(perm_list@), perm_map@),
            rots == 1 || rots == 16,
            rots * perm_list.len() <= usize::MAX,
            octal8(top@),
            octal8(btm@),
            start.len() == 8,
            i <= 4,
            start@ == start_at(top@, btm@, i as int, 0),
            starts@ == start_list(perm_map@, top@, btm@, rots as int, 4 * i),
            pushed@ == pushed_list(perm_map@, top@, btm@, rots as int, parity as int, 4 * i),
            forall|a: int, b: int|
                0 <= a < i && 0 <= b < 4 ==> octal8(#[trigger] start_at(top@, btm@, a, b)) && perm_map@.contains_key(
                    code8(start_at(top@, btm@, a, b)) as u32,
                ),
            forall|k: int| 0 <= k < starts.len() ==> #[trigger] starts@[k] < rots * perm_list.len(),
            forall|k: int| 0 <= k < pushed.len() ==> #[trigger] pushed@[k] < rots * perm_list.len(),
        decreases 4 - i,
    {
        let mut j: usize = 0;
        while j < 4
            invariant
                code_map(index_views(perm_list@), perm_map@),
                rots == 1 || rots == 16,
                rots * perm_list.len() <= usize::MAX,
                octal8(top@),
                octal8(btm@),
                start.len() == 8,
                i < 4,
                j <= 4,
                start@ == start_at(top@, btm@, i as int, j as int),
                starts@ == start_list(perm_map@, top@, btm@, rots as int, 4 * i + j),
                pushed@ == pushed_list(perm_map@, top@, btm@, rots as int, parity as int, 4 * i + j),
                forall|a: int, b: int|
                    (0 <= a < i && 0 <= b < 4) || (a == i && 0 <= b < j) ==> octal8(#[trigger] start_at(top@, btm@, a, b))
                        && perm_map@.contains_key(code8(start_at(top@, btm@, a, b)) as u32),
                forall|k: int| 0 <= k < starts.len() ==> #[trigger] starts@[k] < rots * perm_list.len(),
                forall|k: int| 0 <= k < pushed.len() ==> #[trigger] pushed@[k] < rots * perm_list.len(),
            decreases 4 - j,
        {
            let place = match place_of(perm_map, &start) {
                Some(v) => v,
                None => {
                    assert(!(octal8(start_at(top@, btm@, i as int, j as int)) && perm_map@.contains_key(
                        code8(start_at(top@, btm@, i as int, j as int)) as u32,
                    )));
                    return None;
                },
            };
            let ring: usize = if rots == 16 {
                4 * j + i
            } else {
                0
            };
            proof {
                assert(place < perm_list.len());
                assert(rots * place + ring < rots * perm_list.len()) by (nonlinear_arith)
                    requires
                        place < perm_list.len(),
                        ring < rots,
                ;
            }
            let idx = rots * place + ring;
            let ghost t = 4 * i + j;
            assert(t / 4 == i && t % 4 == j);
            assert(idx as int == start_place(perm_map@, top@, btm@, rots as int, t));
            let ghost pb = pushed@;
            if parity == 2 || (i + j) % 2 == parity {
                pushed.push(idx);
            }
            assert(pushed@ =~= pushed_list(perm_map@, top@, btm@, rots as int, parity as int, t + 1)) by {
                assert(pb == pushed_list(perm_map@, top@, btm@, rots as int, parity as int, t));
            }
            starts.push(idx);
            start = apply_perm(&start, top);
            assert(start@ == start_at(top@, btm@, i as int, j + 1));
            j = j + 1;
        }
        start = apply_perm(&start, btm);
        assert(start@ == start_at(top@, btm@, i + 1, 0));
        i = i + 1;
    }
    Some((starts, pushed))
}

/// Search tables of the centre stage: the positions are arrangements only,
/// and the search starts from the sixteen turns of the solved rings, of
/// which only those whose two turn counts add up to `parity` (mod 2) are
/// expanded. `None` when an arrangement or move leaves the map.
#[verifier::spinoff_prover]
pub fn bfs0(perm_list: &Vec<Vec<usize>>, perm_map: &HashMap<u32, usize>, parity: usize) -> (r:
    Option<(Vec<Option<usize>>, Vec<Option<usize>>)>)
    requires
        code_map(index_views(perm_list@), perm_map@),
        parity < 2,
    ensures
        match r {
            Some((prev_state, prev_action)) => ring_tables(
                index_views(perm_list@),
                perm_map@,
                1,
                center_ring_moves(),
                prev_state@,
                prev_action@,
            ) && exists|cost: Seq<i32>|
                ring_cheapest(
                    index_views(perm_list@),
                    perm_map@,
                    1,
                    center_ring_moves(),
                    start_list(perm_map@, center_ring_moves()[0].0, center_ring_moves()[2].0, 1, 16),
                    pushed_list(perm_map@, center_ring_moves()[0].0, center_ring_moves()[2].0, 1, parity as int, 16),
                    prev_state@,
                    prev_action@,
                    cost,
                ),
            None => !starts_in_map(perm_map@, center_ring_moves()[0].0, center_ring_moves()[2].0) || ring_gap(index_views(perm_list@), perm_map@, 1, center_ring_moves()),
        },
{
    let actions = center_moves();
    proof {
        lemma_center_moves_ok();
        assert(octal8(moves_view(actions@)[0].0));
        assert(octal8(moves_view(actions@)[2].0));
        assert(moves_view(actions@)[0].0 == actions@[0].0@);
        assert(moves_view(actions@)[2].0 == actions@[2].0@);
    }
    let (starts, pushed) = match ring_starts(perm_list, perm_map, &actions[0].0, &actions[2].0, 1, parity) {
        Some(v) => v,
        None => {
            return None;
        },
    };
    ring_search(perm_list, perm_map, &actions, 1, &starts, &pushed)
}

/// Search tables of the corner stage: each position is an arrangement and
/// the turns of the two inner rings; the search starts from the sixteen
/// turns of the solved rings. `None` when an arrangement or move leaves the
/// map, or the positions do not fit in memory.
#[verifier::spinoff_prover]
pub fn bfs1(perm_list: &Vec<Vec<usize>>, perm_map: &HashMap<u32, usize>) -> (r: Option<
    (Vec<Option<usize>>, Vec<Option<usize>>),
>)
    requires
        code_map(index_views(perm_list@), perm_map@),
    ensures
        match r {
            Some((prev_state, prev_action)) => ring_tables(
                index_views(perm_list@),
                perm_map@,
                16,
                corner_ring_moves(),
                prev_state@,
                prev_action@,
            ) && exists|cost: Seq<i32>|
                ring_cheapest(
                    index_views(perm_list@),
                    perm_map@,
                    16,
                    corner_ring_moves(),
                    start_list(perm_map@, corner_ring_moves()[0].0, corner_ring_moves()[2].0, 16, 16),
                    pushed_list(perm_map@, corner_ring_moves()[0].0, corner_ring_moves()[2].0, 16, 2, 16),
                    prev_state@,
                    prev_action@,
                    cost,
                ),
            None => perm_list.len() > usize::MAX / 16 || !starts_in_map(perm_map@, corner_ring_moves()[0].0, corner_ring_moves()[2].0) || ring_gap(index_views(perm_list@), perm_map@, 16, corner_ring_moves()),
        },
{
    if perm_list.len() > usize::MAX / 16 {
        return None;
    }
    let actions = corner_moves();
    proof {
        lemma_corner_moves_ok();
        assert(octal8(moves_view(actions@)[0].0));
        assert(octal8(moves_view(actions@)[2].0));
        assert(moves_view(actions@)[0].0 == actions@[0].0@);
        assert(moves_view(actions@)[2].0 == actions@[2].0@);
    }
    let (starts, pushed) = match ring_starts(perm_list, perm_map, &actions[0].0, &actions[2].0, 16, 2) {
        Some(v) => v,
        None => {
            return None;
        },
    };
    ring_search(perm_list, perm_map, &actions, 16, &starts, &pushed)
}

/// Search tables of the edge stage, positions as in the corner stage.
/// `None` when an arrangement or move leaves the map, or the positions do
/// not fit in memory.
#[verifier::spinoff_prover]
pub fn bfs3(perm_list: &Vec<Vec<usize>>, perm_map: &HashMap<u32, usize>) -> (r: Option<
    (Vec<Option<usize>>, Vec<Option<usize>>),
>)
    requires
        code_map(index_views(perm_list@), perm_map@),
    ensures
        match r {
            Some((prev_state, prev_action)) => ring_tables(
                index_views(perm_list@),
                perm_map@,
                16,
                edge_ring_moves(),
                prev_state@,
                prev_action@,
            ) && exists|cost: Seq<i32>|
                ring_cheapest(
                    index_views(perm_list@),
                    perm_map@,
                    16,
                    edge_ring_moves(),
                    start_list(perm_map@, edge_ring_moves()[0].0, edge_ring_moves()[2].0, 16, 16),
                    pushed_list(perm_map@, edge_ring_moves()[0].0, edge_ring_moves()[2].0, 16, 2, 16),
                    prev_state@,
                    prev_action@,
                    cost,
                ),
            None => perm_list.len() > usize::MAX / 16 || !starts_in_map(perm_map@, edge_ring_moves()[0].0, edge_ring_moves()[2].0) || ring_gap(index_views(perm_list@), perm_map@, 16, edge_ring_moves()),
        },
{
    if perm_list.len() > usize::MAX / 16 {
        return None;
    }
    let actions = edge_moves();
    proof {
        lemma_edge_moves_ok();
        assert(octal8(moves_view(actions@)[0].0));
        assert(octal8(moves_view(actions@)[2].0));
        assert(moves_view(actions@)[0].0 == actions@[0].0@);
        assert(moves_view(actions@)[2].0 == actions@[2].0@);
    }
    let (starts, pushed) = match ring_starts(perm_list, perm_map, &actions[0].0, &actions[2].0, 16, 2) {
        Some(v) => v,
        None => {
            return None;
        },
    };
    ring_search(perm_list, perm_map, &actions, 16, &starts, &pushed)
}

} // verus!
