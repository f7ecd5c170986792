//! The one-face searches of the cube with distinct pieces: four pieces are
//! tracked at a time, a position is where they are among `size` places
//! (an arrangement of four of `0..size`), with, optionally, how far the
//! face is turned. Arrangements are packed five bits per piece.
use vstd::prelude::*;
use std::collections::HashMap;
use crate::four_faces::index_views;
use crate::green::{arrangements, permutations, upto};
use crate::search::{cost_sum, lemma_cost_sum_nonneg, lemma_cost_sum_update, steps_ranked};

verus! {

broadcast use vstd::std_specs::hash::group_hash_axioms;

/// `p` read as a base-32 number, its first entry the least significant digit.
pub open spec fn code32(p: Seq<usize>) -> int
    decreases p.len(),
{
    if p.len() == 0 {
        0
    } else {
        p[0] + 32 * code32(p.drop_first())
    }
}

/// Four entries, each below 32.
pub open spec fn quad(p: Seq<usize>) -> bool {
    p.len() == 4 && forall|i: int| 0 <= i < 4 ==> #[trigger] p[i] < 32
}

/// The base-32 code of `p` when it is four entries below 32.
pub fn pack4(p: &Vec<usize>) -> (r: Option<u32>)
    ensures
        match r {
            Some(c) => quad(p@) && c as int == code32(p@),
            None => !quad(p@),
        },
{
    if p.len() != 4 {
        return None;
    }
    if p[0] >= 32 || p[1] >= 32 || p[2] >= 32 || p[3] >= 32 {
        return None;
    }
    proof {
        let s = p@;
        let d1 = s.drop_first();
        let d2 = d1.drop_first();
        let d3 = d2.drop_first();
        assert(d3.drop_first().len() == 0);
        assert(code32(d3) == d3[0] + 32 * code32(d3.drop_first()));
        assert(code32(d2) == d2[0] + 32 * code32(d3));
        assert(code32(d1) == d1[0] + 32 * code32(d2));
        assert(code32(s) == s[0] + 32 * code32(d1));
        assert(d1[0] == s[1] && d2[0] == s[2] && d3[0] == s[3]);
    }
    let c = (p[0] + 32 * (p[1] + 32 * (p[2] + 32 * p[3]))) as u32;
    Some(c)
}

/// `map` sends each key to a place of `list` holding four entries below 32
/// whose code is that key.
pub open spec fn quad_map(list: Seq<Seq<usize>>, map: Map<u32, usize>) -> bool {
    forall|key: u32| #[trigger]
        map.contains_key(key) ==> {
            &&& map[key] < list.len()
            &&& quad(list[map[key] as int])
            &&& code32(list[map[key] as int]) == key as int
        }
}

/// The map from the code of each of the first `n` arrangements of `list`
/// that is four entries below 32 to its place, a later place replacing an
/// earlier one of the same code.
pub open spec fn code_places(list: Seq<Seq<usize>>, n: nat) -> Map<u32, usize>
    decreases n,
{
    if n == 0 {
        Map::empty()
    } else if quad(list[n - 1]) {
        code_places(list, (n - 1) as nat).insert(code32(list[n - 1]) as u32, (n - 1) as usize)
    } else {
        code_places(list, (n - 1) as nat)
    }
}

proof fn lemma_code_places(list: Seq<Seq<usize>>, n: nat)
    requires
        n <= list.len(),
        list.len() <= usize::MAX,
    ensures
        quad_map(list, code_places(list, n)),
    decreases n,
{
    if n > 0 {
        lemma_code_places(list, (n - 1) as nat);
        let m = code_places(list, n);
        assert forall|key: u32| #[trigger] m.contains_key(key) implies {
            &&& m[key] < list.len()
            &&& quad(list[m[key] as int])
            &&& code32(list[m[key] as int]) == key as int
        } by {
            if quad(list[n - 1]) && key == code32(list[n - 1]) as u32 {
                assert(0 <= code32(list[n - 1]) < 1048576) by {
                    lemma_code32_small(list[n - 1]);
                }
            }
        }
    }
}

proof fn lemma_code32_small(p: Seq<usize>)
    requires
        quad(p),
    ensures
        0 <= code32(p) < 1048576,
{
    let d1 = p.drop_first();
    let d2 = d1.drop_first();
    let d3 = d2.drop_first();
    assert(d3.drop_first().len() == 0);
    assert(code32(d3) == d3[0] + 32 * code32(d3.drop_first()));
    assert(code32(d2) == d2[0] + 32 * code32(d3));
    assert(code32(d1) == d1[0] + 32 * code32(d2));
    assert(code32(p) == p[0] + 32 * code32(d1));
    assert(d1[0] == p[1] && d2[0] == p[2] && d3[0] == p[3]);
    assert(p[0] < 32 && p[1] < 32 && p[2] < 32 && p[3] < 32);
}

/// All arrangements of four of `0..size`, in lexicographic order, with the
/// map from the code of each to its place in the list.
pub fn gen_perm_map_impl(size: usize) -> (r: (Vec<Vec<usize>>, HashMap<u32, usize>))
    ensures
        index_views(r.0@) == arrangements(upto(size as nat), 4),
        r.1@ == code_places(index_views(r.0@), r.0.len() as nat),
        quad_map(index_views(r.0@), r.1@),
{
    let perm_list = permutations(size, 4);
    let ghost list = index_views(perm_list@);
    let mut perm_map: HashMap<u32, usize> = HashMap::new();
    let mut i: usize = 0;
    while i < perm_list.len()
        invariant
            i <= perm_list.len(),
            list == index_views(perm_list@),
            perm_map@ == code_places(list, i as nat),
        decreases perm_list.len() - i,
    {
        assert(list[i as int] == perm_list@[i as int]@);
        match pack4(&perm_list[i]) {
            Some(c) => {
                perm_map.insert(c, i);
                proof {
                    lemma_code32_small(list[i as int]);
                }
                assert(perm_map@ =~= code_places(list, (i + 1) as nat));
            },
            None => {
                assert(perm_map@ =~= code_places(list, (i + 1) as nat));
            },
        }
        i = i + 1;
    }
    proof {
        lemma_code_places(list, perm_list.len() as nat);
    }
    (perm_list, perm_map)
}

/// The arrangements for the front face: four of 24 places.
pub fn gen_perm_map_front_corner() -> (r: (Vec<Vec<usize>>, HashMap<u32, usize>))
    ensures
        index_views(r.0@) == arrangements(upto(24), 4),
        r.1@ == code_places(index_views(r.0@), r.0.len() as nat),
        quad_map(index_views(r.0@), r.1@),
{
    gen_perm_map_impl(24)
}

/// The arrangements for the back face: four of 20 places.
pub fn gen_perm_map_back_corner() -> (r: (Vec<Vec<usize>>, HashMap<u32, usize>))
    ensures
        index_views(r.0@) == arrangements(upto(20), 4),
        r.1@ == code_places(index_views(r.0@), r.0.len() as nat),
        quad_map(index_views(r.0@), r.1@),
{
    gen_perm_map_impl(20)
}

/// The arrangements for the up face: four of 16 places.
pub fn gen_perm_map_up_corner() -> (r: (Vec<Vec<usize>>, HashMap<u32, usize>))
    ensures
        index_views(r.0@) == arrangements(upto(16), 4),
        r.1@ == code_places(index_views(r.0@), r.0.len() as nat),
        quad_map(index_views(r.0@), r.1@),
{
    gen_perm_map_impl(16)
}

/// The arrangements for the left face: four of 12 places.
pub fn gen_perm_map_left_corner() -> (r: (Vec<Vec<usize>>, HashMap<u32, usize>))
    ensures
        index_views(r.0@) == arrangements(upto(12), 4),
        r.1@ == code_places(index_views(r.0@), r.0.len() as nat),
        quad_map(index_views(r.0@), r.1@),
{
    gen_perm_map_impl(12)
}

/// The piece of arrangement `p` at place `v`, among its first `n` pieces:
/// the last one there, or 100 when none is.
pub open spec fn holder(p: Seq<usize>, v: usize, n: nat) -> usize
    decreases n,
{
    if n == 0 {
        100
    } else if p[n - 1] == v {
        (n - 1) as usize
    } else {
        holder(p, v, (n - 1) as nat)
    }
}

proof fn lemma_holder_bound(p: Seq<usize>, v: usize, n: nat)
    requires
        n <= p.len() <= usize::MAX,
    ensures
        holder(p, v, n) == 100 || holder(p, v, n) < n,
        holder(p, v, n) != 100 ==> p[holder(p, v, n) as int] == v,
    decreases n,
{
    if n > 0 {
        lemma_holder_bound(p, v, (n - 1) as nat);
    }
}

/// The last new place, among the first `n` of `perm`, whose piece comes from
/// the place of piece `k` of `p`.
pub open spec fn arrival(p: Seq<usize>, perm: Seq<usize>, k: usize, n: nat) -> Option<usize>
    decreases n,
{
    if n == 0 {
        None
    } else if holder(p, perm[n - 1], p.len()) == k && k != 100 {
        Some((n - 1) as usize)
    } else {
        arrival(p, perm, k, (n - 1) as nat)
    }
}

/// Arrangement `p` after the move `perm` (new place `i` takes the piece of
/// place `perm[i]`): each piece goes to the place its piece is moved to,
/// or to `p.len() - 1` when the move takes it nowhere.
pub open spec fn perm_to_partial(p: Seq<usize>, perm: Seq<usize>) -> Seq<usize> {
    Seq::new(
        p.len(),
        |k: int|
            match arrival(p, perm, k as usize, perm.len()) {
                Some(i) => i,
                None => (p.len() - 1) as usize,
            },
    )
}

/// The last place below `n` that holds piece `k` of `p`.
pub open spec fn departure(p: Seq<usize>, k: usize, n: nat) -> Option<usize>
    decreases n,
{
    if n == 0 {
        None
    } else if holder(p, (n - 1) as usize, p.len()) == k && k != 100 {
        Some((n - 1) as usize)
    } else {
        departure(p, k, (n - 1) as nat)
    }
}

/// Arrangement `p` after the inverse of the move `perm`: each piece goes
/// to `perm` of its place, or to `p.len() - 1` when it has no place below
/// `perm.len()`.
pub open spec fn perm_to_partial_inv(p: Seq<usize>, perm: Seq<usize>) -> Seq<usize> {
    Seq::new(
        p.len(),
        |k: int|
            match departure(p, k as usize, perm.len()) {
                Some(i) => perm[i as int],
                None => (p.len() - 1) as usize,
            },
    )
}

/// An arrangement and a move it can be played with: at least one piece,
/// every place of it and every entry of the move inside the move.
pub open spec fn partial_fits(p: Seq<usize>, perm: Seq<usize>) -> bool {
    &&& p.len() >= 1
    &&& forall|k: int| 0 <= k < p.len() ==> #[trigger] p[k] < perm.len()
}

/// Every entry of the move is a place of it.
pub open spec fn move_closed(perm: Seq<usize>) -> bool {
    forall|i: int| 0 <= i < perm.len() ==> #[trigger] perm[i] < perm.len()
}

/// For each place below `perm.len()`, the piece of `p` there (`holder`).
fn holders(p: &Vec<usize>, size: usize) -> (tmp: Vec<usize>)
    requires
        forall|k: int| 0 <= k < p.len() ==> #[trigger] p@[k] < size,
    ensures
        tmp.len() == size,
        forall|v: int| 0 <= v < size ==> #[trigger] tmp@[v] == holder(p@, v as usize, p.len() as nat),
{
    let mut tmp: Vec<usize> = vec![100; size];
    let mut i: usize = 0;
    while i < p.len()
        invariant
            i <= p.len(),
            tmp.len() == size,
            forall|k: int| 0 <= k < p.len() ==> #[trigger] p@[k] < size,
            forall|v: int| 0 <= v < size ==> #[trigger] tmp@[v] == holder(p@, v as usize, i as nat),
        decreases p.len() - i,
    {
        tmp.set(p[i], i);
        i = i + 1;
    }
    tmp
}

/// `p` after the move `perm` (`perm_to_partial`).
pub fn apply_perm_to_partial(p: &Vec<usize>, perm: &Vec<usize>) -> (r: Vec<usize>)
    requires
        partial_fits(p@, perm@),
        move_closed(perm@),
    ensures
        r@ == perm_to_partial(p@, perm@),
{
    let tmp = holders(p, perm.len());
    let mut res: Vec<usize> = vec![p.len() - 1; p.len()];
    let mut idx: usize = 0;
    while idx < perm.len()
        invariant
            idx <= perm.len(),
            tmp.len() == perm.len(),
            res.len() == p.len(),
            p.len() >= 1,
            move_closed(perm@),
            forall|v: int| 0 <= v < perm.len() ==> #[trigger] tmp@[v] == holder(p@, v as usize, p.len() as nat),
            forall|k: int|
                0 <= k < p.len() ==> #[trigger] res@[k] == match arrival(p@, perm@, k as usize, idx as nat) {
                    Some(i) => i,
                    None => (p.len() - 1) as usize,
                },
        decreases perm.len() - idx,
    {
        let v = perm[idx];
        let h = tmp[v];
        proof {
            lemma_holder_bound(p@, v, p.len() as nat);
        }
        if h != 100 {
            res.set(h, idx);
        }
        idx = idx + 1;
    }
    assert(res@ =~= perm_to_partial(p@, perm@));
    res
}

/// `p` after the inverse of the move `perm` (`perm_to_partial_inv`).
pub fn apply_perm_to_partial_inv(p: &Vec<usize>, perm: &Vec<usize>) -> (r: Vec<usize>)
    requires
        partial_fits(p@, perm@),
    ensures
        r@ == perm_to_partial_inv(p@, perm@),
{
    let tmp = holders(p, perm.len());
    let mut res: Vec<usize> = vec![p.len() - 1; p.len()];
    let mut idx: usize = 0;
    while idx < perm.len()
        invariant
            idx <= perm.len(),
            tmp.len() == perm.len(),
            res.len() == p.len(),
            p.len() >= 1,
            forall|v: int| 0 <= v < perm.len() ==> #[trigger] tmp@[v] == holder(p@, v as usize, p.len() as nat),
            forall|k: int|
                0 <= k < p.len() ==> #[trigger] res@[k] == match departure(p@, k as usize, idx as nat) {
                    Some(i) => perm@[i as int],
                    None => (p.len() - 1) as usize,
                },
        decreases perm.len() - idx,
    {
        let h = tmp[idx];
        proof {
            lemma_holder_bound(p@, idx, p.len() as nat);
        }
        if h != 100 {
            res.set(h, perm[idx]);
        }
        idx = idx + 1;
    }
    assert(res@ =~= perm_to_partial_inv(p@, perm@));
    res
}

/// The last of the first `n` targets whose current piece is `v`.
pub open spec fn current_place(cur: Seq<usize>, t: Seq<usize>, v: usize, n: int) -> Option<int>
    decreases n,
{
    if n <= 0 {
        None
    } else if cur[t[n - 1] as int] == v {
        Some(n - 1)
    } else {
        current_place(cur, t, v, n - 1)
    }
}

/// For each of the positions `pos`, the target where the solved piece of
/// target `pos[j]` now sits; `None` when one sits on no target.
pub open spec fn face_arrangement(cur: Seq<usize>, sol: Seq<usize>, t: Seq<usize>, pos: Seq<usize>) -> Option<Seq<usize>> {
    if forall|j: int| 0 <= j < pos.len() ==> #[trigger] current_place(cur, t, sol[t[pos[j] as int] as int], t.len() as int) is Some {
        Some(Seq::new(pos.len(), |j: int| current_place(cur, t, sol[t[pos[j] as int] as int], t.len() as int)->0 as usize))
    } else {
        None
    }
}

/// The place in `map` of the arrangement at positions `pos` of targets `t`.
pub open spec fn face_place(cur: Seq<usize>, sol: Seq<usize>, t: Seq<usize>, pos: Seq<usize>, map: Map<u32, usize>) -> Option<usize> {
    match face_arrangement(cur, sol, t, pos) {
        Some(q) => if quad(q) && map.contains_key(code32(q) as u32) {
            Some(map[code32(q) as u32])
        } else {
            None
        },
        None => None,
    }
}

/// Targets that are indexes of both states.
pub open spec fn targets_in(t: Seq<usize>, cur: Seq<usize>, sol: Seq<usize>) -> bool {
    forall|k: int| 0 <= k < t.len() ==> #[trigger] t[k] < cur.len() && t[k] < sol.len()
}

/// The place of the arrangement of the solved pieces of targets `pos`
/// (`face_place`); `None` when a piece sits on no target or the
/// arrangement has no place in the map.
pub fn calc_permutation_idx_impl(
    cur_state: &Vec<usize>,
    sol_state: &Vec<usize>,
    perm_map: &HashMap<u32, usize>,
    target_idx: &Vec<usize>,
    target_pos: &Vec<usize>,
) -> (r: Option<usize>)
    requires
        targets_in(target_idx@, cur_state@, sol_state@),
        forall|j: int| 0 <= j < target_pos.len() ==> #[trigger] target_pos@[j] < target_idx.len(),
    ensures
        r == face_place(cur_state@, sol_state@, target_idx@, target_pos@, perm_map@),
{
    let ghost t = target_idx@;
    let n = target_idx.len();
    let mut q: Vec<usize> = Vec::new();
    let mut j: usize = 0;
    while j < target_pos.len()
        invariant
            j <= target_pos.len(),
            n == target_idx.len(),
            t == target_idx@,
            targets_in(t, cur_state@, sol_state@),
            forall|jj: int| 0 <= jj < target_pos.len() ==> #[trigger] target_pos@[jj] < n,
            q.len() == j,
            forall|jj: int|
                0 <= jj < j ==> #[trigger] current_place(cur_state@, t, sol_state@[t[target_pos@[jj] as int] as int], n as int)
                    == Some(q@[jj] as int),
        decreases target_pos.len() - j,
    {
        let v = sol_state[target_idx[target_pos[j]]];
        let mut i: usize = n;
        let mut found: Option<usize> = None;
        while i > 0 && found.is_none()
            invariant
                i <= n == target_idx.len(),
                t == target_idx@,
                targets_in(t, cur_state@, sol_state@),
                match found {
                    Some(f) => current_place(cur_state@, t, v, n as int) == Some(f as int),
                    None => current_place(cur_state@, t, v, n as int) == current_place(cur_state@, t, v, i as int),
                },
            decreases i,
        {
            if cur_state[target_idx[i - 1]] == v {
                found = Some(i - 1);
            }
            i = i - 1;
        }
        match found {
            Some(f) => {
                q.push(f);
            },
            None => {
                assert(current_place(cur_state@, t, v, n as int) is None);
                return None;
            },
        }
        j = j + 1;
    }
    proof {
        let ghost want = Seq::new(
            target_pos.len() as nat,
            |jj: int| current_place(cur_state@, t, sol_state@[t[target_pos@[jj] as int] as int], n as int)->0 as usize,
        );
        assert(q@ =~= want);
        assert(face_arrangement(cur_state@, sol_state@, t, target_pos@) == Some(q@));
    }
    match pack4(&q) {
        Some(c) => match perm_map.get(&c) {
            Some(i) => Some(*i),
            None => None,
        },
        None => None,
    }
}

fn four_places(a: usize, b: usize, c: usize, d: usize) -> (r: Vec<usize>)
    ensures
        r@ == seq![a, b, c, d],
{
    let mut r: Vec<usize> = Vec::new();
    r.push(a);
    r.push(b);
    r.push(c);
    r.push(d);
    assert(r@ =~= seq![a, b, c, d]);
    r
}

/// `calc_permutation_idx_impl` for the front face: positions 4 to 7.
pub fn calc_permutation_idx_front(cur_state: &Vec<usize>, sol_state: &Vec<usize>, perm_map: &HashMap<u32, usize>, target_idx: &Vec<usize>) -> (r: Option<usize>)
    requires
        targets_in(target_idx@, cur_state@, sol_state@),
        target_idx.len() >= 8,
    ensures
        r == face_place(cur_state@, sol_state@, target_idx@, seq![4usize, 5, 6, 7], perm_map@),
{
    calc_permutation_idx_impl(cur_state, sol_state, perm_map, target_idx, &four_places(4, 5, 6, 7))
}

/// `calc_permutation_idx_impl` for the back face: positions 8 to 11.
pub fn calc_permutation_idx_back(cur_state: &Vec<usize>, sol_state: &Vec<usize>, perm_map: &HashMap<u32, usize>, target_idx: &Vec<usize>) -> (r: Option<usize>)
    requires
        targets_in(target_idx@, cur_state@, sol_state@),
        target_idx.len() >= 12,
    ensures
        r == face_place(cur_state@, sol_state@, target_idx@, seq![8usize, 9, 10, 11], perm_map@),
{
    calc_permutation_idx_impl(cur_state, sol_state, perm_map, target_idx, &four_places(8, 9, 10, 11))
}

/// `calc_permutation_idx_impl` for the up face: positions 0 to 3.
pub fn calc_permutation_idx_up(cur_state: &Vec<usize>, sol_state: &Vec<usize>, perm_map: &HashMap<u32, usize>, target_idx: &Vec<usize>) -> (r: Option<usize>)
    requires
        targets_in(target_idx@, cur_state@, sol_state@),
        target_idx.len() >= 4,
    ensures
        r == face_place(cur_state@, sol_state@, target_idx@, seq![0usize, 1, 2, 3], perm_map@),
{
    calc_permutation_idx_impl(cur_state, sol_state, perm_map, target_idx, &four_places(0, 1, 2, 3))
}

/// `calc_permutation_idx_impl` for the left face: positions 4 to 7.
pub fn calc_permutation_idx_left(cur_state: &Vec<usize>, sol_state: &Vec<usize>, perm_map: &HashMap<u32, usize>, target_idx: &Vec<usize>) -> (r: Option<usize>)
    requires
        targets_in(target_idx@, cur_state@, sol_state@),
        target_idx.len() >= 8,
    ensures
        r == face_place(cur_state@, sol_state@, target_idx@, seq![4usize, 5, 6, 7], perm_map@),
{
    calc_permutation_idx_impl(cur_state, sol_state, perm_map, target_idx, &four_places(4, 5, 6, 7))
}

/// The views of a table of moves of a one-face search: the move, how far
/// it turns the face, and its cost.
pub open spec fn face_moves_view(actions: Seq<(Vec<usize>, usize, i32)>) -> Seq<(Seq<usize>, usize, i32)> {
    actions.map_values(|m: (Vec<usize>, usize, i32)| (m.0@, m.1, m.2))
}

/// Each move sends every place to a place of it, turns the face by less
/// than a full turn, and costs at least one.
pub open spec fn face_moves_ok(actions: Seq<(Seq<usize>, usize, i32)>) -> bool {
    forall|k: int|
        0 <= k < actions.len() ==> {
            &&& move_closed(#[trigger] actions[k].0)
            &&& actions[k].1 < 4
            &&& actions[k].2 >= 1
        }
}

/// The position reached from position `i` by move `m`, with `rots` turns
/// of the face per arrangement; `None` when the move cannot be played on
/// the arrangement or the moved arrangement has no place in the map.
pub open spec fn face_step(list: Seq<Seq<usize>>, map: Map<u32, usize>, rots: int, i: int, m: (Seq<usize>, usize, i32)) -> Option<int> {
    let p = list[i / rots];
    if partial_fits(p, m.0) {
        let q = perm_to_partial(p, m.0);
        if quad(q) && map.contains_key(code32(q) as u32) {
            Some(rots * map[code32(q) as u32] + (i % rots + m.1) % rots)
        } else {
            None
        }
    } else {
        None
    }
}

/// Every recorded step is a move: position `i` is reached from position
/// `prev_state[i]` by the move `prev_action[i]`.
pub open spec fn face_steps_valid(
    list: Seq<Seq<usize>>,
    map: Map<u32, usize>,
    rots: int,
    actions: Seq<(Seq<usize>, usize, i32)>,
    prev_state: Seq<Option<usize>>,
    prev_action: Seq<Option<usize>>,
) -> bool {
    &&& prev_state.len() == rots * list.len()
    &&& prev_action.len() == rots * list.len()
    &&& forall|i: int|
        0 <= i < prev_state.len() ==> (#[trigger] prev_state[i] is Some <==> prev_action[i] is Some)
    &&& forall|i: int|
        0 <= i < prev_state.len() && #[trigger] prev_state[i] is Some ==> {
            let p = prev_state[i]->0;
            let a = prev_action[i]->0;
            &&& p < prev_state.len()
            &&& a < actions.len()
            &&& face_step(list, map, rots, p as int, actions[a as int]) == Some(i)
        }
}

/// Some position has a move that cannot be played or leaves the map.
pub open spec fn face_gap(list: Seq<Seq<usize>>, map: Map<u32, usize>, rots: int, actions: Seq<(Seq<usize>, usize, i32)>) -> bool {
    exists|i: int, k: int|
        0 <= i < rots * list.len() && 0 <= k < actions.len() && #[trigger] face_step(list, map, rots, i, #[trigger] actions[k]) is None
}

/// The costs as integers.
pub open spec fn cost_ints(cost: Seq<i32>) -> Seq<int> {
    cost.map_values(|c: i32| c as int)
}

/// Move `a` from position `i` can be played, stays in the map, and leads
/// to a position that costs no more than `i` plus the move (unless that sum
/// leaves `i32`).
pub open spec fn face_move_relaxed(
    list: Seq<Seq<usize>>,
    map: Map<u32, usize>,
    rots: int,
    actions: Seq<(Seq<usize>, usize, i32)>,
    cost: Seq<i32>,
    i: int,
    a: int,
) -> bool {
    &&& face_step(list, map, rots, i, actions[a]) is Some
    &&& (cost[i] + actions[a].2 > i32::MAX || cost[face_step(list, map, rots, i, actions[a])->0] <= cost[i]
        + actions[a].2)
}

/// Every move from position `i` is relaxed.
pub open spec fn face_relaxed(
    list: Seq<Seq<usize>>,
    map: Map<u32, usize>,
    rots: int,
    actions: Seq<(Seq<usize>, usize, i32)>,
    cost: Seq<i32>,
    i: int,
) -> bool {
    forall|a: int| 0 <= a < actions.len() ==> #[trigger] face_move_relaxed(list, map, rots, actions, cost, i, a)
}

/// `cost` is the least total move cost of each position from the starts
/// (`i32::MAX` for those not reached), and the tables lie on cheapest
/// paths: the starts cost 0 and only they do; a position has a step
/// exactly when it is reached and costs more than 0; each step costs its
/// predecessor's cost plus the move; and from every reached position every
/// move is relaxed, so no path is cheaper.
pub open spec fn face_cheapest(
    list: Seq<Seq<usize>>,
    map: Map<u32, usize>,
    rots: int,
    actions: Seq<(Seq<usize>, usize, i32)>,
    starts: Seq<usize>,
    prev_state: Seq<Option<usize>>,
    prev_action: Seq<Option<usize>>,
    cost: Seq<i32>,
) -> bool {
    &&& cost.len() == rots * list.len()
    &&& forall|j: int| 0 <= j < starts.len() ==> cost[#[trigger] starts[j] as int] == 0
    &&& forall|i: int| 0 <= i < cost.len() ==> #[trigger] cost[i] >= 0
    &&& forall|i: int| 0 <= i < cost.len() && #[trigger] cost[i] == 0 ==> starts.contains(i as usize)
    &&& forall|i: int| 0 <= i < cost.len() ==> (#[trigger] prev_state[i] is Some <==> 0 < cost[i] < i32::MAX)
    &&& forall|i: int|
        0 <= i < cost.len() && #[trigger] prev_state[i] is Some ==> cost[i] == cost[prev_state[i]->0 as int]
            + actions[prev_action[i]->0 as int].2
    &&& forall|i: int| 0 <= i < cost.len() && #[trigger] cost[i] < i32::MAX ==> face_relaxed(list, map, rots, actions, cost, i)
}

/// A step that stays in the map leads to a position of the search.
proof fn lemma_face_step_range(list: Seq<Seq<usize>>, map: Map<u32, usize>, rots: int, i: int, m: (Seq<usize>, usize, i32))
    requires
        rots == 1 || rots == 4,
        quad_map(list, map),
        face_step(list, map, rots, i, m) is Some,
    ensures
        0 <= face_step(list, map, rots, i, m)->0 < rots * list.len(),
{
    let p = list[i / rots];
    let q = perm_to_partial(p, m.0);
    let key = code32(q) as u32;
    assert(map.contains_key(key));
    let r = map[key];
    assert(r < list.len());
    let part = (i % rots + m.1) % rots;
    assert(0 <= part < rots);
    assert(rots * r + part < rots * list.len()) by (nonlinear_arith)
        requires
            r < list.len(),
            0 <= part < rots,
            rots >= 1,
    ;
    assert(rots * r >= 0) by (nonlinear_arith)
        requires
            r >= 0,
            rots >= 1,
    ;
}

proof fn lemma_face_relaxed_lower(
    list: Seq<Seq<usize>>,
    map: Map<u32, usize>,
    rots: int,
    actions: Seq<(Seq<usize>, usize, i32)>,
    cost: Seq<i32>,
    cost2: Seq<i32>,
    i: int,
    upto: int,
)
    requires
        cost2.len() == cost.len() == rots * list.len(),
        0 <= i < cost.len(),
        cost2[i] == cost[i],
        forall|k: int| 0 <= k < cost.len() ==> #[trigger] cost2[k] <= cost[k],
        forall|a: int| 0 <= a < upto ==> #[trigger] face_move_relaxed(list, map, rots, actions, cost, i, a),
        upto <= actions.len(),
        rots == 1 || rots == 4,
        quad_map(list, map),
    ensures
        forall|a: int| 0 <= a < upto ==> #[trigger] face_move_relaxed(list, map, rots, actions, cost2, i, a),
{
    assert forall|a: int| 0 <= a < upto implies #[trigger] face_move_relaxed(list, map, rots, actions, cost2, i, a) by {
        assert(face_move_relaxed(list, map, rots, actions, cost, i, a));
        lemma_face_step_range(list, map, rots, i, actions[a]);
        let nk = face_step(list, map, rots, i, actions[a])->0;
        assert(cost2[nk] <= cost[nk]);
    }
}

/// Dijkstra's algorithm over the positions `rots * place + turn`, from the
/// positions `starts` (cost 0). Positions of equal cost are expanded in
/// increasing order, and a position keeps the first cheapest step that
/// reaches it. Returns, for each position, the position and move it was
/// reached from and its cost (`i32::MAX` when never reached), or `None`
/// when a move cannot be played or leaves the map.
#[verifier::rlimit(80)]
#[verifier::spinoff_prover]
pub fn face_search(
    perm_list: &Vec<Vec<usize>>,
    perm_map: &HashMap<u32, usize>,
    actions: &Vec<(Vec<usize>, usize, i32)>,
    rots: usize,
    starts: &Vec<usize>,
) -> (r: Option<(Vec<Option<usize>>, Vec<Option<usize>>, Vec<i32>)>)
    requires
        rots == 1 || rots == 4,
        rots * perm_list.len() <= usize::MAX,
        quad_map(index_views(perm_list@), perm_map@),
        face_moves_ok(face_moves_view(actions@)),
        forall|k: int| 0 <= k < starts.len() ==> #[trigger] starts@[k] < rots * perm_list.len(),
    ensures
        match r {
            Some((prev_state, prev_action, cost)) => {
                &&& face_steps_valid(
                    index_views(perm_list@),
                    perm_map@,
                    rots as int,
                    face_moves_view(actions@),
                    prev_state@,
                    prev_action@,
                )
                &&& cost.len() == rots * perm_list.len()
                &&& steps_ranked(prev_state@, cost_ints(cost@))
                &&& forall|k: int|
                    0 <= k < starts.len() ==> cost@[#[trigger] starts@[k] as int] == 0 && prev_state@[starts@[k] as int] is None
                &&& face_cheapest(
                    index_views(perm_list@),
                    perm_map@,
                    rots as int,
                    face_moves_view(actions@),
                    starts@,
                    prev_state@,
                    prev_action@,
                    cost@,
                )
            },
            None => face_gap(index_views(perm_list@), perm_map@, rots as int, face_moves_view(actions@)),
        },
{
    let ghost list = index_views(perm_list@);
    let ghost ms = face_moves_view(actions@);
    let n = rots * perm_list.len();
    let mut prev_state: Vec<Option<usize>> = vec![None; n];
    let mut prev_action: Vec<Option<usize>> = vec![None; n];
    let mut cost: Vec<i32> = vec![i32::MAX; n];
    let mut k: usize = 0;
    while k < starts.len()
        invariant
            k <= starts.len(),
            cost.len() == n,
            n == rots * perm_list.len(),
            forall|j: int| 0 <= j < starts.len() ==> #[trigger] starts@[j] < n,
            forall|i: int| 0 <= i < n ==> #[trigger] cost@[i] >= 0,
            forall|j: int| 0 <= j < k ==> cost@[#[trigger] starts@[j] as int] == 0,
            forall|i: int| 0 <= i < n ==> #[trigger] cost@[i] == 0 || cost@[i] == i32::MAX,
            forall|i: int| 0 <= i < n && #[trigger] cost@[i] == 0 ==> starts@.contains(i as usize),
        decreases starts.len() - k,
    {
        assert(starts@[k as int] == starts@[k as int]);
        cost.set(starts[k], 0);
        k = k + 1;
    }
    proof {
        assert(steps_ranked(prev_state@, cost_ints(cost@)));
        lemma_cost_sum_nonneg(cost@);
    }
    let mut level: i32 = 0;
    let mut top: i32 = 0;
    while level <= top
        invariant
            rots == 1 || rots == 4,
            n == rots * perm_list.len(),
            list == index_views(perm_list@),
            ms == face_moves_view(actions@),
            quad_map(list, perm_map@),
            face_moves_ok(ms),
            cost.len() == n,
            0 <= level <= top + 1,
            top < i32::MAX,
            forall|i: int| 0 <= i < n ==> #[trigger] cost@[i] >= 0,
            forall|j: int| 0 <= j < starts.len() ==> #[trigger] starts@[j] < n,
            forall|j: int|
                0 <= j < starts.len() ==> cost@[#[trigger] starts@[j] as int] == 0
                    && prev_state@[starts@[j] as int] is None,
            face_steps_valid(list, perm_map@, rots as int, ms, prev_state@, prev_action@),
            steps_ranked(prev_state@, cost_ints(cost@)),
            cost_sum(cost@) >= 0,
            forall|i: int| 0 <= i < n && #[trigger] cost@[i] == 0 ==> starts@.contains(i as usize),
            forall|i: int| 0 <= i < n ==> (#[trigger] prev_state@[i] is Some <==> 0 < cost@[i] < i32::MAX),
            forall|i: int|
                0 <= i < n && #[trigger] prev_state@[i] is Some ==> cost@[i] >= cost@[prev_state@[i]->0 as int]
                    + ms[prev_action@[i]->0 as int].2 && cost@[prev_state@[i]->0 as int] < i32::MAX,
            forall|i: int| 0 <= i < n && #[trigger] cost@[i] < i32::MAX ==> cost@[i] <= top,
            forall|i: int|
                0 <= i < n && #[trigger] cost@[i] < level ==> face_relaxed(list, perm_map@, rots as int, ms, cost@, i),
        decreases cost_sum(cost@), top + 1 - level,
    {
        let ghost sum0 = cost_sum(cost@);
        let ghost top0 = top;
        let mut idx: usize = 0;
        while idx < n
            invariant
                rots == 1 || rots == 4,
                n == rots * perm_list.len(),
                list == index_views(perm_list@),
                ms == face_moves_view(actions@),
                quad_map(list, perm_map@),
                face_moves_ok(ms),
                cost.len() == n,
                0 <= level <= top0,
                top0 <= top,
                top < i32::MAX,
                forall|i: int| 0 <= i < n ==> #[trigger] cost@[i] >= 0,
                forall|j: int| 0 <= j < starts.len() ==> #[trigger] starts@[j] < n,
                forall|j: int|
                    0 <= j < starts.len() ==> cost@[#[trigger] starts@[j] as int] == 0
                        && prev_state@[starts@[j] as int] is None,
                face_steps_valid(list, perm_map@, rots as int, ms, prev_state@, prev_action@),
                steps_ranked(prev_state@, cost_ints(cost@)),
                cost_sum(cost@) <= sum0,
                cost_sum(cost@) == sum0 ==> top == top0,
                idx <= n,
                forall|i: int| 0 <= i < n && #[trigger] cost@[i] == 0 ==> starts@.contains(i as usize),
                forall|i: int| 0 <= i < n ==> (#[trigger] prev_state@[i] is Some <==> 0 < cost@[i] < i32::MAX),
                forall|i: int|
                    0 <= i < n && #[trigger] prev_state@[i] is Some ==> cost@[i] >= cost@[prev_state@[i]->0 as int]
                        + ms[prev_action@[i]->0 as int].2 && cost@[prev_state@[i]->0 as int] < i32::MAX,
                forall|i: int| 0 <= i < n && #[trigger] cost@[i] < i32::MAX ==> cost@[i] <= top,
                forall|i: int|
                    0 <= i < n && (#[trigger] cost@[i] < level || (cost@[i] == level && i < idx)) ==> face_relaxed(
                        list,
                        perm_map@,
                        rots as int,
                        ms,
                        cost@,
                        i,
                    ),
            decreases n - idx,
        {
            if cost[idx] == level {
                let rank = idx / rots;
                let rot = idx % rots;
                proof {
                    assert(rank < perm_list.len()) by (nonlinear_arith)
                        requires
                            idx < n,
                            n == rots * perm_list.len(),
                            rots >= 1,
                            rank == idx / rots,
                    ;
                }
                let state = &perm_list[rank];
                assert(list[rank as int] == state@);
                let mut a: usize = 0;
                while a < actions.len()
                    invariant
                        rots == 1 || rots == 4,
                        n == rots * perm_list.len(),
                        list == index_views(perm_list@),
                        ms == face_moves_view(actions@),
                        quad_map(list, perm_map@),
                        face_moves_ok(ms),
                        idx < n,
                        rank == idx / rots,
                        rank < perm_list.len(),
                        rot == idx % rots,
                        state == &perm_list@[rank as int],
                        list[rank as int] == state@,
                        cost.len() == n,
                        cost@[idx as int] == level,
                        0 <= level <= top0,
                        top0 <= top,
                        top < i32::MAX,
                        forall|i: int| 0 <= i < n ==> #[trigger] cost@[i] >= 0,
                        forall|j: int| 0 <= j < starts.len() ==> #[trigger] starts@[j] < n,
                        forall|j: int|
                            0 <= j < starts.len() ==> cost@[#[trigger] starts@[j] as int] == 0
                                && prev_state@[starts@[j] as int] is None,
                        face_steps_valid(list, perm_map@, rots as int, ms, prev_state@, prev_action@),
                        steps_ranked(prev_state@, cost_ints(cost@)),
                        cost_sum(cost@) <= sum0,
                        cost_sum(cost@) == sum0 ==> top == top0,
                        a <= actions.len(),
                        ms.len() == actions.len(),
                        forall|i: int| 0 <= i < n && #[trigger] cost@[i] == 0 ==> starts@.contains(i as usize),
                        forall|i: int| 0 <= i < n ==> (#[trigger] prev_state@[i] is Some <==> 0 < cost@[i] < i32::MAX),
                        forall|i: int|
                            0 <= i < n && #[trigger] prev_state@[i] is Some ==> cost@[i] >= cost@[prev_state@[i]->0 as int]
                                + ms[prev_action@[i]->0 as int].2 && cost@[prev_state@[i]->0 as int] < i32::MAX,
                        forall|i: int| 0 <= i < n && #[trigger] cost@[i] < i32::MAX ==> cost@[i] <= top,
                        forall|i: int|
                            0 <= i < n && i != idx && (#[trigger] cost@[i] < level || (cost@[i] == level && i < idx)) ==> face_relaxed(
                                list,
                                perm_map@,
                                rots as int,
                                ms,
                                cost@,
                                i,
                            ),
                        forall|b: int| 0 <= b < a ==> #[trigger] face_move_relaxed(list, perm_map@, rots as int, ms, cost@, idx as int, b),
                    decreases actions.len() - a,
                {
                    assert(ms[a as int] == (actions@[a as int].0@, actions@[a as int].1, actions@[a as int].2));
                    let mv = &actions[a].0;
                    let fits = fits_move(state, mv);
                    if !fits {
                        proof {
                            assert(face_step(list, perm_map@, rots as int, idx as int, ms[a as int]) is None);
                        }
                        return None;
                    }
                    let next = apply_perm_to_partial(state, mv);
                    let code = match pack4(&next) {
                        Some(c) => c,
                        None => {
                            proof {
                                assert(face_step(list, perm_map@, rots as int, idx as int, ms[a as int]) is None);
                            }
                            return None;
                        },
                    };
                    let next_rank = match perm_map.get(&code) {
                        Some(v) => *v,
                        None => {
                            proof {
                                assert(face_step(list, perm_map@, rots as int, idx as int, ms[a as int]) is None);
                            }
                            return None;
                        },
                    };
                    let next_rot = (rot + actions[a].1) % rots;
                    proof {
                        assert(next_rot < rots);
                        assert(rots * next_rank + next_rot < n) by (nonlinear_arith)
                            requires
                                next_rank < perm_list.len(),
                                next_rot < rots,
                                n == rots * perm_list.len(),
                        ;
                    }
                    let next_idx = rots * next_rank + next_rot;
                    proof {
                        assert(face_step(list, perm_map@, rots as int, idx as int, ms[a as int]) == Some(next_idx as int));
                    }
                    match level.checked_add(actions[a].2) {
                        Some(new_cost) => {
                            if new_cost < cost[next_idx] {
                                let ghost old_prev = prev_state@;
                                let ghost old_pa = prev_action@;
                                let ghost old_cost = cost@;
                                proof {
                                    lemma_cost_sum_update(cost@, next_idx as int, new_cost);
                                }
                                cost.set(next_idx, new_cost);
                                prev_state.set(next_idx, Some(idx));
                                prev_action.set(next_idx, Some(a));
                                if new_cost > top {
                                    top = new_cost;
                                }
                                proof {
                                    let rank_seq = cost_ints(cost@);
                                    assert forall|i: int|
                                        0 <= i < prev_state@.len() && #[trigger] prev_state@[i] is Some implies
                                        prev_state@[i]->0 < prev_state@.len() && rank_seq[prev_state@[i]->0 as int]
                                        < rank_seq[i] by {
                                        if i != next_idx {
                                            assert(old_prev[i] == prev_state@[i]);
                                        }
                                    }
                                    assert(steps_ranked(prev_state@, rank_seq));
                                    assert forall|i: int|
                                        0 <= i < prev_state@.len() && #[trigger] prev_state@[i] is Some implies {
                                            let p = prev_state@[i]->0;
                                            let aa = prev_action@[i]->0;
                                            &&& p < prev_state@.len()
                                            &&& aa < ms.len()
                                            &&& face_step(list, perm_map@, rots as int, p as int, ms[aa as int]) == Some(i)
                                        } by {
                                        if i != next_idx {
                                            assert(old_prev[i] == prev_state@[i]);
                                        }
                                    }
                                    assert forall|j: int|
                                        0 <= j < starts.len() implies cost@[#[trigger] starts@[j] as int] == 0
                                            && prev_state@[starts@[j] as int] is None by {
                                        assert(starts@[j] != next_idx);
                                    }
                                    assert(next_idx != idx);
                                    assert forall|k: int| 0 <= k < n implies #[trigger] cost@[k] <= old_cost[k] by {}
                                    assert forall|i: int| 0 <= i < n && #[trigger] cost@[i] == 0 implies starts@.contains(i as usize) by {
                                        if i != next_idx {
                                            assert(old_cost[i] == 0);
                                        }
                                    }
                                    assert forall|i: int| 0 <= i < n implies (#[trigger] prev_state@[i] is Some <==> 0 < cost@[i] < i32::MAX) by {
                                        if i != next_idx {
                                            assert(old_prev[i] == prev_state@[i] && old_cost[i] == cost@[i]);
                                        }
                                    }
                                    assert forall|i: int|
                                        0 <= i < n && #[trigger] prev_state@[i] is Some implies cost@[i] >= cost@[prev_state@[i]->0 as int]
                                            + ms[prev_action@[i]->0 as int].2 && cost@[prev_state@[i]->0 as int] < i32::MAX by {
                                        if i != next_idx {
                                            assert(old_prev[i] == prev_state@[i] && old_pa[i] == prev_action@[i] && old_cost[i] == cost@[i]);
                                            let j = prev_state@[i]->0 as int;
                                            assert(cost@[j] <= old_cost[j]);
                                        }
                                    }
                                    assert forall|i: int| 0 <= i < n && #[trigger] cost@[i] < i32::MAX implies cost@[i] <= top by {
                                        if i != next_idx {
                                            assert(old_cost[i] == cost@[i]);
                                        }
                                    }
                                    assert forall|i: int|
                                        0 <= i < n && i != idx && (#[trigger] cost@[i] < level || (cost@[i] == level && i < idx)) implies face_relaxed(
                                        list,
                                        perm_map@,
                                        rots as int,
                                        ms,
                                        cost@,
                                        i,
                                    ) by {
                                        assert(i != next_idx);
                                        assert(old_cost[i] == cost@[i]);
                                        assert(face_relaxed(list, perm_map@, rots as int, ms, old_cost, i));
                                        lemma_face_relaxed_lower(list, perm_map@, rots as int, ms, old_cost, cost@, i, ms.len() as int);
                                    }
                                    lemma_face_relaxed_lower(list, perm_map@, rots as int, ms, old_cost, cost@, idx as int, a as int);
                                }
                            }
                        },
                        None => {},
                    }
                    assert(face_move_relaxed(list, perm_map@, rots as int, ms, cost@, idx as int, a as int));
                    a = a + 1;
                }
                assert(face_relaxed(list, perm_map@, rots as int, ms, cost@, idx as int));
            }
            idx = idx + 1;
        }
        proof {
            lemma_cost_sum_nonneg(cost@);
        }
        level = level + 1;
    }
    proof {
        assert forall|i: int| 0 <= i < n && #[trigger] cost@[i] < i32::MAX implies face_relaxed(
            list,
            perm_map@,
            rots as int,
            ms,
            cost@,
            i,
        ) by {
            assert(cost@[i] <= top);
        }
        assert forall|i: int|
            0 <= i < n && #[trigger] prev_state@[i] is Some implies cost@[i] == cost@[prev_state@[i]->0 as int]
                + ms[prev_action@[i]->0 as int].2 by {
            let j = prev_state@[i]->0 as int;
            let b = prev_action@[i]->0 as int;
            assert(face_relaxed(list, perm_map@, rots as int, ms, cost@, j));
            assert(face_move_relaxed(list, perm_map@, rots as int, ms, cost@, j, b));
            assert(face_step(list, perm_map@, rots as int, j, ms[b]) == Some(i));
        }
        assert(face_cheapest(list, perm_map@, rots as int, ms, starts@, prev_state@, prev_action@, cost@));
    }
    Some((prev_state, prev_action, cost))
}

/// Whether arrangement `p` can be played with the move `perm` (`partial_fits`).
fn fits_move(p: &Vec<usize>, perm: &Vec<usize>) -> (b: bool)
    ensures
        b == partial_fits(p@, perm@),
{
    if p.len() == 0 {
        return false;
    }
    let mut k: usize = 0;
    while k < p.len()
        invariant
            k <= p.len(),
            forall|j: int| 0 <= j < k ==> #[trigger] p@[j] < perm.len(),
        decreases p.len() - k,
    {
        if p[k] >= perm.len() {
            return false;
        }
        k = k + 1;
    }
    true
}

/// The position of start `s` turned `rot` times:
/// `rots * place + min(rots - 1, rot)`; `None` when `s` has no place.
pub open spec fn start_position(map: Map<u32, usize>, rots: int, s: Seq<usize>, rot: usize) -> Option<int> {
    if quad(s) && map.contains_key(code32(s) as u32) {
        Some(rots * map[code32(s) as u32] + if rot < rots - 1 { rot as int } else { rots - 1 })
    } else {
        None
    }
}

/// The positions of all starts; `None` when one has no place.
pub open spec fn start_positions(map: Map<u32, usize>, rots: int, starts: Seq<(Seq<usize>, usize)>) -> Option<Seq<int>> {
    if forall|k: int| 0 <= k < starts.len() ==> #[trigger] start_position(map, rots, starts[k].0, starts[k].1) is Some {
        Some(Seq::new(starts.len(), |k: int| start_position(map, rots, starts[k].0, starts[k].1)->0))
    } else {
        None
    }
}

/// The views of a list of starts.
pub open spec fn starts_view(starts: Seq<(Vec<usize>, usize)>) -> Seq<(Seq<usize>, usize)> {
    starts.map_values(|s: (Vec<usize>, usize)| (s.0@, s.1))
}

/// What a one-face search gives: tables whose steps are moves, ranked by
/// cost, with every start at cost 0 and reached from nowhere, on cheapest
/// paths from the starts (`face_cheapest`); `None` when a
/// start has no place, a move cannot be played or leaves the map, or the
/// positions are too many to index.
pub open spec fn face_result(
    list: Seq<Seq<usize>>,
    map: Map<u32, usize>,
    rots: int,
    ms: Seq<(Seq<usize>, usize, i32)>,
    starts: Seq<(Seq<usize>, usize)>,
    r: Option<(Vec<Option<usize>>, Vec<Option<usize>>, Vec<i32>)>,
) -> bool {
    match r {
        Some((prev_state, prev_action, cost)) => {
            &&& start_positions(map, rots, starts) is Some
            &&& face_steps_valid(list, map, rots, ms, prev_state@, prev_action@)
            &&& cost.len() == rots * list.len()
            &&& steps_ranked(prev_state@, cost_ints(cost@))
            &&& forall|k: int|
                0 <= k < starts.len() ==> cost@[#[trigger] start_positions(map, rots, starts)->0[k]] == 0
                    && prev_state@[start_positions(map, rots, starts)->0[k]] is None
            &&& face_cheapest(
                list,
                map,
                rots,
                ms,
                start_positions(map, rots, starts)->0.map_values(|v: int| v as usize),
                prev_state@,
                prev_action@,
                cost@,
            )
        },
        None => start_positions(map, rots, starts) is None || face_gap(list, map, rots, ms) || rots * list.len()
            > usize::MAX,
    }
}

/// The one-face search from the given starts, with the face's turn tracked
/// (`check_rot`, four turns per arrangement) or not.
pub fn bfs_one_face_impl(
    actions: &Vec<(Vec<usize>, usize, i32)>,
    perm_list: &Vec<Vec<usize>>,
    perm_map: &HashMap<u32, usize>,
    starts: &Vec<(Vec<usize>, usize)>,
    check_rot: bool,
) -> (r: Option<(Vec<Option<usize>>, Vec<Option<usize>>, Vec<i32>)>)
    requires
        quad_map(index_views(perm_list@), perm_map@),
        face_moves_ok(face_moves_view(actions@)),
    ensures
        face_result(
            index_views(perm_list@),
            perm_map@,
            if check_rot { 4 } else { 1 },
            face_moves_view(actions@),
            starts_view(starts@),
            r,
        ),
{
    let rot_num: usize = if check_rot { 4 } else { 1 };
    let ghost sv = starts_view(starts@);
    if perm_list.len() > usize::MAX / rot_num {
        assert(rot_num * perm_list.len() > usize::MAX) by (nonlinear_arith)
            requires
                perm_list.len() > usize::MAX / rot_num,
                rot_num >= 1,
        ;
        return None;
    }
    assert(rot_num * perm_list.len() <= usize::MAX) by (nonlinear_arith)
        requires
            perm_list.len() <= usize::MAX / rot_num,
            rot_num >= 1,
    ;
    let n = rot_num * perm_list.len();
    let mut idxs: Vec<usize> = Vec::new();
    let mut k: usize = 0;
    while k < starts.len()
        invariant
            k <= starts.len(),
            sv == starts_view(starts@),
            rot_num == 1 || rot_num == 4,
            n == rot_num * perm_list.len(),
            rot_num as int == (if check_rot { 4int } else { 1int }),
            rot_num * perm_list.len() <= usize::MAX,
            quad_map(index_views(perm_list@), perm_map@),
            idxs.len() == k,
            forall|j: int| 0 <= j < k ==> #[trigger] start_position(perm_map@, rot_num as int, sv[j].0, sv[j].1) == Some(idxs@[j] as int),
            forall|j: int| 0 <= j < k ==> #[trigger] idxs@[j] < n,
        decreases starts.len() - k,
    {
        assert(sv[k as int] == (starts@[k as int].0@, starts@[k as int].1));
        let code = match pack4(&starts[k].0) {
            Some(c) => c,
            None => {
                assert(start_position(perm_map@, rot_num as int, sv[k as int].0, sv[k as int].1) is None);
                assert(start_positions(perm_map@, rot_num as int, sv) is None);
                return None;
            },
        };
        let place = match perm_map.get(&code) {
            Some(v) => *v,
            None => {
                assert(start_position(perm_map@, rot_num as int, sv[k as int].0, sv[k as int].1) is None);
                assert(start_positions(perm_map@, rot_num as int, sv) is None);
                return None;
            },
        };
        let r = if starts[k].1 < rot_num - 1 { starts[k].1 } else { rot_num - 1 };
        proof {
            assert(rot_num * place + r < n) by (nonlinear_arith)
                requires
                    place < perm_list.len(),
                    r < rot_num,
                    n == rot_num * perm_list.len(),
            ;
        }
        idxs.push(rot_num * place + r);
        k = k + 1;
    }
    proof {
        assert(start_positions(perm_map@, rot_num as int, sv) == Some(idxs@.map_values(|v: usize| v as int))) by {
            assert(idxs@.map_values(|v: usize| v as int) =~= Seq::new(sv.len(), |j: int| start_position(perm_map@, rot_num as int, sv[j].0, sv[j].1)->0));
        }
    }
    let r = face_search(perm_list, perm_map, actions, rot_num, &idxs);
    proof {
        if r is Some {
            let pos = start_positions(perm_map@, rot_num as int, sv)->0;
            assert forall|j: int| 0 <= j < sv.len() implies (r->0).2@[#[trigger] pos[j]] == 0 && (r->0).0@[pos[j]] is None by {
                assert(pos[j] == idxs@[j] as int);
            }
            assert(pos.map_values(|v: int| v as usize) =~= idxs@);
        }
    }
    r
}

/// The four starts of a face whose corners are `a, b, c, d`: the face
/// solved and turned 0 to 3 times.
pub open spec fn face_starts(a: usize, b: usize, c: usize, d: usize) -> Seq<(Seq<usize>, usize)> {
    seq![(seq![a, b, c, d], 0usize), (seq![b, c, d, a], 1usize), (seq![c, d, a, b], 2usize), (seq![d, a, b, c], 3usize)]
}

fn face_start_list(a: usize, b: usize, c: usize, d: usize) -> (r: Vec<(Vec<usize>, usize)>)
    ensures
        starts_view(r@) == face_starts(a, b, c, d),
{
    let mut r: Vec<(Vec<usize>, usize)> = Vec::new();
    r.push((four_places(a, b, c, d), 0));
    r.push((four_places(b, c, d, a), 1));
    r.push((four_places(c, d, a, b), 2));
    r.push((four_places(d, a, b, c), 3));
    assert(starts_view(r@) =~= face_starts(a, b, c, d));
    r
}

/// The arrangements of four of `0..size` and their map (`code_places`).
pub open spec fn places_of(size: nat) -> (Seq<Seq<usize>>, Map<u32, usize>) {
    (arrangements(upto(size), 4), code_places(arrangements(upto(size), 4), arrangements(upto(size), 4).len()))
}

/// The search of the front face (four of 24 places), from its corners 4 to 7.
pub fn bfs_front_impl(actions: &Vec<(Vec<usize>, usize, i32)>, check_rot: bool) -> (r: Option<(Vec<Option<usize>>, Vec<Option<usize>>, Vec<i32>)>)
    requires
        face_moves_ok(face_moves_view(actions@)),
    ensures
        face_result(places_of(24).0, places_of(24).1, if check_rot { 4 } else { 1 }, face_moves_view(actions@), face_starts(4, 5, 6, 7), r),
{
    let (perm_list, perm_map) = gen_perm_map_front_corner();
    bfs_one_face_impl(actions, &perm_list, &perm_map, &face_start_list(4, 5, 6, 7), check_rot)
}

/// The search of the back face (four of 20 places), from its corners 8 to 11.
pub fn bfs_back_impl(actions: &Vec<(Vec<usize>, usize, i32)>, check_rot: bool) -> (r: Option<(Vec<Option<usize>>, Vec<Option<usize>>, Vec<i32>)>)
    requires
        face_moves_ok(face_moves_view(actions@)),
    ensures
        face_result(places_of(20).0, places_of(20).1, if check_rot { 4 } else { 1 }, face_moves_view(actions@), face_starts(8, 9, 10, 11), r),
{
    let (perm_list, perm_map) = gen_perm_map_back_corner();
    bfs_one_face_impl(actions, &perm_list, &perm_map, &face_start_list(8, 9, 10, 11), check_rot)
}

/// The search of the up face (four of 16 places), from its corners 0 to 3.
pub fn bfs_up_impl(actions: &Vec<(Vec<usize>, usize, i32)>, check_rot: bool) -> (r: Option<(Vec<Option<usize>>, Vec<Option<usize>>, Vec<i32>)>)
    requires
        face_moves_ok(face_moves_view(actions@)),
    ensures
        face_result(places_of(16).0, places_of(16).1, if check_rot { 4 } else { 1 }, face_moves_view(actions@), face_starts(0, 1, 2, 3), r),
{
    let (perm_list, perm_map) = gen_perm_map_up_corner();
    bfs_one_face_impl(actions, &perm_list, &perm_map, &face_start_list(0, 1, 2, 3), check_rot)
}

/// The search of the left face (four of 12 places), from its corners 4 to 7.
pub fn bfs_left_impl(actions: &Vec<(Vec<usize>, usize, i32)>, check_rot: bool) -> (r: Option<(Vec<Option<usize>>, Vec<Option<usize>>, Vec<i32>)>)
    requires
        face_moves_ok(face_moves_view(actions@)),
    ensures
        face_result(places_of(12).0, places_of(12).1, if check_rot { 4 } else { 1 }, face_moves_view(actions@), face_starts(4, 5, 6, 7), r),
{
    let (perm_list, perm_map) = gen_perm_map_left_corner();
    bfs_one_face_impl(actions, &perm_list, &perm_map, &face_start_list(4, 5, 6, 7), check_rot)
}

} // verus!
