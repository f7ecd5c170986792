//! The inversion estimate of the globe solver: a row of pieces on a ring of
//! `n` cells, each piece with a target range of cells, is sorted by adjacent
//! swaps following fixed rules, and the swaps are counted.
use vstd::prelude::*;

verus! {

/// Remainder of `a` by `n` rounded toward zero, as `%` computes on `i32`.
pub open spec fn trem(a: int, n: int) -> int {
    if a >= 0 {
        a % n
    } else {
        -((-a) % n)
    }
}

/// `pos` lies in the range `r`, which wraps round the ring when `r.0 > r.1`.
pub open spec fn in_range_spec(pos: int, r: (i32, i32)) -> bool {
    if r.0 <= r.1 {
        r.0 <= pos <= r.1
    } else {
        r.0 <= pos || pos <= r.1
    }
}

/// Whether `pos` lies in the range `r` of the ring.
pub fn in_range(pos: i32, r: (i32, i32)) -> (b: bool)
    ensures
        b == in_range_spec(pos as int, r),
{
    if r.0 <= r.1 {
        if r.0 <= pos && pos <= r.1 {
            return true;
        }
    } else {
        if r.0 <= pos || pos <= r.1 {
            return true;
        }
    }
    false
}

/// The `i32` arithmetic of `dir_in_outside` does not overflow.
pub open spec fn dir_fits(pos: int, n: int, r: (i32, i32)) -> bool {
    &&& n > 0
    &&& i32::MIN <= r.0 - pos <= i32::MAX
    &&& i32::MIN <= r.0 - pos + n <= i32::MAX
    &&& i32::MIN <= pos - r.1 <= i32::MAX
    &&& i32::MIN <= pos - r.1 + n <= i32::MAX
}

/// 1 when the start of `r` is closer going up the ring from `pos` than its
/// end going down, -1 otherwise.
pub open spec fn dir_in_outside_spec(pos: int, n: int, r: (i32, i32)) -> int {
    let left = trem(r.0 - pos + n, n);
    let right = trem(pos - r.1 + n, n);
    if left < right {
        1
    } else {
        -1
    }
}

/// The way to move a piece at `pos` outside its range `r` toward it.
pub fn dir_in_outside(pos: i32, n: i32, r: (i32, i32)) -> (d: i32)
    requires
        dir_fits(pos as int, n as int, r),
    ensures
        d == dir_in_outside_spec(pos as int, n as int, r),
{
    let left = (r.0 - pos + n) % n;
    let right = (pos - r.1 + n) % n;
    if left < right {
        1
    } else {
        -1
    }
}

/// 0 inside the range, else the way toward it.
pub open spec fn dir_range_spec(pos: int, n: int, r: (i32, i32)) -> int {
    if in_range_spec(pos, r) {
        0
    } else {
        dir_in_outside_spec(pos, n, r)
    }
}

/// The way a piece at `pos` with range `r` has to move: 0 when it is inside.
pub fn dir_range(pos: i32, n: i32, r: (i32, i32)) -> (d: i32)
    requires
        dir_fits(pos as int, n as int, r),
    ensures
        d == dir_range_spec(pos as int, n as int, r),
{
    if in_range(pos, r) {
        0
    } else {
        dir_in_outside(pos, n, r)
    }
}

/// The state of a simulation: pieces, their directions, swaps so far.
pub struct Sim {
    pub state: Seq<i32>,
    pub dir: Seq<i32>,
    pub res: int,
}

/// The simulation with these pieces, directions and count.
pub open spec fn sim_of(state: Seq<i32>, dir: Seq<i32>, res: i32) -> Sim {
    Sim { state, dir, res: res as int }
}

/// The direction of the piece at cell `i`.
pub open spec fn dir_at(state: Seq<i32>, tr: Seq<(i32, i32)>, i: int) -> i32 {
    dir_range_spec(i, state.len() as int, tr[state[i] as int]) as i32
}

/// The cell after `i` on the ring.
pub open spec fn next_cell(i: int, len: int) -> int {
    (i + 1) % len
}

/// Swaps the pieces at `i` and the next cell, counts the swap and updates
/// both directions.
pub open spec fn swap_at(s: Sim, tr: Seq<(i32, i32)>, i: int) -> Sim {
    let nx = next_cell(i, s.state.len() as int);
    let st = s.state.update(i, s.state[nx]).update(nx, s.state[i]);
    let d1 = s.dir.update(i, dir_at(st, tr, i));
    Sim { state: st, dir: d1.update(nx, dir_at(st, tr, nx)), res: s.res + 1 }
}

/// First rule, cells `i` onward: swap every pair moving toward each other.
pub open spec fn sweep(s: Sim, tr: Seq<(i32, i32)>, i: int, find: bool) -> (Sim, bool)
    decreases s.state.len() - i,
{
    if i < 0 || i >= s.state.len() {
        (s, find)
    } else {
        let nx = next_cell(i, s.state.len() as int);
        if s.dir[i] == 1 && s.dir[nx] == -1 {
            sweep(swap_at(s, tr, i), tr, i + 1, true)
        } else {
            sweep(s, tr, i + 1, find)
        }
    }
}

/// Whether rule `k` (2, 3 or 4) applies at cell `i`.
pub open spec fn rule_at(s: Sim, k: int, i: int) -> bool {
    let nx = next_cell(i, s.state.len() as int);
    let differ = s.state[i] != s.state[nx];
    if k == 2 {
        s.dir[i] == 1 && s.dir[nx] == 0 && differ
    } else if k == 3 {
        s.dir[i] == 0 && s.dir[nx] == -1 && differ
    } else {
        (s.dir[i] == 1 || s.dir[nx] == -1) && differ
    }
}

/// The first cell from `i` where rule `k` applies, or the length.
pub open spec fn first_rule(s: Sim, k: int, i: int) -> int
    decreases s.state.len() - i,
{
    if i < 0 || i >= s.state.len() {
        s.state.len() as int
    } else if rule_at(s, k, i) {
        i
    } else {
        first_rule(s, k, i + 1)
    }
}

/// One round: the first rule swept over all cells, or else one swap by the
/// first of rules 2, 3, 4 that applies somewhere. `None` when nothing moves.
pub open spec fn round(s: Sim, tr: Seq<(i32, i32)>) -> Option<Sim> {
    let (s1, f) = sweep(s, tr, 0, false);
    if f {
        Some(s1)
    } else if first_rule(s, 2, 0) < s.state.len() {
        Some(swap_at(s, tr, first_rule(s, 2, 0)))
    } else if first_rule(s, 3, 0) < s.state.len() {
        Some(swap_at(s, tr, first_rule(s, 3, 0)))
    } else if first_rule(s, 4, 0) < s.state.len() {
        Some(swap_at(s, tr, first_rule(s, 4, 0)))
    } else {
        None
    }
}

/// The swaps counted when rounds run until nothing moves or the count
/// passes `upper` (with at most `fuel` rounds).
pub open spec fn run(s: Sim, tr: Seq<(i32, i32)>, upper: int, fuel: nat) -> int
    decreases fuel,
{
    if fuel == 0 || s.res > upper {
        s.res
    } else {
        match round(s, tr) {
            Some(s2) => run(s2, tr, upper, (fuel - 1) as nat),
            None => s.res,
        }
    }
}

/// The starting simulation: the pieces of `v`, each with its direction.
pub open spec fn start_sim(v: Seq<i32>, tr: Seq<(i32, i32)>) -> Sim {
    Sim { state: v, dir: Seq::new(v.len(), |i: int| dir_at(v, tr, i)), res: 0 }
}

/// Rounds enough for any run that stops once the count passes `upper`.
pub open spec fn sim_fuel(upper: int) -> nat {
    if upper < 0 {
        1
    } else {
        (upper + 2) as nat
    }
}

/// The count of `rev_sim`.
pub open spec fn rev_sim_spec(v: Seq<i32>, tr: Seq<(i32, i32)>, upper: int) -> int {
    run(start_sim(v, tr), tr, upper, sim_fuel(upper))
}

/// The direction arithmetic of every cell `0 <= p < n` with the range `r`
/// fits in `i32`.
pub open spec fn range_fits(r: (i32, i32), n: int) -> bool {
    &&& n > 0
    &&& i32::MIN <= r.0 - n + 1
    &&& r.0 + n <= i32::MAX
    &&& i32::MIN <= -r.1
    &&& 2 * n - 1 - r.1 <= i32::MAX
}

/// Every piece names a range of `tr`, and the direction arithmetic of every
/// cell with every range fits in `i32`.
pub open spec fn sim_ok(v: Seq<i32>, tr: Seq<(i32, i32)>) -> bool {
    &&& 0 < v.len() <= i32::MAX
    &&& forall|i: int| 0 <= i < v.len() ==> 0 <= #[trigger] v[i] < tr.len()
    &&& forall|k: int| 0 <= k < tr.len() ==> range_fits(#[trigger] tr[k], v.len() as int)
}

/// The invariants of a simulation of `v`: same length, pieces naming ranges,
/// directions as `dir_at` gives them, and a count of at least zero.
pub open spec fn sim_inv(s: Sim, v: Seq<i32>, tr: Seq<(i32, i32)>) -> bool {
    &&& s.state.len() == v.len()
    &&& s.dir.len() == v.len()
    &&& forall|i: int| 0 <= i < v.len() ==> 0 <= #[trigger] s.state[i] < tr.len()
    &&& forall|i: int| 0 <= i < v.len() ==> #[trigger] s.dir[i] == dir_at(s.state, tr, i)
    &&& s.res >= 0
}

proof fn lemma_swap_inv(s: Sim, v: Seq<i32>, tr: Seq<(i32, i32)>, i: int)
    requires
        sim_inv(s, v, tr),
        0 <= i < v.len(),
    ensures
        sim_inv(swap_at(s, tr, i), v, tr),
        swap_at(s, tr, i).res == s.res + 1,
{
    let len = v.len() as int;
    let nx = next_cell(i, len);
    assert(0 <= nx < len);
    let t = swap_at(s, tr, i);
    assert forall|j: int| 0 <= j < len implies 0 <= #[trigger] t.state[j] < tr.len() by {
        if j == nx {
        } else if j == i {
        } else {
            assert(t.state[j] == s.state[j]);
        }
    }
    assert forall|j: int| 0 <= j < len implies #[trigger] t.dir[j] == dir_at(t.state, tr, j) by {
        if j != i && j != nx {
            assert(t.state[j] == s.state[j]);
        }
    }
}

proof fn lemma_sweep(s: Sim, v: Seq<i32>, tr: Seq<(i32, i32)>, i: int, find: bool)
    requires
        sim_inv(s, v, tr),
        0 <= i <= v.len(),
    ensures
        sim_inv(sweep(s, tr, i, find).0, v, tr),
        sweep(s, tr, i, find).0.res >= s.res,
        sweep(s, tr, i, find).0.res <= s.res + v.len() - i,
        !sweep(s, tr, i, find).1 ==> sweep(s, tr, i, find).0 == s && !find,
        find ==> sweep(s, tr, i, find).1,
        sweep(s, tr, i, find).1 && !find ==> sweep(s, tr, i, find).0.res >= s.res + 1,
    decreases v.len() - i,
{
    if i < v.len() {
        let nx = next_cell(i, v.len() as int);
        if s.dir[i] == 1 && s.dir[nx] == -1 {
            lemma_swap_inv(s, v, tr, i);
            lemma_sweep(swap_at(s, tr, i), v, tr, i + 1, true);
        } else {
            lemma_sweep(s, v, tr, i + 1, find);
        }
    }
}

proof fn lemma_first_rule(s: Sim, k: int, i: int)
    requires
        0 <= i <= s.state.len(),
    ensures
        i <= first_rule(s, k, i) <= s.state.len(),
        first_rule(s, k, i) < s.state.len() ==> rule_at(s, k, first_rule(s, k, i)),
        forall|j: int| i <= j < first_rule(s, k, i) ==> !#[trigger] rule_at(s, k, j),
    decreases s.state.len() - i,
{
    if i < s.state.len() && !rule_at(s, k, i) {
        lemma_first_rule(s, k, i + 1);
    }
}

proof fn lemma_round(s: Sim, v: Seq<i32>, tr: Seq<(i32, i32)>)
    requires
        sim_inv(s, v, tr),
        v.len() > 0,
    ensures
        round(s, tr) matches Some(t) ==> sim_inv(t, v, tr) && s.res + 1 <= t.res <= s.res + v.len(),
{
    lemma_sweep(s, v, tr, 0, false);
    lemma_first_rule(s, 2, 0);
    lemma_first_rule(s, 3, 0);
    lemma_first_rule(s, 4, 0);
    let (s1, f) = sweep(s, tr, 0, false);
    if !f {
        if first_rule(s, 2, 0) < v.len() {
            lemma_swap_inv(s, v, tr, first_rule(s, 2, 0));
        } else if first_rule(s, 3, 0) < v.len() {
            lemma_swap_inv(s, v, tr, first_rule(s, 3, 0));
        } else if first_rule(s, 4, 0) < v.len() {
            lemma_swap_inv(s, v, tr, first_rule(s, 4, 0));
        }
    }
}

/// Swaps the pieces at `i` and the next cell and updates both directions.
fn swap_step(
    state: &mut Vec<i32>,
    dir: &mut Vec<i32>,
    res: &mut i32,
    tr: &Vec<(i32, i32)>,
    i: usize,
    Ghost(v): Ghost<Seq<i32>>,
)
    requires
        sim_ok(v, tr@),
        sim_inv(sim_of(old(state)@, old(dir)@, *old(res)), v, tr@),
        i < v.len(),
        *old(res) < i32::MAX,
    ensures
        sim_of(final(state)@, final(dir)@, *final(res)) == swap_at(
            sim_of(old(state)@, old(dir)@, *old(res)),
            tr@,
            i as int,
        ),
{
    let ghost s0 = sim_of(state@, dir@, *res);
    proof {
        lemma_swap_inv(s0, v, tr@, i as int);
    }
    let len = state.len();
    let nx = (i + 1) % len;
    let a = state[i];
    let b = state[nx];
    state.set(i, b);
    state.set(nx, a);
    *res = *res + 1;
    let n = len as i32;
    let ghost st = s0.state.update(i as int, s0.state[nx as int]).update(nx as int, s0.state[i as int]);
    assert(state@ =~= st);
    let si = state[i];
    let snx = state[nx];
    assert(0 <= si < tr.len() && 0 <= snx < tr.len());
    assert(range_fits(tr@[si as int], v.len() as int));
    assert(range_fits(tr@[snx as int], v.len() as int));
    let di = dir_range(i as i32, n, tr[si as usize]);
    dir.set(i, di);
    let dn = dir_range(nx as i32, n, tr[snx as usize]);
    dir.set(nx, dn);
}

/// Counts the adjacent swaps that bring the pieces of `v` into their target
/// ranges `target_range[v[i]]` by the rules of `round`, stopping once the
/// count passes `upper_cost`.
pub fn rev_sim(v: &Vec<i32>, target_range: &Vec<(i32, i32)>, upper_cost: i32) -> (r: i32)
    requires
        sim_ok(v@, target_range@),
        upper_cost + v.len() <= i32::MAX,
    ensures
        r == rev_sim_spec(v@, target_range@, upper_cost as int),
{
    let ghost tr = target_range@;
    let len = v.len();
    let n = len as i32;
    let mut res: i32 = 0;
    let mut state = v.clone();
    assert(state@ =~= v@);
    let mut dir: Vec<i32> = Vec::new();
    let mut i: usize = 0;
    while i < len
        invariant
            i <= len == v.len(),
            n == len,
            state@ == v@,
            sim_ok(v@, tr),
            tr == target_range@,
            dir@ == start_sim(v@, tr).dir.take(i as int),
        decreases len - i,
    {
        let si = state[i];
        assert(range_fits(tr[si as int], v.len() as int));
        let d = dir_range(i as i32, n, target_range[si as usize]);
        dir.push(d);
        assert(dir@ =~= start_sim(v@, tr).dir.take(i + 1));
        i = i + 1;
    }
    assert(dir@ =~= start_sim(v@, tr).dir);
    let ghost mut fuel: nat = sim_fuel(upper_cost as int);
    assert(sim_inv(start_sim(v@, tr), v@, tr));
    loop
        invariant
            len == v.len(),
            n == len,
            sim_ok(v@, tr),
            tr == target_range@,
            upper_cost + v.len() <= i32::MAX,
            sim_inv(sim_of(state@, dir@, res), v@, tr),
            res <= upper_cost + v.len() || res == 0,
            res > upper_cost || fuel >= upper_cost + 2 - res,
            fuel >= 1,
            run(sim_of(state@, dir@, res), tr, upper_cost as int, fuel)
                == rev_sim_spec(v@, tr, upper_cost as int),
        ensures
            res == rev_sim_spec(v@, tr, upper_cost as int),
        decreases fuel,
    {
        let ghost s0 = sim_of(state@, dir@, res);
        if res > upper_cost {
            break;
        }
        proof {
            lemma_round(s0, v@, tr);
            lemma_sweep(s0, v@, tr, 0, false);
        }
        let mut find = false;
        let mut i: usize = 0;
        while i < len
            invariant
                i <= len == v.len(),
                n == len,
                sim_ok(v@, tr),
                tr == target_range@,
                res <= s0.res + i,
                s0.res <= upper_cost,
                upper_cost + v.len() <= i32::MAX,
                sim_inv(sim_of(state@, dir@, res), v@, tr),
                sweep(sim_of(state@, dir@, res), tr, i as int, find) == sweep(
                    s0,
                    tr,
                    0,
                    false,
                ),
            decreases len - i,
        {
            let nx = (i + 1) % len;
            if dir[i] == 1 && dir[nx] == -1 {
                proof {
                    lemma_swap_inv(sim_of(state@, dir@, res), v@, tr, i as int);
                }
                swap_step(&mut state, &mut dir, &mut res, target_range, i, Ghost(v@));
                find = true;
            }
            i = i + 1;
        }
        if find {
            proof {
                fuel = (fuel - 1) as nat;
            }
            continue;
        }
        assert(state@ == s0.state && dir@ == s0.dir && res == s0.res);
        let mut k: usize = 2;
        let mut done = false;
        while k <= 4 && !done
            invariant
                2 <= k <= 5,
                len == v.len(),
                n == len,
                sim_ok(v@, tr),
                tr == target_range@,
                s0.res <= upper_cost,
                upper_cost + v.len() <= i32::MAX,
                sim_inv(s0, v@, tr),
                !sweep(s0, tr, 0, false).1,
                !done ==> state@ == s0.state && dir@ == s0.dir && res == s0.res,
                !done ==> forall|j: int| 2 <= j < k ==> first_rule(s0, j, 0) >= v.len(),
                done ==> round(s0, tr) == Some(sim_of(state@, dir@, res)),
            decreases 5 - k,
        {
            proof {
                lemma_first_rule(s0, k as int, 0);
            }
            let mut i: usize = 0;
            let mut found = false;
            while i < len && !found
                invariant
                    i <= len == v.len(),
                    2 <= k <= 4,
                    found ==> i < len && rule_at(s0, k as int, i as int),
                    forall|j: int| 0 <= j < i ==> !#[trigger] rule_at(s0, k as int, j),
                    state@ == s0.state && dir@ == s0.dir && res == s0.res,
                    sim_inv(s0, v@, tr),
                decreases len - i + (if found { 0int } else { 1int }),
            {
                let nx = (i + 1) % len;
                let hit = if k == 2 {
                    dir[i] == 1 && dir[nx] == 0 && state[i] != state[nx]
                } else if k == 3 {
                    dir[i] == 0 && dir[nx] == -1 && state[i] != state[nx]
                } else {
                    (dir[i] == 1 || dir[nx] == -1) && state[i] != state[nx]
                };
                assert(hit == rule_at(s0, k as int, i as int));
                if hit {
                    found = true;
                } else {
                    i = i + 1;
                }
            }
            if found {
                assert(first_rule(s0, k as int, 0) == i) by {
                    if first_rule(s0, k as int, 0) < i {
                        assert(!rule_at(s0, k as int, first_rule(s0, k as int, 0)));
                    }
                }
                swap_step(&mut state, &mut dir, &mut res, target_range, i, Ghost(v@));
                done = true;
            } else {
                assert(first_rule(s0, k as int, 0) >= v.len()) by {
                    if first_rule(s0, k as int, 0) < v.len() {
                        assert(rule_at(s0, k as int, first_rule(s0, k as int, 0)));
                    }
                }
            }
            k = k + 1;
        }
        if !done {
            assert(round(s0, tr) is None);
            break;
        }
        proof {
            fuel = (fuel - 1) as nat;
        }
    }
    res
}

} // verus!

verus! {

/// How many entries of `v` equal `c`.
pub open spec fn count_of(v: Seq<i32>, c: int) -> int
    decreases v.len(),
{
    if v.len() == 0 {
        0
    } else {
        count_of(v.drop_last(), c) + if v.last() == c {
            1int
        } else {
            0int
        }
    }
}

/// The sum of `cnt[0..i]`.
pub open spec fn psum(cnt: Seq<int>, i: int) -> int
    decreases i,
{
    if i <= 0 {
        0
    } else {
        psum(cnt, i - 1) + cnt[i - 1]
    }
}

/// The number of entries of `v` equal to each value below `width`.
pub open spec fn counts(v: Seq<i32>, width: int) -> Seq<int> {
    Seq::new(width as nat, |c: int| count_of(v, c))
}

/// The range of cells that the pieces of value `i` fill when the values are
/// laid out in order from cell 0.
pub open spec fn base_range(cnt: Seq<int>, i: int) -> (i32, i32) {
    (psum(cnt, i) as i32, (psum(cnt, i) + cnt[i] - 1) as i32)
}

/// Moves a cell one step round a ring of `len` cells.
pub open spec fn rot1(x: i32, len: int) -> i32 {
    ((x + 1) % len) as i32
}

/// The ranges of the values of `v` below `width`, turned `k` steps round.
pub open spec fn ranges_at(v: Seq<i32>, width: int, k: nat) -> Seq<(i32, i32)>
    decreases k,
{
    if k == 0 {
        Seq::new(width as nat, |i: int| base_range(counts(v, width), i))
    } else {
        let p = ranges_at(v, width, (k - 1) as nat);
        Seq::new(
            p.len(),
            |j: int| (rot1(p[j].0, v.len() as int), rot1(p[j].1, v.len() as int)),
        )
    }
}

/// The least count over the turned ranges `0..=k`, each run bounded by the
/// least count before it.
pub open spec fn best_over(v: Seq<i32>, width: int, upper: int, k: nat) -> int
    decreases k,
{
    if k == 0 {
        rev_sim_spec(v, ranges_at(v, width, 0), upper)
    } else {
        let b = best_over(v, width, upper, (k - 1) as nat);
        let r = rev_sim_spec(v, ranges_at(v, width, k), b);
        if r < b {
            r
        } else {
            b
        }
    }
}

/// The bound of the first run: the swaps to reverse each half of the row,
/// plus one.
pub open spec fn all_upper(len: int) -> int {
    let h1 = len / 2;
    let h2 = (len + 1) / 2;
    h1 * (h1 + 1) / 2 + h2 * (h2 + 1) / 2 + 1
}

/// The count of `rev_sim_all`.
pub open spec fn rev_sim_all_spec(v: Seq<i32>, width: int) -> int {
    best_over(v, width, all_upper(v.len() as int), (v.len() - 1) as nat)
}

/// A row `rev_sim_all` accepts: values below `width`, and short enough for
/// its `i32` arithmetic.
pub open spec fn row_ok(v: Seq<i32>, width: int) -> bool {
    &&& 0 < v.len() <= 40000
    &&& forall|i: int| 0 <= i < v.len() ==> 0 <= #[trigger] v[i] < width
}

proof fn lemma_run_bound(s: Sim, v: Seq<i32>, tr: Seq<(i32, i32)>, upper: int, fuel: nat)
    requires
        sim_inv(s, v, tr),
        v.len() > 0,
    ensures
        0 <= run(s, tr, upper, fuel),
        run(s, tr, upper, fuel) <= s.res || run(s, tr, upper, fuel) <= upper + v.len(),
    decreases fuel,
{
    if fuel > 0 && s.res <= upper {
        lemma_round(s, v, tr);
        match round(s, tr) {
            Some(t) => {
                lemma_run_bound(t, v, tr, upper, (fuel - 1) as nat);
            },
            None => {},
        }
    }
}

proof fn lemma_rev_sim_bound(v: Seq<i32>, tr: Seq<(i32, i32)>, upper: int)
    requires
        sim_ok(v, tr),
    ensures
        0 <= rev_sim_spec(v, tr, upper),
        rev_sim_spec(v, tr, upper) == 0 || rev_sim_spec(v, tr, upper) <= upper + v.len(),
{
    let s = start_sim(v, tr);
    assert(sim_inv(s, v, tr));
    lemma_run_bound(s, v, tr, upper, sim_fuel(upper));
}

proof fn lemma_count_le(v: Seq<i32>, c: int)
    ensures
        0 <= count_of(v, c) <= v.len(),
    decreases v.len(),
{
    if v.len() > 0 {
        lemma_count_le(v.drop_last(), c);
    }
}

proof fn lemma_psum_bump(a: Seq<int>, b: Seq<int>, x: int, i: int)
    requires
        a.len() == b.len(),
        0 <= x < a.len(),
        b[x] == a[x] + 1,
        forall|j: int| 0 <= j < a.len() && j != x ==> b[j] == a[j],
        0 <= i <= a.len(),
    ensures
        psum(b, i) == psum(a, i) + if x < i {
            1int
        } else {
            0int
        },
    decreases i,
{
    if i > 0 {
        lemma_psum_bump(a, b, x, i - 1);
    }
}

proof fn lemma_psum_total(v: Seq<i32>, width: int)
    requires
        width >= 0,
        forall|i: int| 0 <= i < v.len() ==> 0 <= #[trigger] v[i] < width,
    ensures
        psum(counts(v, width), width) == v.len(),
    decreases v.len(),
{
    if v.len() == 0 {
        lemma_psum_zero(counts(v, width), width);
    } else {
        let w = v.drop_last();
        assert forall|i: int| 0 <= i < w.len() implies 0 <= #[trigger] w[i] < width by {
            assert(w[i] == v[i]);
        }
        lemma_psum_total(w, width);
        let x = v.last() as int;
        assert(0 <= v[v.len() - 1] < width);
        lemma_psum_bump(counts(w, width), counts(v, width), x, width);
    }
}

proof fn lemma_psum_zero(cnt: Seq<int>, i: int)
    requires
        forall|j: int| 0 <= j < i ==> #[trigger] cnt[j] == 0,
    ensures
        psum(cnt, i) == 0,
    decreases i,
{
    if i > 0 {
        lemma_psum_zero(cnt, i - 1);
    }
}

proof fn lemma_psum_mono(cnt: Seq<int>, i: int, j: int)
    requires
        0 <= i <= j <= cnt.len(),
        forall|k: int| 0 <= k < cnt.len() ==> #[trigger] cnt[k] >= 0,
    ensures
        0 <= psum(cnt, i) <= psum(cnt, j),
    decreases j,
{
    if j > i {
        lemma_psum_mono(cnt, i, j - 1);
    } else {
        lemma_psum_nonneg(cnt, i);
    }
}

proof fn lemma_psum_nonneg(cnt: Seq<int>, i: int)
    requires
        0 <= i <= cnt.len(),
        forall|k: int| 0 <= k < cnt.len() ==> #[trigger] cnt[k] >= 0,
    ensures
        psum(cnt, i) >= 0,
    decreases i,
{
    if i > 0 {
        lemma_psum_nonneg(cnt, i - 1);
    }
}

/// Every endpoint of the ranges lies in `-1..=len`.
pub open spec fn ranges_in(r: Seq<(i32, i32)>, len: int) -> bool {
    forall|j: int| 0 <= j < r.len() ==> -1 <= #[trigger] r[j].0 <= len && -1 <= r[j].1 <= len
}

proof fn lemma_ranges_at(v: Seq<i32>, width: int, k: nat)
    requires
        row_ok(v, width),
    ensures
        ranges_at(v, width, k).len() == width,
        ranges_in(ranges_at(v, width, k), v.len() as int),
        sim_ok(v, ranges_at(v, width, k)),
    decreases k,
{
    let len = v.len() as int;
    let r = ranges_at(v, width, k);
    if k == 0 {
        let cnt = counts(v, width);
        assert(0 <= v[0] < width);
        lemma_psum_total(v, width);
        assert forall|j: int| 0 <= j < r.len() implies -1 <= #[trigger] r[j].0 <= len && -1 <= r[j].1
            <= len by {
            assert forall|c: int| 0 <= c < cnt.len() implies #[trigger] cnt[c] >= 0 by {
                lemma_count_le(v, c);
            }
            lemma_psum_mono(cnt, j, j + 1);
            lemma_psum_mono(cnt, j + 1, width);
        }
    } else {
        lemma_ranges_at(v, width, (k - 1) as nat);
        let p = ranges_at(v, width, (k - 1) as nat);
        assert forall|j: int| 0 <= j < r.len() implies -1 <= #[trigger] r[j].0 <= len && -1 <= r[j].1
            <= len by {
            assert(-1 <= p[j].0 <= len && -1 <= p[j].1 <= len);
        }
    }
    assert forall|j: int| 0 <= j < r.len() implies range_fits(#[trigger] r[j], len) by {
        assert(-1 <= r[j].0 <= len && -1 <= r[j].1 <= len);
    }
}

/// An estimate of the adjacent swaps that sort the row `v` of values below
/// `width` round its ring: the least count of `rev_sim` over every turn of
/// the ordered layout.
pub fn rev_sim_all(v: &Vec<i32>, width: usize) -> (r: i32)
    requires
        row_ok(v@, width as int),
    ensures
        r == rev_sim_all_spec(v@, width as int),
{
    let len = v.len();
    let mut cnt: Vec<i32> = vec![0; width];
    let mut i: usize = 0;
    while i < len
        invariant
            i <= len == v.len(),
            row_ok(v@, width as int),
            cnt.len() == width,
            forall|c: int| 0 <= c < width ==> #[trigger] cnt@[c] == count_of(v@.take(i as int), c),
        decreases len - i,
    {
        let x = v[i] as usize;
        assert(v@.take(i + 1).drop_last() =~= v@.take(i as int));
        proof {
            lemma_count_le(v@.take(i as int), x as int);
        }
        cnt.set(x, cnt[x] + 1);
        i = i + 1;
    }
    assert(v@.take(len as int) =~= v@);
    let ghost cs = counts(v@, width as int);
    proof {
        assert forall|c: int| 0 <= c < cs.len() implies #[trigger] cs[c] >= 0 by {
            lemma_count_le(v@, c);
        }
        lemma_psum_total(v@, width as int);
    }
    let mut end: i32 = 0;
    let mut range: Vec<(i32, i32)> = Vec::new();
    let mut i: usize = 0;
    while i < width
        invariant
            i <= width == cnt.len(),
            len == v.len() <= 40000,
            cs == counts(v@, width as int),
            forall|c: int| 0 <= c < width ==> #[trigger] cnt@[c] == cs[c],
            forall|c: int| 0 <= c < cs.len() ==> #[trigger] cs[c] >= 0,
            psum(cs, width as int) == len,
            end == psum(cs, i as int),
            range@ == Seq::new(width as nat, |j: int| base_range(cs, j)).take(i as int),
        decreases width - i,
    {
        proof {
            lemma_psum_mono(cs, i + 1, width as int);
        }
        let e1 = end + cnt[i] - 1;
        range.push((end, e1));
        end = end + cnt[i];
        assert(range@ =~= Seq::new(width as nat, |j: int| base_range(cs, j)).take(i + 1));
        i = i + 1;
    }
    assert(range@ =~= ranges_at(v@, width as int, 0));
    let half1 = (len / 2) as i32;
    let half2 = ((len + 1) / 2) as i32;
    assert(half1 * (half1 + 1) <= 20000 * 20001) by (nonlinear_arith)
        requires
            0 <= half1 <= 20000,
    ;
    assert(half2 * (half2 + 1) <= 20000 * 20001) by (nonlinear_arith)
        requires
            0 <= half2 <= 20000,
    ;
    assert(half1 * (half1 + 1) >= 0) by (nonlinear_arith)
        requires
            0 <= half1,
    ;
    assert(half2 * (half2 + 1) >= 0) by (nonlinear_arith)
        requires
            0 <= half2,
    ;
    let upper_cost = half1 * (half1 + 1) / 2 + half2 * (half2 + 1) / 2 + 1;
    assert(upper_cost == all_upper(len as int));
    proof {
        lemma_ranges_at(v@, width as int, 0);
    }
    let mut res = rev_sim(v, &range, upper_cost);
    proof {
        lemma_rev_sim_bound(v@, range@, upper_cost as int);
    }
    let mut k: usize = 1;
    while k < len
        invariant
            1 <= k <= len == v.len() <= 40000,
            row_ok(v@, width as int),
            upper_cost == all_upper(len as int),
            0 <= upper_cost <= 500000000,
            range@ == ranges_at(v@, width as int, (k - 1) as nat),
            res == best_over(v@, width as int, upper_cost as int, (k - 1) as nat),
            0 <= res <= upper_cost + len,
        decreases len - k,
    {
        proof {
            lemma_ranges_at(v@, width as int, (k - 1) as nat);
        }
        let ghost p = range@;
        let mut j: usize = 0;
        while j < range.len()
            invariant
                j <= range.len() == p.len(),
                0 < len == v.len() <= 40000,
                ranges_in(p, len as int),
                forall|t: int| 0 <= t < j ==> #[trigger] range@[t] == (rot1(p[t].0, len as int), rot1(p[t].1, len as int)),
                forall|t: int| j <= t < range.len() ==> #[trigger] range@[t] == p[t],
            decreases range.len() - j,
        {
            let (a, b) = range[j];
            assert(-1 <= a <= len && -1 <= b <= len);
            let na = (a + 1) % (len as i32);
            let nb = (b + 1) % (len as i32);
            range.set(j, (na, nb));
            j = j + 1;
        }
        assert(range@ =~= ranges_at(v@, width as int, k as nat));
        proof {
            lemma_ranges_at(v@, width as int, k as nat);
        }
        let r = rev_sim(v, &range, res);
        proof {
            lemma_rev_sim_bound(v@, range@, res as int);
        }
        if r < res {
            res = r;
        }
        k = k + 1;
    }
    res
}

/// The estimate of `rev_sim_all` is at least zero and at most its first
/// bound plus the row length.
pub proof fn lemma_rev_sim_all_bound(v: Seq<i32>, width: int)
    requires
        row_ok(v, width),
    ensures
        0 <= rev_sim_all_spec(v, width) <= all_upper(v.len() as int) + v.len(),
{
    let len = v.len() as int;
    assert(all_upper(len) >= 1) by {
        let h1 = len / 2;
        let h2 = (len + 1) / 2;
        assert(h1 * (h1 + 1) >= 0) by (nonlinear_arith)
            requires
                h1 >= 0,
        ;
        assert(h2 * (h2 + 1) >= 0) by (nonlinear_arith)
            requires
                h2 >= 0,
        ;
    }
    lemma_best_bound(v, width, all_upper(len), (len - 1) as nat);
}

proof fn lemma_best_bound(v: Seq<i32>, width: int, upper: int, k: nat)
    requires
        row_ok(v, width),
        upper >= 0,
    ensures
        0 <= best_over(v, width, upper, k) <= upper + v.len(),
    decreases k,
{
    lemma_ranges_at(v, width, k);
    if k == 0 {
        lemma_rev_sim_bound(v, ranges_at(v, width, 0), upper);
    } else {
        lemma_best_bound(v, width, upper, (k - 1) as nat);
        let b = best_over(v, width, upper, (k - 1) as nat);
        lemma_rev_sim_bound(v, ranges_at(v, width, k), b);
    }
}

} // verus!
