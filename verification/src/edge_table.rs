//! The distance table of the edge search: for each triple of wing places
//! (72 places), the least total cost of moves that bring a solved triple
//! there.
use vstd::prelude::*;
use crate::search::{cost_sum, lemma_cost_sum_nonneg, lemma_cost_sum_update, table_view};

verus! {

/// The number of triples of wing places: `72 * 72 * 72`.
pub open spec fn triple_count() -> int {
    373248
}

/// The index of the triple `(a, b, c)`.
pub open spec fn triple_index(a: int, b: int, c: int) -> int {
    (a * 72 + b) * 72 + c
}

/// The last place `j < n` where `perm` holds `p`; 0 when there is none.
pub open spec fn last_at(perm: Seq<usize>, p: int, n: int) -> int
    decreases n,
{
    if n <= 0 {
        0
    } else if perm[n - 1] == p {
        n - 1
    } else {
        last_at(perm, p, n - 1)
    }
}

/// Where the move `perm` takes the wing at place `p`: the last of the 72
/// places that `perm` fills from `p`, or 0.
pub open spec fn moved_to(perm: Seq<usize>, p: int) -> int {
    last_at(perm, p, 72)
}

/// The triple that the move `perm` makes of triple `i`.
pub open spec fn next_triple(perm: Seq<usize>, i: int) -> int {
    triple_index(moved_to(perm, i / 5184), moved_to(perm, (i / 72) % 72), moved_to(perm, i % 72))
}

/// Triple `i` is a solved one: the three wings `3k`, `3k + 1`, `3k + 2` of
/// one edge, in order or reversed.
pub open spec fn is_start(i: int) -> bool {
    let a = i / 5184;
    let b = (i / 72) % 72;
    let c = i % 72;
    &&& 0 <= i < triple_count()
    &&& b % 3 == 1
    &&& ((a == b - 1 && c == b + 1) || (a == b + 1 && c == b - 1))
}

/// Move `m` from triple `i` costs no less than what the table records at
/// the triple it leads to, or leaves the range of `i32`.
pub open spec fn relaxed_move(ms: Seq<(Seq<usize>, i32)>, t: Seq<i32>, i: int, m: int) -> bool {
    t[i] + ms[m].1 >= i32::MAX || t[next_triple(ms[m].0, i)] <= t[i] + ms[m].1
}

/// Every move has 72 places or more and costs at least 1.
pub open spec fn edge_moves_ok(ms: Seq<(Seq<usize>, i32)>) -> bool {
    forall|m: int| 0 <= m < ms.len() ==> (#[trigger] ms[m]).0.len() >= 72 && ms[m].1 >= 1
}

/// `t` is the table of least costs from the solved triples: solved
/// triples cost 0, every other reached triple (below `i32::MAX`) is one
/// move from a reached triple whose cost plus the move's is its own, and no
/// move from a reached triple leads to a dearer triple (unless the sum
/// leaves `i32`). Unreached triples hold `i32::MAX`.
pub open spec fn edge_distances(ms: Seq<(Seq<usize>, i32)>, t: Seq<i32>) -> bool {
    &&& t.len() == triple_count()
    &&& forall|i: int| 0 <= i < triple_count() ==> #[trigger] t[i] == i32::MAX || t[i] >= 0
    &&& forall|i: int| #[trigger] is_start(i) ==> t[i] == 0
    &&& forall|i: int|
        0 <= i < triple_count() && #[trigger] t[i] < i32::MAX && !is_start(i) ==> exists|j: int, m: int|
            0 <= j < triple_count() && 0 <= m < ms.len() && t[j] < i32::MAX && #[trigger] next_triple(ms[m].0, j) == i
                && t[i] == t[j] + ms[m].1
    &&& forall|i: int, m: int|
        0 <= i < triple_count() && 0 <= m < ms.len() && #[trigger] t[i] < i32::MAX ==> #[trigger] relaxed_move(ms, t, i, m)
}

proof fn lemma_last_at_range(perm: Seq<usize>, p: int, n: int)
    requires
        n >= 1,
    ensures
        0 <= last_at(perm, p, n) < n,
    decreases n,
{
    if n > 1 {
        lemma_last_at_range(perm, p, n - 1);
    } else {
        assert(last_at(perm, p, 0) == 0);
    }
}

proof fn lemma_triple_split(i: int)
    requires
        0 <= i < triple_count(),
    ensures
        0 <= i / 5184 < 72,
        0 <= (i / 72) % 72 < 72,
        0 <= i % 72 < 72,
        triple_index(i / 5184, (i / 72) % 72, i % 72) == i,
{
    assert(i / 5184 < 72);
    assert((i / 72) / 72 == i / 5184) by (nonlinear_arith)
        requires
            i >= 0,
    ;
    assert(i / 72 == (i / 72) / 72 * 72 + (i / 72) % 72);
    assert(i == (i / 72) * 72 + i % 72);
}

proof fn lemma_triple_index(a: int, b: int, c: int)
    requires
        0 <= a < 72,
        0 <= b < 72,
        0 <= c < 72,
    ensures
        0 <= triple_index(a, b, c) < triple_count(),
        triple_index(a, b, c) / 5184 == a,
        (triple_index(a, b, c) / 72) % 72 == b,
        triple_index(a, b, c) % 72 == c,
{
    let i = triple_index(a, b, c);
    assert(i == a * 5184 + b * 72 + c);
    assert(i / 72 == a * 72 + b);
    assert((a * 72 + b) % 72 == b);
    assert(i / 5184 == a);
}

proof fn lemma_next_triple_range(perm: Seq<usize>, i: int)
    ensures
        0 <= next_triple(perm, i) < triple_count(),
{
    lemma_last_at_range(perm, i / 5184, 72);
    lemma_last_at_range(perm, (i / 72) % 72, 72);
    lemma_last_at_range(perm, i % 72, 72);
    lemma_triple_index(moved_to(perm, i / 5184), moved_to(perm, (i / 72) % 72), moved_to(perm, i % 72));
}

fn moved_to_exec(perm: &Vec<usize>, p: usize) -> (r: usize)
    requires
        perm.len() >= 72,
    ensures
        r as int == moved_to(perm@, p as int),
        r < 72,
{
    let mut r: usize = 0;
    let mut j: usize = 0;
    while j < 72
        invariant
            j <= 72,
            perm.len() >= 72,
            r as int == last_at(perm@, p as int, j as int),
            r < 72,
        decreases 72 - j,
    {
        if perm[j] == p {
            r = j;
        }
        j = j + 1;
    }
    r
}

fn next_index(perm: &Vec<usize>, i: usize) -> (r: usize)
    requires
        perm.len() >= 72,
        i < triple_count(),
    ensures
        r as int == next_triple(perm@, i as int),
        r < triple_count(),
{
    proof {
        lemma_triple_split(i as int);
    }
    let a = moved_to_exec(perm, i / 5184);
    let b = moved_to_exec(perm, (i / 72) % 72);
    let c = moved_to_exec(perm, i % 72);
    proof {
        lemma_triple_index(a as int, b as int, c as int);
    }
    (a * 72 + b) * 72 + c
}

/// The least costs of the triples of wing places from the solved triples
/// under the moves `moves` (permutations of the 72 places with costs),
/// found by relaxing until nothing improves (`edge_distances`), as a flat
/// table indexed by `triple_index`.
pub fn edge_distance_table(moves: &Vec<(Vec<usize>, i32)>) -> (t: Vec<i32>)
    requires
        edge_moves_ok(table_view(moves@)),
    ensures
        edge_distances(table_view(moves@), t@),
{
    let ghost ms = table_view(moves@);
    let n: usize = 373248;
    let mut t: Vec<i32> = Vec::new();
    while t.len() < n
        invariant
            t.len() <= n,
            n == triple_count(),
            forall|i: int| 0 <= i < t.len() ==> #[trigger] t@[i] == i32::MAX,
        decreases n - t.len(),
    {
        t.push(i32::MAX);
    }
    let mut queue: Vec<usize> = Vec::new();
    let mut k: usize = 0;
    while k < 24
        invariant
            k <= 24,
            t.len() == n == triple_count(),
            forall|i: int| 0 <= i < n ==> #[trigger] t@[i] == i32::MAX || t@[i] == 0,
            forall|i: int| 0 <= i < n && #[trigger] t@[i] == 0 ==> is_start(i) && queue@.contains(i as usize),
            forall|i: int| #[trigger] is_start(i) && (i / 72) % 72 < 3 * k ==> t@[i] == 0,
            forall|j: int| 0 <= j < queue.len() ==> #[trigger] queue@[j] < n,
        decreases 24 - k,
    {
        proof {
            lemma_triple_index(3 * k as int, 3 * k + 1, 3 * k + 2);
            lemma_triple_index(3 * k + 2, 3 * k + 1, 3 * k as int);
        }
        let i0 = (3 * k * 72 + 3 * k + 1) * 72 + 3 * k + 2;
        let i1 = ((3 * k + 2) * 72 + 3 * k + 1) * 72 + 3 * k;
        let ghost q0 = queue@;
        t.set(i0, 0);
        t.set(i1, 0);
        queue.push(i0);
        queue.push(i1);
        proof {
            assert(queue@ == q0.push(i0).push(i1));
            assert(queue@.contains(i0)) by {
                assert(queue@[q0.len() as int] == i0);
            }
            assert(queue@.contains(i1)) by {
                assert(queue@[q0.len() + 1int] == i1);
            }
            assert forall|i: int| 0 <= i < n && #[trigger] t@[i] == 0 implies is_start(i) && queue@.contains(i as usize) by {
                if i != i0 && i != i1 {
                    assert(q0.contains(i as usize));
                    let w = choose|w: int| 0 <= w < q0.len() && q0[w] == i as usize;
                    assert(queue@[w] == i as usize);
                }
            }
            assert forall|i: int| #[trigger] is_start(i) && (i / 72) % 72 < 3 * (k + 1) implies t@[i] == 0 by {
                lemma_triple_split(i);
                let a = i / 5184;
                let b = (i / 72) % 72;
                let c = i % 72;
                if b >= 3 * k {
                    assert(b == 3 * k + 1);
                    if a == b - 1 {
                        assert(i == i0);
                    } else {
                        assert(i == i1);
                    }
                }
            }
            assert forall|j: int| 0 <= j < queue.len() implies #[trigger] queue@[j] < n by {
                if j < q0.len() {
                    assert(queue@[j] == q0[j]);
                }
            }
        }
        k = k + 1;
    }
    proof {
        assert forall|i: int| #[trigger] is_start(i) implies t@[i] == 0 by {
            lemma_triple_split(i);
        }
    }
    let ghost mut pj: Seq<int> = Seq::new(n as nat, |i: int| 0int);
    let ghost mut pm: Seq<int> = Seq::new(n as nat, |i: int| 0int);
    proof {
        lemma_cost_sum_nonneg(t@);
    }
    while queue.len() > 0
        invariant
            t.len() == n == triple_count(),
            ms == table_view(moves@),
            edge_moves_ok(ms),
            pj.len() == n,
            pm.len() == n,
            forall|i: int| 0 <= i < n ==> #[trigger] t@[i] == i32::MAX || t@[i] >= 0,
            forall|i: int| #[trigger] is_start(i) ==> t@[i] == 0,
            forall|i: int|
                0 <= i < n && #[trigger] t@[i] < i32::MAX && !is_start(i) ==> {
                    &&& 0 <= pj[i] < n
                    &&& 0 <= pm[i] < ms.len()
                    &&& t@[pj[i]] < i32::MAX
                    &&& next_triple(ms[pm[i]].0, pj[i]) == i
                    &&& t@[i] >= t@[pj[i]] + ms[pm[i]].1
                },
            forall|j: int| 0 <= j < queue.len() ==> #[trigger] queue@[j] < n,
            forall|i: int, m: int|
                0 <= i < n && 0 <= m < ms.len() && #[trigger] t@[i] < i32::MAX && !queue@.contains(i as usize) ==> #[trigger] relaxed_move(ms, t@, i, m),
            cost_sum(t@) >= 0,
        decreases 2 * cost_sum(t@) + queue.len(),
    {
        let ghost measure = 2 * cost_sum(t@) + queue.len();
        let ghost qb = queue@;
        let i = queue.pop().unwrap();
        assert(queue@ =~= qb.drop_last());
        assert(qb[qb.len() - 1] == i);
        assert(i < n);
        proof {
            assert forall|x: int, mm: int|
                0 <= x < n && 0 <= mm < ms.len() && #[trigger] t@[x] < i32::MAX && x != i && !queue@.contains(x as usize) implies #[trigger] relaxed_move(ms, t@, x, mm) by {
                if qb.contains(x as usize) {
                    let w = choose|w: int| 0 <= w < qb.len() && qb[w] == x as usize;
                    if w < qb.len() - 1 {
                        assert(queue@[w] == x as usize);
                    }
                }
            }
        }
        let c = t[i];
        let mut m: usize = 0;
        while m < moves.len()
            invariant
                t.len() == n == triple_count(),
                ms == table_view(moves@),
                edge_moves_ok(ms),
                i < n,
                c == t@[i as int],
                pj.len() == n,
                pm.len() == n,
                m <= moves.len(),
                forall|x: int| 0 <= x < n ==> #[trigger] t@[x] == i32::MAX || t@[x] >= 0,
                forall|x: int| #[trigger] is_start(x) ==> t@[x] == 0,
                forall|x: int|
                    0 <= x < n && #[trigger] t@[x] < i32::MAX && !is_start(x) ==> {
                        &&& 0 <= pj[x] < n
                        &&& 0 <= pm[x] < ms.len()
                        &&& t@[pj[x]] < i32::MAX
                        &&& next_triple(ms[pm[x]].0, pj[x]) == x
                        &&& t@[x] >= t@[pj[x]] + ms[pm[x]].1
                    },
                forall|j: int| 0 <= j < queue.len() ==> #[trigger] queue@[j] < n,
                forall|x: int, mm: int|
                    0 <= x < n && 0 <= mm < ms.len() && #[trigger] t@[x] < i32::MAX && x != i && !queue@.contains(x as usize) ==> #[trigger] relaxed_move(ms, t@, x, mm),
                c < i32::MAX ==> forall|mm: int| 0 <= mm < m ==> #[trigger] relaxed_move(ms, t@, i as int, mm),
                cost_sum(t@) >= 0,
                2 * cost_sum(t@) + queue.len() < measure,
            decreases moves.len() - m,
        {
            assert(ms[m as int] == (moves@[m as int].0@, moves@[m as int].1));
            let cost = moves[m].1;
            if c < i32::MAX {
                let ni = next_index(&moves[m].0, i);
                let nc: i64 = c as i64 + cost as i64;
                if nc < t[ni] as i64 {
                    let ghost tb = t@;
                    let ghost qb2 = queue@;
                    proof {
                        lemma_cost_sum_update(tb, ni as int, nc as i32);
                        assert(!is_start(ni as int)) by {
                            if is_start(ni as int) {
                                assert(tb[ni as int] == 0);
                            }
                        }
                    }
                    t.set(ni, nc as i32);
                    queue.push(ni);
                    proof {
                        assert(t@ == tb.update(ni as int, nc as i32));
                        assert forall|x: int| 0 <= x < t@.len() implies #[trigger] t@[x] >= 0 by {
                            if x != ni {
                                assert(tb[x] == i32::MAX || tb[x] >= 0);
                            }
                        }
                        lemma_cost_sum_nonneg(t@);
                        pj = pj.update(ni as int, i as int);
                        pm = pm.update(ni as int, m as int);
                        assert(queue@ == qb2.push(ni));
                        assert(queue@.contains(ni)) by {
                            assert(queue@[qb2.len() as int] == ni);
                        }
                        assert forall|j: int| 0 <= j < queue.len() implies #[trigger] queue@[j] < n by {
                            if j < qb2.len() {
                                assert(queue@[j] == qb2[j]);
                            }
                        }
                        assert forall|x: int| 0 <= x < n && #[trigger] t@[x] < i32::MAX && !is_start(x) implies {
                            &&& 0 <= pj[x] < n
                            &&& 0 <= pm[x] < ms.len()
                            &&& t@[pj[x]] < i32::MAX
                            &&& next_triple(ms[pm[x]].0, pj[x]) == x
                            &&& t@[x] >= t@[pj[x]] + ms[pm[x]].1
                        } by {
                            if x != ni {
                                assert(tb[x] < i32::MAX);
                                assert(t@[x] == tb[x]);
                            }
                        }
                        assert forall|x: int, mm: int|
                            0 <= x < n && 0 <= mm < ms.len() && #[trigger] t@[x] < i32::MAX && x != i && !queue@.contains(x as usize) implies #[trigger] relaxed_move(ms, t@, x, mm) by {
                            assert(x != ni);
                            assert(!qb2.contains(x as usize)) by {
                                if qb2.contains(x as usize) {
                                    let w = choose|w: int| 0 <= w < qb2.len() && qb2[w] == x as usize;
                                    assert(queue@[w] == x as usize);
                                }
                            }
                            assert(relaxed_move(ms, tb, x, mm));
                            assert(t@[x] == tb[x]);
                            let nx = next_triple(ms[mm].0, x);
                            lemma_next_triple_range(ms[mm].0, x);
                            assert(t@[nx] <= tb[nx]);
                        }
                        if c < i32::MAX {
                            assert forall|mm: int| 0 <= mm < m + 1 implies #[trigger] relaxed_move(ms, t@, i as int, mm) by {
                                if mm < m {
                                    assert(relaxed_move(ms, tb, i as int, mm));
                                    let nx = next_triple(ms[mm].0, i as int);
                                    lemma_next_triple_range(ms[mm].0, i as int);
                                    assert(t@[nx] <= tb[nx]);
                                    assert(t@[i as int] == tb[i as int]);
                                } else {
                                    assert(next_triple(ms[mm].0, i as int) == ni);
                                }
                            }
                        }
                    }
                } else {
                    proof {
                        assert(next_triple(ms[m as int].0, i as int) == ni);
                        assert(relaxed_move(ms, t@, i as int, m as int));
                    }
                }
            }
            m = m + 1;
        }
        proof {
            assert forall|x: int, mm: int|
                0 <= x < n && 0 <= mm < ms.len() && #[trigger] t@[x] < i32::MAX && !queue@.contains(x as usize) implies #[trigger] relaxed_move(ms, t@, x, mm) by {
                if x == i {
                    assert(ms.len() == moves.len());
                }
            }
        }
    }
    proof {
        let ts = t@;
        assert forall|x: int|
            0 <= x < triple_count() && #[trigger] ts[x] < i32::MAX && !is_start(x) implies exists|j: int, mm: int|
                0 <= j < triple_count() && 0 <= mm < ms.len() && ts[j] < i32::MAX && #[trigger] next_triple(ms[mm].0, j) == x
                    && ts[x] == ts[j] + ms[mm].1 by {
            let j = pj[x];
            let mm = pm[x];
            assert(relaxed_move(ms, ts, j, mm));
            assert(next_triple(ms[mm].0, j) == x);
        }
    }
    t
}


/// `r` is the table `t` as 72 x 72 x 72 nested rows: `r[a][b][c]` is
/// `t[triple_index(a, b, c)]`.
pub open spec fn nested_table(r: Seq<Vec<Vec<i32>>>, t: Seq<i32>) -> bool {
    &&& r.len() == 72
    &&& forall|a: int| 0 <= a < 72 ==> (#[trigger] r[a]).len() == 72
    &&& forall|a: int, b: int| 0 <= a < 72 && 0 <= b < 72 ==> (#[trigger] r[a]@[b]).len() == 72
    &&& forall|a: int, b: int, c: int|
        0 <= a < 72 && 0 <= b < 72 && 0 <= c < 72 ==> #[trigger] r[a]@[b]@[c] == t[triple_index(a, b, c)]
}

fn nest(t: &Vec<i32>) -> (r: Vec<Vec<Vec<i32>>>)
    requires
        t.len() == triple_count(),
    ensures
        nested_table(r@, t@),
{
    let mut r: Vec<Vec<Vec<i32>>> = Vec::new();
    let mut a: usize = 0;
    while a < 72
        invariant
            a <= 72,
            t.len() == triple_count(),
            r.len() == a,
            forall|x: int| 0 <= x < a ==> (#[trigger] r@[x]).len() == 72,
            forall|x: int, y: int| 0 <= x < a && 0 <= y < 72 ==> (#[trigger] r@[x]@[y]).len() == 72,
            forall|x: int, y: int, z: int|
                0 <= x < a && 0 <= y < 72 && 0 <= z < 72 ==> #[trigger] r@[x]@[y]@[z] == t@[triple_index(x, y, z)],
        decreases 72 - a,
    {
        let mut plane: Vec<Vec<i32>> = Vec::new();
        let mut b: usize = 0;
        while b < 72
            invariant
                a < 72,
                b <= 72,
                t.len() == triple_count(),
                plane.len() == b,
                forall|y: int| 0 <= y < b ==> (#[trigger] plane@[y]).len() == 72,
                forall|y: int, z: int| 0 <= y < b && 0 <= z < 72 ==> #[trigger] plane@[y]@[z] == t@[triple_index(a as int, y, z)],
            decreases 72 - b,
        {
            let mut row: Vec<i32> = Vec::new();
            let mut c: usize = 0;
            while c < 72
                invariant
                    a < 72,
                    b < 72,
                    c <= 72,
                    t.len() == triple_count(),
                    row.len() == c,
                    forall|z: int| 0 <= z < c ==> #[trigger] row@[z] == t@[triple_index(a as int, b as int, z)],
                decreases 72 - c,
            {
                proof {
                    lemma_triple_index(a as int, b as int, c as int);
                }
                row.push(t[(a * 72 + b) * 72 + c]);
                c = c + 1;
            }
            let ghost pb = plane@;
            plane.push(row);
            assert forall|y: int, z: int| 0 <= y < b + 1 && 0 <= z < 72 implies #[trigger] plane@[y]@[z] == t@[triple_index(a as int, y, z)] by {
                if y < b {
                    assert(plane@[y] == pb[y]);
                }
            }
            assert forall|y: int| 0 <= y < b + 1 implies (#[trigger] plane@[y]).len() == 72 by {
                if y < b {
                    assert(plane@[y] == pb[y]);
                }
            }
            b = b + 1;
        }
        let ghost rb = r@;
        r.push(plane);
        assert forall|x: int, y: int, z: int|
            0 <= x < a + 1 && 0 <= y < 72 && 0 <= z < 72 implies #[trigger] r@[x]@[y]@[z] == t@[triple_index(x, y, z)] by {
            if x < a {
                assert(r@[x] == rb[x]);
            }
        }
        assert forall|x: int, y: int| 0 <= x < a + 1 && 0 <= y < 72 implies (#[trigger] r@[x]@[y]).len() == 72 by {
            if x < a {
                assert(r@[x] == rb[x]);
            }
        }
        assert forall|x: int| 0 <= x < a + 1 implies (#[trigger] r@[x]).len() == 72 by {
            if x < a {
                assert(r@[x] == rb[x]);
            }
        }
        a = a + 1;
    }
    r
}

/// `r` holds, nested (`nested_table`), a table of least costs
/// (`edge_distances`) under the moves `ms`.
pub open spec fn distance_rows(ms: Seq<(Seq<usize>, i32)>, r: Seq<Vec<Vec<i32>>>) -> bool {
    exists|t: Seq<i32>| edge_distances(ms, t) && #[trigger] nested_table(r, t)
}

/// The distance table of the edge search (`edge_distances`), nested as
/// `r[a][b][c]` for the triple of places `(a, b, c)`: `i32::MAX` where no
/// moves lead.
pub fn heuristic_table_cube_edge(moves: &Vec<(Vec<usize>, i32)>) -> (r: Vec<Vec<Vec<i32>>>)
    requires
        edge_moves_ok(table_view(moves@)),
    ensures
        distance_rows(table_view(moves@), r@),
{
    let t = edge_distance_table(moves);
    let r = nest(&t);
    assert(nested_table(r@, t@));
    r
}

/// What `serde_json::from_str` reads from `text` as a list of moves with
/// costs (`Vec<(Vec<usize>, i32)>`), by views; `None` when the text does
/// not parse.
pub uninterp spec fn json_edge_moves(text: Seq<char>) -> Option<Seq<(Seq<usize>, i32)>>;

/// `serde_json::from_str` into a list of moves with costs; `None` exactly
/// when the text does not parse. Claims that the list is the one the text
/// gives (`json_edge_moves`), in its order.
#[verifier::external_body]
fn parse_edge_moves(text: &str) -> (r: Option<Vec<(Vec<usize>, i32)>>)
    ensures
        r is Some <==> json_edge_moves(text@) is Some,
        r matches Some(v) ==> json_edge_moves(text@) == Some(table_view(v@)),
{
    serde_json::from_str::<Vec<(Vec<usize>, i32)>>(text).ok()
}

fn moves_fit(moves: &Vec<(Vec<usize>, i32)>) -> (b: bool)
    ensures
        b == edge_moves_ok(table_view(moves@)),
{
    let ghost ms = table_view(moves@);
    let mut m: usize = 0;
    while m < moves.len()
        invariant
            m <= moves.len(),
            ms == table_view(moves@),
            forall|k: int| 0 <= k < m ==> (#[trigger] ms[k]).0.len() >= 72 && ms[k].1 >= 1,
        decreases moves.len() - m,
    {
        assert(ms[m as int] == (moves@[m as int].0@, moves@[m as int].1));
        if moves[m].0.len() < 72 || moves[m].1 < 1 {
            return false;
        }
        m = m + 1;
    }
    assert(ms.len() == moves.len());
    true
}

/// The distance table of the edge search from the text of its move file:
/// the moves are read with serde_json (`json_edge_moves`) and the table is
/// built from them (`heuristic_table_cube_edge`). `None` when the text
/// does not parse or a move has fewer than 72 places or costs less than 1.
pub fn heuristic_table_cube_edge_from_text(text: &str) -> (r: Option<Vec<Vec<Vec<i32>>>>)
    ensures
        r is Some <==> (json_edge_moves(text@) matches Some(ms) && edge_moves_ok(ms)),
        r matches Some(v) ==> distance_rows(json_edge_moves(text@)->0, v@),
{
    let moves = match parse_edge_moves(text) {
        Some(v) => v,
        None => {
            return None;
        },
    };
    if !moves_fit(&moves) {
        return None;
    }
    let tab = heuristic_table_cube_edge(&moves);
    assert(json_edge_moves(text@)->0 == table_view(moves@));
    Some(tab)
}


/// The number of pairs of middle wing places: `48 * 48`.
pub open spec fn pair_count() -> int {
    2304
}

/// Where the move `perm` takes the middle wing at place `p`: the last
/// place of `perm` that it fills from `p`, or 0.
pub open spec fn pair_moved_to(perm: Seq<usize>, p: int) -> int {
    last_at(perm, p, perm.len() as int)
}

/// The pair that the move `perm` makes of pair `i` (`48 * a + b`).
pub open spec fn next_pair(perm: Seq<usize>, i: int) -> int {
    pair_moved_to(perm, i / 48) * 48 + pair_moved_to(perm, i % 48)
}

/// Pair `i` is a solved one: the two middle wings `2k`, `2k + 1` of one
/// edge, in either order.
pub open spec fn is_pair_start(i: int) -> bool {
    &&& 0 <= i < pair_count()
    &&& (i / 48) / 2 == (i % 48) / 2
    &&& i / 48 != i % 48
}

/// Like `relaxed_move`, for pairs.
pub open spec fn pair_relaxed(ms: Seq<(Seq<usize>, i32)>, t: Seq<i32>, i: int, m: int) -> bool {
    t[i] + ms[m].1 >= i32::MAX || t[next_pair(ms[m].0, i)] <= t[i] + ms[m].1
}

/// Every move has at most 48 places and costs at least 1.
pub open spec fn pair_moves_ok(ms: Seq<(Seq<usize>, i32)>) -> bool {
    forall|m: int| 0 <= m < ms.len() ==> (#[trigger] ms[m]).0.len() <= 48 && ms[m].1 >= 1
}

/// `t` is the table of least costs of the pairs from the solved pairs, as
/// `edge_distances` says for triples.
pub open spec fn pair_distances(ms: Seq<(Seq<usize>, i32)>, t: Seq<i32>) -> bool {
    &&& t.len() == pair_count()
    &&& forall|i: int| 0 <= i < pair_count() ==> #[trigger] t[i] == i32::MAX || t[i] >= 0
    &&& forall|i: int| #[trigger] is_pair_start(i) ==> t[i] == 0
    &&& forall|i: int|
        0 <= i < pair_count() && #[trigger] t[i] < i32::MAX && !is_pair_start(i) ==> exists|j: int, m: int|
            0 <= j < pair_count() && 0 <= m < ms.len() && t[j] < i32::MAX && #[trigger] next_pair(ms[m].0, j) == i
                && t[i] == t[j] + ms[m].1
    &&& forall|i: int, m: int|
        0 <= i < pair_count() && 0 <= m < ms.len() && #[trigger] t[i] < i32::MAX ==> #[trigger] pair_relaxed(ms, t, i, m)
}

proof fn lemma_next_pair_range(perm: Seq<usize>, i: int)
    requires
        perm.len() <= 48,
    ensures
        0 <= next_pair(perm, i) < pair_count(),
{
    if perm.len() > 0 {
        lemma_last_at_range(perm, i / 48, perm.len() as int);
        lemma_last_at_range(perm, i % 48, perm.len() as int);
    }
}

fn pair_moved_to_exec(perm: &Vec<usize>, p: usize) -> (r: usize)
    requires
        perm.len() <= 48,
    ensures
        r as int == pair_moved_to(perm@, p as int),
        r < 48,
{
    let mut r: usize = 0;
    let mut j: usize = 0;
    while j < perm.len()
        invariant
            j <= perm.len() <= 48,
            r as int == last_at(perm@, p as int, j as int),
            r < 48,
        decreases perm.len() - j,
    {
        if perm[j] == p {
            r = j;
        }
        j = j + 1;
    }
    r
}

fn next_pair_index(perm: &Vec<usize>, i: usize) -> (r: usize)
    requires
        perm.len() <= 48,
        i < pair_count(),
    ensures
        r as int == next_pair(perm@, i as int),
        r < pair_count(),
{
    let a = pair_moved_to_exec(perm, i / 48);
    let b = pair_moved_to_exec(perm, i % 48);
    a * 48 + b
}

/// The least costs of the pairs of middle wing places from the solved
/// pairs (`pair_distances`), as a flat table indexed by `48 * a + b`.
pub fn pair_distance_table(moves: &Vec<(Vec<usize>, i32)>) -> (t: Vec<i32>)
    requires
        pair_moves_ok(table_view(moves@)),
    ensures
        pair_distances(table_view(moves@), t@),
{
    let ghost ms = table_view(moves@);
    let n: usize = 2304;
    let mut t: Vec<i32> = Vec::new();
    while t.len() < n
        invariant
            t.len() <= n,
            n == pair_count(),
            forall|i: int| 0 <= i < t.len() ==> #[trigger] t@[i] == i32::MAX,
        decreases n - t.len(),
    {
        t.push(i32::MAX);
    }
    let mut queue: Vec<usize> = Vec::new();
    let mut k: usize = 0;
    while k < 24
        invariant
            k <= 24,
            t.len() == n == pair_count(),
            forall|i: int| 0 <= i < n ==> #[trigger] t@[i] == i32::MAX || t@[i] == 0,
            forall|i: int| 0 <= i < n && #[trigger] t@[i] == 0 ==> is_pair_start(i) && queue@.contains(i as usize),
            forall|i: int| #[trigger] is_pair_start(i) && (i / 48) / 2 < k ==> t@[i] == 0,
            forall|j: int| 0 <= j < queue.len() ==> #[trigger] queue@[j] < n,
        decreases 24 - k,
    {
        let i0 = (2 * k) * 48 + 2 * k + 1;
        let i1 = (2 * k + 1) * 48 + 2 * k;
        let ghost q0 = queue@;
        t.set(i0, 0);
        t.set(i1, 0);
        queue.push(i0);
        queue.push(i1);
        proof {
            assert(queue@ == q0.push(i0).push(i1));
            assert(queue@.contains(i0)) by {
                assert(queue@[q0.len() as int] == i0);
            }
            assert(queue@.contains(i1)) by {
                assert(queue@[q0.len() + 1int] == i1);
            }
            assert forall|i: int| 0 <= i < n && #[trigger] t@[i] == 0 implies is_pair_start(i) && queue@.contains(i as usize) by {
                if i != i0 && i != i1 {
                    assert(q0.contains(i as usize));
                    let w = choose|w: int| 0 <= w < q0.len() && q0[w] == i as usize;
                    assert(queue@[w] == i as usize);
                }
            }
            assert forall|i: int| #[trigger] is_pair_start(i) && (i / 48) / 2 < k + 1 implies t@[i] == 0 by {
                let a = i / 48;
                let b = i % 48;
                assert(i == a * 48 + b);
                if a / 2 == k {
                    if a == 2 * k {
                        assert(b == 2 * k + 1);
                        assert(i == i0);
                    } else {
                        assert(a == 2 * k + 1);
                        assert(b == 2 * k);
                        assert(i == i1);
                    }
                }
            }
            assert forall|j: int| 0 <= j < queue.len() implies #[trigger] queue@[j] < n by {
                if j < q0.len() {
                    assert(queue@[j] == q0[j]);
                }
            }
        }
        k = k + 1;
    }
    let ghost mut pj: Seq<int> = Seq::new(n as nat, |i: int| 0int);
    let ghost mut pm: Seq<int> = Seq::new(n as nat, |i: int| 0int);
    proof {
        lemma_cost_sum_nonneg(t@);
    }
    while queue.len() > 0
        invariant
            t.len() == n == pair_count(),
            ms == table_view(moves@),
            pair_moves_ok(ms),
            pj.len() == n,
            pm.len() == n,
            forall|i: int| 0 <= i < n ==> #[trigger] t@[i] == i32::MAX || t@[i] >= 0,
            forall|i: int| #[trigger] is_pair_start(i) ==> t@[i] == 0,
            forall|i: int|
                0 <= i < n && #[trigger] t@[i] < i32::MAX && !is_pair_start(i) ==> {
                    &&& 0 <= pj[i] < n
                    &&& 0 <= pm[i] < ms.len()
                    &&& t@[pj[i]] < i32::MAX
                    &&& next_pair(ms[pm[i]].0, pj[i]) == i
                    &&& t@[i] >= t@[pj[i]] + ms[pm[i]].1
                },
            forall|j: int| 0 <= j < queue.len() ==> #[trigger] queue@[j] < n,
            forall|i: int, m: int|
                0 <= i < n && 0 <= m < ms.len() && #[trigger] t@[i] < i32::MAX && !queue@.contains(i as usize) ==> #[trigger] pair_relaxed(ms, t@, i, m),
            cost_sum(t@) >= 0,
        decreases 2 * cost_sum(t@) + queue.len(),
    {
        let ghost measure = 2 * cost_sum(t@) + queue.len();
        let ghost qb = queue@;
        let i = queue.pop().unwrap();
        assert(queue@ =~= qb.drop_last());
        assert(qb[qb.len() - 1] == i);
        assert(i < n);
        proof {
            assert forall|x: int, mm: int|
                0 <= x < n && 0 <= mm < ms.len() && #[trigger] t@[x] < i32::MAX && x != i && !queue@.contains(x as usize) implies #[trigger] pair_relaxed(ms, t@, x, mm) by {
                if qb.contains(x as usize) {
                    let w = choose|w: int| 0 <= w < qb.len() && qb[w] == x as usize;
                    if w < qb.len() - 1 {
                        assert(queue@[w] == x as usize);
                    }
                }
            }
        }
        let c = t[i];
        let mut m: usize = 0;
        while m < moves.len()
            invariant
                t.len() == n == pair_count(),
                ms == table_view(moves@),
                pair_moves_ok(ms),
                i < n,
                c == t@[i as int],
                pj.len() == n,
                pm.len() == n,
                m <= moves.len(),
                forall|x: int| 0 <= x < n ==> #[trigger] t@[x] == i32::MAX || t@[x] >= 0,
                forall|x: int| #[trigger] is_pair_start(x) ==> t@[x] == 0,
                forall|x: int|
                    0 <= x < n && #[trigger] t@[x] < i32::MAX && !is_pair_start(x) ==> {
                        &&& 0 <= pj[x] < n
                        &&& 0 <= pm[x] < ms.len()
                        &&& t@[pj[x]] < i32::MAX
                        &&& next_pair(ms[pm[x]].0, pj[x]) == x
                        &&& t@[x] >= t@[pj[x]] + ms[pm[x]].1
                    },
                forall|j: int| 0 <= j < queue.len() ==> #[trigger] queue@[j] < n,
                forall|x: int, mm: int|
                    0 <= x < n && 0 <= mm < ms.len() && #[trigger] t@[x] < i32::MAX && x != i && !queue@.contains(x as usize) ==> #[trigger] pair_relaxed(ms, t@, x, mm),
                c < i32::MAX ==> forall|mm: int| 0 <= mm < m ==> #[trigger] pair_relaxed(ms, t@, i as int, mm),
                cost_sum(t@) >= 0,
                2 * cost_sum(t@) + queue.len() < measure,
            decreases moves.len() - m,
        {
            assert(ms[m as int] == (moves@[m as int].0@, moves@[m as int].1));
            let cost = moves[m].1;
            if c < i32::MAX {
                let ni = next_pair_index(&moves[m].0, i);
                let nc: i64 = c as i64 + cost as i64;
                if nc < t[ni] as i64 {
                    let ghost tb = t@;
                    let ghost qb2 = queue@;
                    proof {
                        lemma_cost_sum_update(tb, ni as int, nc as i32);
                        assert(!is_pair_start(ni as int)) by {
                            if is_pair_start(ni as int) {
                                assert(tb[ni as int] == 0);
                            }
                        }
                    }
                    t.set(ni, nc as i32);
                    queue.push(ni);
                    proof {
                        assert(t@ == tb.update(ni as int, nc as i32));
                        assert forall|x: int| 0 <= x < t@.len() implies #[trigger] t@[x] >= 0 by {
                            if x != ni {
                                assert(tb[x] == i32::MAX || tb[x] >= 0);
                            }
                        }
                        lemma_cost_sum_nonneg(t@);
                        pj = pj.update(ni as int, i as int);
                        pm = pm.update(ni as int, m as int);
                        assert(queue@ == qb2.push(ni));
                        assert(queue@.contains(ni)) by {
                            assert(queue@[qb2.len() as int] == ni);
                        }
                        assert forall|j: int| 0 <= j < queue.len() implies #[trigger] queue@[j] < n by {
                            if j < qb2.len() {
                                assert(queue@[j] == qb2[j]);
                            }
                        }
                        assert forall|x: int| 0 <= x < n && #[trigger] t@[x] < i32::MAX && !is_pair_start(x) implies {
                            &&& 0 <= pj[x] < n
                            &&& 0 <= pm[x] < ms.len()
                            &&& t@[pj[x]] < i32::MAX
                            &&& next_pair(ms[pm[x]].0, pj[x]) == x
                            &&& t@[x] >= t@[pj[x]] + ms[pm[x]].1
                        } by {
                            if x != ni {
                                assert(tb[x] < i32::MAX);
                                assert(t@[x] == tb[x]);
                            }
                        }
                        assert forall|x: int, mm: int|
                            0 <= x < n && 0 <= mm < ms.len() && #[trigger] t@[x] < i32::MAX && x != i && !queue@.contains(x as usize) implies #[trigger] pair_relaxed(ms, t@, x, mm) by {
                            assert(x != ni);
                            assert(!qb2.contains(x as usize)) by {
                                if qb2.contains(x as usize) {
                                    let w = choose|w: int| 0 <= w < qb2.len() && qb2[w] == x as usize;
                                    assert(queue@[w] == x as usize);
                                }
                            }
                            assert(pair_relaxed(ms, tb, x, mm));
                            assert(t@[x] == tb[x]);
                            let nx = next_pair(ms[mm].0, x);
                            lemma_next_pair_range(ms[mm].0, x);
                            assert(t@[nx] <= tb[nx]);
                        }
                        if c < i32::MAX {
                            assert forall|mm: int| 0 <= mm < m + 1 implies #[trigger] pair_relaxed(ms, t@, i as int, mm) by {
                                if mm < m {
                                    assert(pair_relaxed(ms, tb, i as int, mm));
                                    let nx = next_pair(ms[mm].0, i as int);
                                    lemma_next_pair_range(ms[mm].0, i as int);
                                    assert(t@[nx] <= tb[nx]);
                                    assert(t@[i as int] == tb[i as int]);
                                } else {
                                    assert(next_pair(ms[mm].0, i as int) == ni);
                                }
                            }
                        }
                    }
                } else {
                    proof {
                        assert(next_pair(ms[m as int].0, i as int) == ni);
                        assert(pair_relaxed(ms, t@, i as int, m as int));
                    }
                }
            }
            m = m + 1;
        }
        proof {
            assert forall|x: int, mm: int|
                0 <= x < n && 0 <= mm < ms.len() && #[trigger] t@[x] < i32::MAX && !queue@.contains(x as usize) implies #[trigger] pair_relaxed(ms, t@, x, mm) by {
                if x == i {
                    assert(ms.len() == moves.len());
                }
            }
        }
    }
    proof {
        let ts = t@;
        assert forall|x: int|
            0 <= x < pair_count() && #[trigger] ts[x] < i32::MAX && !is_pair_start(x) implies exists|j: int, mm: int|
                0 <= j < pair_count() && 0 <= mm < ms.len() && ts[j] < i32::MAX && #[trigger] next_pair(ms[mm].0, j) == x
                    && ts[x] == ts[j] + ms[mm].1 by {
            let j = pj[x];
            let mm = pm[x];
            assert(pair_relaxed(ms, ts, j, mm));
            assert(next_pair(ms[mm].0, j) == x);
        }
    }
    t
}

/// `r` is the table `t` as 48 x 48 nested rows: `r[a][b]` is
/// `t[48 * a + b]`.
pub open spec fn nested_pairs(r: Seq<Vec<i32>>, t: Seq<i32>) -> bool {
    &&& r.len() == 48
    &&& forall|a: int| 0 <= a < 48 ==> (#[trigger] r[a]).len() == 48
    &&& forall|a: int, b: int| 0 <= a < 48 && 0 <= b < 48 ==> #[trigger] r[a]@[b] == t[a * 48 + b]
}

/// `r` holds, nested (`nested_pairs`), a table of least costs
/// (`pair_distances`) under the moves `ms`.
pub open spec fn pair_rows(ms: Seq<(Seq<usize>, i32)>, r: Seq<Vec<i32>>) -> bool {
    exists|t: Seq<i32>| pair_distances(ms, t) && #[trigger] nested_pairs(r, t)
}

/// The distance table of the search of the two middle wings of an even
/// cube (`pair_distances`), nested as `r[a][b]`.
pub fn heuristic_table_cube_edge_first_even(moves: &Vec<(Vec<usize>, i32)>) -> (r: Vec<Vec<i32>>)
    requires
        pair_moves_ok(table_view(moves@)),
    ensures
        pair_rows(table_view(moves@), r@),
{
    let t = pair_distance_table(moves);
    let mut r: Vec<Vec<i32>> = Vec::new();
    let mut a: usize = 0;
    while a < 48
        invariant
            a <= 48,
            t.len() == pair_count(),
            r.len() == a,
            forall|x: int| 0 <= x < a ==> (#[trigger] r@[x]).len() == 48,
            forall|x: int, y: int| 0 <= x < a && 0 <= y < 48 ==> #[trigger] r@[x]@[y] == t@[x * 48 + y],
        decreases 48 - a,
    {
        let mut row: Vec<i32> = Vec::new();
        let mut b: usize = 0;
        while b < 48
            invariant
                a < 48,
                b <= 48,
                t.len() == pair_count(),
                row.len() == b,
                forall|y: int| 0 <= y < b ==> #[trigger] row@[y] == t@[a * 48 + y],
            decreases 48 - b,
        {
            row.push(t[a * 48 + b]);
            b = b + 1;
        }
        let ghost rb = r@;
        r.push(row);
        assert forall|x: int, y: int| 0 <= x < a + 1 && 0 <= y < 48 implies #[trigger] r@[x]@[y] == t@[x * 48 + y] by {
            if x < a {
                assert(r@[x] == rb[x]);
            }
        }
        assert forall|x: int| 0 <= x < a + 1 implies (#[trigger] r@[x]).len() == 48 by {
            if x < a {
                assert(r@[x] == rb[x]);
            }
        }
        a = a + 1;
    }
    assert(nested_pairs(r@, t@));
    r
}

fn pair_moves_fit(moves: &Vec<(Vec<usize>, i32)>) -> (b: bool)
    ensures
        b == pair_moves_ok(table_view(moves@)),
{
    let ghost ms = table_view(moves@);
    let mut m: usize = 0;
    while m < moves.len()
        invariant
            m <= moves.len(),
            ms == table_view(moves@),
            forall|k: int| 0 <= k < m ==> (#[trigger] ms[k]).0.len() <= 48 && ms[k].1 >= 1,
        decreases moves.len() - m,
    {
        assert(ms[m as int] == (moves@[m as int].0@, moves@[m as int].1));
        if moves[m].0.len() > 48 || moves[m].1 < 1 {
            return false;
        }
        m = m + 1;
    }
    assert(ms.len() == moves.len());
    true
}

/// The distance table of the middle wing search from the text of its
/// move file (`json_edge_moves`); `None` when the text does not parse or a
/// move has more than 48 places or costs less than 1.
pub fn heuristic_table_cube_edge_first_even_from_text(text: &str) -> (r: Option<Vec<Vec<i32>>>)
    ensures
        r is Some <==> (json_edge_moves(text@) matches Some(ms) && pair_moves_ok(ms)),
        r matches Some(v) ==> pair_rows(json_edge_moves(text@)->0, v@),
{
    let moves = match parse_edge_moves(text) {
        Some(v) => v,
        None => {
            return None;
        },
    };
    if !pair_moves_fit(&moves) {
        return None;
    }
    let tab = heuristic_table_cube_edge_first_even(&moves);
    assert(json_edge_moves(text@)->0 == table_view(moves@));
    Some(tab)
}

} // verus!
