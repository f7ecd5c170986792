//! Turning the middle layers of an odd cube before handing it to the
//! outside solver, which wants the centres in place. Up to three turns of
//! the middle layers are tried, never a turn right after its inverse; the
//! states whose six centres sit where the solution has them are solved
//! outside, and the shortest answer, counted with its turns, is kept.
use vstd::prelude::*;
use crate::cube_index::{cell, cell_index, cube_fits, lemma_cube_faces_fit};
use crate::globe::table_fits;
use crate::moves::{layer_move, turn};
use crate::perm::{all_known, apply_named, apply_named_move, ActionTable};
use crate::pieces::string_views;
use crate::text::{chars_of, join_chars, join_seq, split_chars, split_seq, string_of, views};

verus! {

/// The prefixes whose last turn is the third: `i0, i1` and then each
/// `i2 < j` that does not undo `i1`.
pub open spec fn third_turns(i0: usize, i1: usize, j: nat) -> Seq<Seq<usize>>
    decreases j,
{
    if j == 0 {
        Seq::empty()
    } else {
        let i2 = (j - 1) as usize;
        third_turns(i0, i1, (j - 1) as nat) + (if (i2 + 3) % 6 == i1 {
            Seq::empty()
        } else {
            seq![seq![i0, i1, i2]]
        })
    }
}

/// The prefixes that start with `i0` and go on with a turn `i1 < j` that
/// does not undo `i0`: `i0, i1`, then its third turns.
pub open spec fn second_turns(i0: usize, j: nat) -> Seq<Seq<usize>>
    decreases j,
{
    if j == 0 {
        Seq::empty()
    } else {
        let i1 = (j - 1) as usize;
        second_turns(i0, (j - 1) as nat) + (if (i1 + 3) % 6 == i0 {
            Seq::empty()
        } else {
            seq![seq![i0, i1]] + third_turns(i0, i1, 6)
        })
    }
}

/// The empty prefix, then for each first turn `i0 < j`: `i0` and its
/// longer prefixes.
pub open spec fn first_turns(j: nat) -> Seq<Seq<usize>>
    decreases j,
{
    if j == 0 {
        seq![Seq::empty()]
    } else {
        let i0 = (j - 1) as usize;
        first_turns((j - 1) as nat) + seq![seq![i0]] + second_turns(i0, 6)
    }
}

/// Every prefix of middle-layer turns that is tried, in the order tried;
/// turn `i` is `centre_turn(dim, i)`.
pub open spec fn centre_prefixes() -> Seq<Seq<usize>> {
    first_turns(6)
}

/// The views of a list of index lists.
pub open spec fn lists_view(v: Seq<Vec<usize>>) -> Seq<Seq<usize>> {
    v.map_values(|x: Vec<usize>| x@)
}

fn list_of(a: &Vec<usize>, b: usize) -> (r: Vec<usize>)
    ensures
        r@ == a@.push(b),
{
    let mut r = a.clone();
    r.push(b);
    r
}

/// `centre_prefixes`, built in order.
pub fn centre_prefix_list() -> (r: Vec<Vec<usize>>)
    ensures
        lists_view(r@) == centre_prefixes(),
{
    let mut out: Vec<Vec<usize>> = Vec::new();
    out.push(Vec::new());
    assert(lists_view(out@) =~= first_turns(0));
    let mut i0: usize = 0;
    while i0 < 6
        invariant
            i0 <= 6,
            lists_view(out@) == first_turns(i0 as nat),
        decreases 6 - i0,
    {
        let empty: Vec<usize> = Vec::new();
        let one = list_of(&empty, i0);
        let ghost base = lists_view(out@).push(one@);
        out.push(one);
        assert(lists_view(out@) =~= base);
        assert(one@ =~= seq![i0]);
        assert(lists_view(out@) =~= first_turns(i0 as nat) + seq![seq![i0]] + second_turns(i0, 0));
        let mut i1: usize = 0;
        while i1 < 6
            invariant
                i0 < 6,
                i1 <= 6,
                lists_view(out@) == first_turns(i0 as nat) + seq![seq![i0]] + second_turns(i0, i1 as nat),
            decreases 6 - i1,
        {
            let ghost before = lists_view(out@);
            if (i1 + 3) % 6 != i0 {
                let none: Vec<usize> = Vec::new();
                let two = list_of(&list_of(&none, i0), i1);
                assert(two@ =~= seq![i0, i1]);
                out.push(two);
                assert(lists_view(out@) =~= before + seq![seq![i0, i1]] + third_turns(i0, i1, 0));
                let mut i2: usize = 0;
                while i2 < 6
                    invariant
                        i0 < 6,
                        i1 < 6,
                        i2 <= 6,
                        lists_view(out@) == before + seq![seq![i0, i1]] + third_turns(i0, i1, i2 as nat),
                    decreases 6 - i2,
                {
                    let ghost mid = lists_view(out@);
                    if (i2 + 3) % 6 != i1 {
                        let none: Vec<usize> = Vec::new();
                        let three = list_of(&list_of(&list_of(&none, i0), i1), i2);
                        assert(three@ =~= seq![i0, i1, i2]);
                        out.push(three);
                        assert(lists_view(out@) =~= mid + seq![seq![i0, i1, i2]]);
                    }
                    assert(lists_view(out@) =~= before + seq![seq![i0, i1]] + third_turns(i0, i1, (i2 + 1) as nat));
                    i2 = i2 + 1;
                }
            }
            assert(lists_view(out@) =~= first_turns(i0 as nat) + seq![seq![i0]] + second_turns(i0, (i1 + 1) as nat));
            i1 = i1 + 1;
        }
        assert(lists_view(out@) =~= first_turns((i0 + 1) as nat));
        i0 = i0 + 1;
    }
    out
}

/// Turn `i` of the middle layers of a cube of side `dim`: `f`, `r`, `d`
/// for `i` = 0, 1, 2, and their inverses for 3, 4, 5.
pub open spec fn centre_turn(dim: nat, i: usize) -> Seq<char> {
    layer_move(i >= 3, if i % 3 == 0 { 'f' } else if i % 3 == 1 { 'r' } else { 'd' }, dim / 2)
}

/// The name of turn `i` of the middle layers (`centre_turn`).
pub fn centre_turn_name(dim: usize, i: usize) -> (r: String)
    ensures
        r@ == centre_turn(dim as nat, i),
{
    let side = if i % 3 == 0 {
        'f'
    } else if i % 3 == 1 {
        'r'
    } else {
        'd'
    };
    turn(i >= 3, side, dim / 2)
}

/// The names of the turns of prefix `p`.
pub open spec fn prefix_names(dim: nat, p: Seq<usize>) -> Seq<Seq<char>> {
    p.map_values(|i: usize| centre_turn(dim, i))
}

/// The centre sticker of face `f`: `(f, dim / 2, dim / 2)`.
pub open spec fn centre_of(state: Seq<usize>, dim: int, f: int) -> usize {
    state[cell_index(dim, f, dim / 2, dim / 2)]
}

/// The six centres of `state` are those of `sol`.
pub open spec fn centres_match(state: Seq<usize>, sol: Seq<usize>, dim: int) -> bool {
    forall|f: int| 0 <= f < 6 ==> #[trigger] centre_of(state, dim, f) == centre_of(sol, dim, f)
}

/// Whether the six centres of `state` are those of `sol_state`.
pub fn valid_state(state: &Vec<usize>, sol_state: &Vec<usize>, dim: usize) -> (b: bool)
    requires
        cube_fits(dim as int),
        state.len() >= 6 * dim * dim,
        sol_state.len() >= 6 * dim * dim,
    ensures
        b == centres_match(state@, sol_state@, dim as int),
{
    proof {
        lemma_cube_faces_fit(dim as int);
    }
    let half = dim / 2;
    let mut i: usize = 0;
    while i < 6
        invariant
            i <= 6,
            half == dim / 2,
            cube_fits(dim as int),
            forall|f: int| 0 <= f < 6 ==> #[trigger] crate::cube_index::face_fits(dim as int, f),
            state.len() >= 6 * dim * dim,
            sol_state.len() >= 6 * dim * dim,
            forall|f: int| 0 <= f < i ==> #[trigger] centre_of(state@, dim as int, f) == centre_of(sol_state@, dim as int, f),
        decreases 6 - i,
    {
        proof {
            crate::move_gen::lemma_face_below_cube(dim as int, i as int);
        }
        let idx = cell(dim, i, half, half);
        if state[idx] != sol_state[idx] {
            assert(centre_of(state@, dim as int, i as int) != centre_of(sol_state@, dim as int, i as int));
            return false;
        }
        i = i + 1;
    }
    true
}

/// The turns of prefix `p` played on `init`: their names and the state
/// after them, where its centres match those of `sol`; `None` otherwise.
pub open spec fn centre_candidate(t: ActionTable, init: Seq<usize>, sol: Seq<usize>, dim: nat, p: Seq<usize>) -> Option<(Seq<Seq<char>>, Seq<usize>)> {
    let names = prefix_names(dim, p);
    let s = apply_named(t, init, names);
    if centres_match(s, sol, dim as int) {
        Some((names, s))
    } else {
        None
    }
}

/// `centre_candidate` for fixed tables and states, as a function of the prefix.
pub open spec fn candidate_of(t: ActionTable, init: Seq<usize>, sol: Seq<usize>, dim: nat) -> spec_fn(Seq<usize>) -> Option<(Seq<Seq<char>>, Seq<usize>)> {
    |p: Seq<usize>| centre_candidate(t, init, sol, dim, p)
}

/// The candidates, in the order tried: every prefix whose state has its
/// centres in place.
pub open spec fn centre_candidates(t: ActionTable, init: Seq<usize>, sol: Seq<usize>, dim: nat) -> Seq<(Seq<Seq<char>>, Seq<usize>)> {
    centre_prefixes().filter_map(candidate_of(t, init, sol, dim))
}

/// The table has the six turns of the middle layers.
pub open spec fn centre_turns_known(t: ActionTable, dim: nat) -> bool {
    forall|i: usize| i < 6 ==> t.knows(#[trigger] centre_turn(dim, i))
}

/// The views of a list of candidates.
pub open spec fn candidate_views(v: Seq<(Vec<String>, Vec<usize>)>) -> Seq<(Seq<Seq<char>>, Seq<usize>)> {
    v.map_values(|c: (Vec<String>, Vec<usize>)| (string_views(c.0@), c.1@))
}

proof fn lemma_turn_known(t: ActionTable, dim: nat, i: usize)
    requires
        centre_turns_known(t, dim),
    ensures
        t.knows(centre_turn(dim, i)),
{
    let k: usize = if i >= 3 { (3 + i % 3) as usize } else { i };
    assert(centre_turn(dim, i) == centre_turn(dim, k));
    assert(t.knows(centre_turn(dim, k)));
}

/// The states to hand to the outside solver, with the turns that lead to
/// them (`centre_candidates`); `None` when the table lacks a turn of the
/// middle layers or has an action that reaches past the state.
pub fn centre_rot_candidates(t: &ActionTable, init: &Vec<usize>, sol: &Vec<usize>, dim: usize) -> (r: Option<Vec<(Vec<String>, Vec<usize>)>>)
    requires
        t.wf(),
        cube_fits(dim as int),
        init.len() == 6 * dim * dim,
        sol.len() == 6 * dim * dim,
    ensures
        match r {
            Some(v) => centre_turns_known(*t, dim as nat) && t.fits(init.len() as nat) && candidate_views(v@) == centre_candidates(
                *t,
                init@,
                sol@,
                dim as nat,
            ),
            None => !(centre_turns_known(*t, dim as nat) && t.fits(init.len() as nat)),
        },
{
    if !table_fits(t, init.len()) {
        return None;
    }
    let mut i: usize = 0;
    while i < 6
        invariant
            i <= 6,
            t.wf(),
            forall|k: usize| k < i ==> t.knows(#[trigger] centre_turn(dim as nat, k)),
        decreases 6 - i,
    {
        let name = centre_turn_name(dim, i);
        if t.get(&name).is_none() {
            return None;
        }
        i = i + 1;
    }
    let prefixes = centre_prefix_list();
    let ghost f = candidate_of(*t, init@, sol@, dim as nat);
    let ghost all = centre_prefixes();
    let mut out: Vec<(Vec<String>, Vec<usize>)> = Vec::new();
    let mut k: usize = 0;
    while k < prefixes.len()
        invariant
            k <= prefixes.len(),
            lists_view(prefixes@) == all,
            all == centre_prefixes(),
            f == candidate_of(*t, init@, sol@, dim as nat),
            t.wf(),
            t.fits(init.len() as nat),
            centre_turns_known(*t, dim as nat),
            cube_fits(dim as int),
            init.len() == 6 * dim * dim,
            sol.len() == 6 * dim * dim,
            candidate_views(out@) == all.take(k as int).filter_map(f),
        decreases prefixes.len() - k,
    {
        let p = &prefixes[k];
        assert(p@ == all[k as int]);
        let mut s = init.clone();
        let mut names: Vec<String> = Vec::new();
        assert(string_views(names@) =~= prefix_names(dim as nat, p@.take(0)));
        let mut j: usize = 0;
        while j < p.len()
            invariant
                j <= p.len(),
                t.wf(),
                t.fits(init.len() as nat),
                centre_turns_known(*t, dim as nat),
                s.len() == init.len(),
                s@ == apply_named(*t, init@, string_views(names@)),
                all_known(*t, string_views(names@)),
                string_views(names@) == prefix_names(dim as nat, p@.take(j as int)),
            decreases p.len() - j,
        {
            let name = centre_turn_name(dim, p[j]);
            proof {
                lemma_turn_known(*t, dim as nat, p@[j as int]);
            }
            let ghost before = string_views(names@);
            let ok = apply_named_move(t, &mut s, &mut names, name, Ghost(init@));
            if !ok {
                return None;
            }
            assert(string_views(names@) =~= before.push(centre_turn(dim as nat, p@[j as int])));
            assert(p@.take(j + 1).map_values(|i: usize| centre_turn(dim as nat, i)) =~= p@.take(j as int).map_values(
                |i: usize| centre_turn(dim as nat, i),
            ).push(centre_turn(dim as nat, p@[j as int])));
            j = j + 1;
        }
        assert(p@.take(p.len() as int) =~= p@);
        proof {
            all.lemma_filter_map_take_succ(f, k as int);
        }
        if valid_state(&s, sol, dim) {
            let ghost before = candidate_views(out@);
            out.push((names, s));
            assert(candidate_views(out@) =~= before.push((prefix_names(dim as nat, p@), s@)));
        }
        assert(candidate_views(out@) =~= all.take(k + 1).filter_map(f));
        k = k + 1;
    }
    assert(all.take(prefixes.len() as int) =~= all);
    Some(out)
}

/// The number of moves of an answer: its `.`-separated parts.
pub open spec fn move_count(s: Seq<char>) -> int {
    split_seq(s, '.').len() as int
}

/// The view of an optional text.
pub open spec fn text_view(t: Option<String>) -> Option<Seq<char>> {
    match t {
        Some(a) => Some(a@),
        None => None,
    }
}

/// The views of a list of results: the turns of a candidate and the
/// answer found for it, if any.
pub open spec fn result_views(v: Seq<(Vec<String>, Option<String>)>) -> Seq<(Seq<Seq<char>>, Option<Seq<char>>)> {
    v.map_values(|c: (Vec<String>, Option<String>)| (string_views(c.0@), text_view(c.1)))
}

/// The best solution after the first `k` results, with its cost. A result
/// with an answer replaces the best so far when its turns and the moves of
/// its answer together are fewer than the best's cost, which starts at
/// 100000000; the solution is the turns followed by the answer, joined by `.`.
pub open spec fn best_after(results: Seq<(Seq<Seq<char>>, Option<Seq<char>>)>, k: nat) -> (Option<Seq<char>>, int)
    decreases k,
{
    if k == 0 {
        (None, 100000000)
    } else {
        let prev = best_after(results, (k - 1) as nat);
        let c = results[k - 1];
        match c.1 {
            Some(a) => {
                let cost = c.0.len() + move_count(a);
                if cost < prev.1 {
                    (Some(join_seq(c.0.push(a), '.')), cost)
                } else {
                    prev
                }
            },
            None => prev,
        }
    }
}

proof fn lemma_best_cost_bounded(results: Seq<(Seq<Seq<char>>, Option<Seq<char>>)>, k: nat)
    ensures
        best_after(results, k).1 <= 100000000,
    decreases k,
{
    if k > 0 {
        lemma_best_cost_bounded(results, (k - 1) as nat);
    }
}

/// The turns followed by the answer, joined by `.`.
fn turns_then(names: &Vec<String>, answer: &String) -> (r: String)
    ensures
        r@ == join_seq(string_views(names@).push(answer@), '.'),
{
    let mut parts: Vec<Vec<char>> = Vec::new();
    let mut i: usize = 0;
    while i < names.len()
        invariant
            i <= names.len(),
            views(parts@) == string_views(names@).take(i as int),
        decreases names.len() - i,
    {
        let ghost before = views(parts@);
        parts.push(chars_of(names[i].as_str()));
        assert(views(parts@) =~= before.push(names@[i as int]@));
        assert(string_views(names@).take(i + 1) =~= string_views(names@).take(i as int).push(names@[i as int]@));
        i = i + 1;
    }
    let ghost before = views(parts@);
    parts.push(chars_of(answer.as_str()));
    assert(views(parts@) =~= before.push(answer@));
    assert(string_views(names@).take(names.len() as int) =~= string_views(names@));
    string_of(&join_chars(&parts, '.'))
}

/// The shortest solution among the results (`best_after`); `None` when
/// no result has an answer.
pub fn best_centre_rot(results: &Vec<(Vec<String>, Option<String>)>) -> (r: Option<String>)
    ensures
        text_view(r) == best_after(result_views(results@), results.len() as nat).0,
{
    let ghost rv = result_views(results@);
    let mut best: Option<String> = None;
    let mut best_cost: usize = 100000000;
    let mut k: usize = 0;
    while k < results.len()
        invariant
            k <= results.len(),
            rv == result_views(results@),
            text_view(best) == best_after(rv, k as nat).0,
            best_cost == best_after(rv, k as nat).1,
            best_cost <= 100000000,
        decreases results.len() - k,
    {
        assert(rv[k as int] == (string_views(results@[k as int].0@), text_view(results@[k as int].1)));
        match &results[k].1 {
            Some(a) => {
                let n = results[k].0.len();
                let cnt = split_chars(&chars_of(a.as_str()), '.').len();
                if n < 100000000 && cnt < 100000000 && n + cnt < best_cost {
                    best = Some(turns_then(&results[k].0, a));
                    best_cost = n + cnt;
                }
            },
            None => {},
        }
        proof {
            lemma_best_cost_bounded(rv, (k + 1) as nat);
        }
        k = k + 1;
    }
    best
}

} // verus!
