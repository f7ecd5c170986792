//! Turning the answer of an outside cube solver into a solution of the
//! puzzle: its moves, written in the usual notation and separated by
//! spaces, are translated into layer moves; then the first short sequence
//! of whole-cube turns (up to four) that brings the result to the solved
//! state is appended, and the whole solution is checked.
use vstd::prelude::*;
use crate::globe::{ids_of, lemma_ids_unique, Puzzle};
use crate::moves::{layer_move, turn};
use crate::notation::{dotted, move_translation, pair_views, translations};
use crate::perm::{all_known, apply_named, apply_named_move, create_actions, ActionTable, MoveTable};
use crate::pieces::{distinct_pieces, gen_piece_map, state_ids, string_views};
use crate::text::{chars_of, extend_chars, join_chars, join_seq, split_chars, split_seq, string_of, views};
use crate::globe::table_fits;

verus! {

/// The value of the first pair of `table` named `key`.
pub open spec fn lookup(table: Seq<(Seq<char>, Seq<char>)>, key: Seq<char>) -> Option<Seq<char>>
    decreases table.len(),
{
    if table.len() == 0 {
        None
    } else if table[0].0 == key {
        Some(table[0].1)
    } else {
        lookup(table.drop_first(), key)
    }
}

/// The moves `sol` (separated by spaces) each translated by `table`, joined
/// by `.`; `None` when one has no translation.
pub open spec fn translate(sol: Seq<char>, table: Seq<(Seq<char>, Seq<char>)>) -> Option<Seq<char>> {
    let toks = split_seq(sol, ' ');
    if forall|i: int| 0 <= i < toks.len() ==> #[trigger] lookup(table, toks[i]) is Some {
        Some(join_seq(Seq::new(toks.len(), |i: int| lookup(table, toks[i])->0), '.'))
    } else {
        None
    }
}

/// The characters of `a` and `b` are the same.
fn same_chars(a: &Vec<char>, b: &Vec<char>) -> (r: bool)
    ensures
        r == (a@ == b@),
{
    if a.len() != b.len() {
        return false;
    }
    let mut i: usize = 0;
    while i < a.len()
        invariant
            i <= a.len() == b.len(),
            forall|j: int| 0 <= j < i ==> a@[j] == b@[j],
        decreases a.len() - i,
    {
        if a[i] != b[i] {
            return false;
        }
        i = i + 1;
    }
    assert(a@ =~= b@);
    true
}

/// The translation of `key` (`lookup`).
fn lookup_pair(table: &Vec<(String, String)>, key: &Vec<char>) -> (r: Option<Vec<char>>)
    ensures
        match r {
            Some(v) => lookup(pair_views(table@), key@) == Some(v@),
            None => lookup(pair_views(table@), key@) is None,
        },
{
    let ghost pv = pair_views(table@);
    let mut k: usize = 0;
    assert(pv.skip(0) =~= pv);
    while k < table.len()
        invariant
            k <= table.len(),
            pv == pair_views(table@),
            lookup(pv, key@) == lookup(pv.skip(k as int), key@),
        decreases table.len() - k,
    {
        let name = chars_of(table[k].0.as_str());
        assert(pv.skip(k as int)[0] == pv[k as int]);
        assert(pv.skip(k as int).drop_first() =~= pv.skip(k + 1));
        if same_chars(&name, key) {
            return Some(chars_of(table[k].1.as_str()));
        }
        k = k + 1;
    }
    assert(pv.skip(k as int).len() == 0);
    None
}

/// The moves of `sol` translated (`translate`).
pub fn translate_moves(sol: &str, table: &Vec<(String, String)>) -> (r: Option<String>)
    ensures
        match r {
            Some(s) => translate(sol@, pair_views(table@)) == Some(s@),
            None => translate(sol@, pair_views(table@)) is None,
        },
{
    let text = chars_of(sol);
    let toks = split_chars(&text, ' ');
    let ghost tv = views(toks@);
    let ghost pv = pair_views(table@);
    let mut vals: Vec<Vec<char>> = Vec::new();
    let mut i: usize = 0;
    while i < toks.len()
        invariant
            i <= toks.len(),
            tv == views(toks@),
            tv == split_seq(sol@, ' '),
            pv == pair_views(table@),
            vals.len() == i,
            forall|j: int| 0 <= j < i ==> #[trigger] lookup(pv, tv[j]) == Some(views(vals@)[j]),
        decreases toks.len() - i,
    {
        assert(tv[i as int] == toks@[i as int]@);
        match lookup_pair(table, &toks[i]) {
            Some(v) => {
                let ghost before = views(vals@);
                vals.push(v);
                assert(views(vals@) =~= before.push(v@));
                assert forall|j: int| 0 <= j < i + 1 implies #[trigger] lookup(pv, tv[j]) == Some(views(vals@)[j]) by {
                    if j < i {
                        assert(views(vals@)[j] == before[j]);
                    }
                }
            },
            None => {
                return None;
            },
        }
        i = i + 1;
    }
    assert forall|j: int| 0 <= j < tv.len() implies #[trigger] lookup(pv, tv[j]) is Some by {
        assert(lookup(pv, tv[j]) == Some(views(vals@)[j]));
    }
    assert(views(vals@) =~= Seq::new(tv.len(), |j: int| lookup(pv, tv[j])->0));
    Some(string_of(&join_chars(&vals, '.')))
}

/// `state` after the moves of `text` (separated by `.`); `None` when one is
/// not in the table.
pub fn apply_text(t: &ActionTable, state: &Vec<usize>, text: &String) -> (r: Option<Vec<usize>>)
    requires
        t.wf(),
        t.fits(state.len() as nat),
    ensures
        match r {
            Some(s) => all_known(*t, split_seq(text@, '.')) && s@ == apply_named(*t, state@, split_seq(text@, '.'))
                && s.len() == state.len(),
            None => !all_known(*t, split_seq(text@, '.')),
        },
{
    let chars = chars_of(text.as_str());
    let parts = split_chars(&chars, '.');
    let ghost pv = views(parts@);
    let mut s = state.clone();
    let mut names: Vec<String> = Vec::new();
    assert(s@ =~= state@);
    assert(string_views(names@) =~= Seq::<Seq<char>>::empty());
    let mut i: usize = 0;
    while i < parts.len()
        invariant
            i <= parts.len(),
            t.wf(),
            t.fits(s.len() as nat),
            s.len() == state.len(),
            pv == views(parts@),
            pv == split_seq(text@, '.'),
            string_views(names@) == pv.take(i as int),
            s@ == apply_named(*t, state@, string_views(names@)),
            all_known(*t, string_views(names@)),
        decreases parts.len() - i,
    {
        let name = string_of(&parts[i]);
        assert(name@ == pv[i as int]);
        if !apply_named_move(t, &mut s, &mut names, name, Ghost(state@)) {
            proof {
                assert(!t.knows(pv[i as int]));
                assert(!all_known(*t, pv)) by {
                    if all_known(*t, pv) {
                        assert(t.knows(pv[i as int]));
                    }
                }
            }
            return None;
        }
        assert(string_views(names@) =~= pv.take(i + 1));
        i = i + 1;
    }
    assert(pv.take(parts.len() as int) =~= pv);
    Some(s)
}

/// All `dim` layers of side `c` turned one way, joined by `.`.
pub open spec fn layer_run(neg: bool, c: char, dim: nat) -> Seq<char> {
    join_seq(Seq::new(dim, |i: int| layer_move(neg, c, i as nat)), '.')
}

/// The six turns of the whole cube: every `r`, `d`, `f` layer clockwise,
/// then every one of them counter-clockwise.
pub open spec fn base_turns(dim: nat) -> Seq<Seq<char>> {
    seq![
        layer_run(false, 'r', dim),
        layer_run(false, 'd', dim),
        layer_run(false, 'f', dim),
        layer_run(true, 'r', dim),
        layer_run(true, 'd', dim),
        layer_run(true, 'f', dim),
    ]
}

/// Each of `rs` after `b` and a `.`.
pub open spec fn prefix_all(b: Seq<char>, rs: Seq<Seq<char>>) -> Seq<Seq<char>> {
    rs.map_values(|r: Seq<char>| dotted(b, r))
}

/// `prefix_all` for each of `bs` from index `a` on, in order.
pub open spec fn spread(bs: Seq<Seq<char>>, rs: Seq<Seq<char>>, a: int) -> Seq<Seq<char>>
    decreases bs.len() - a,
{
    if a >= bs.len() || a < 0 {
        Seq::<Seq<char>>::empty()
    } else {
        prefix_all(bs[a], rs) + spread(bs, rs, a + 1)
    }
}

/// The sequences of `k` whole-cube turns, the first turn varying slowest.
pub open spec fn turn_level(dim: nat, k: nat) -> Seq<Seq<char>>
    decreases k,
{
    if k <= 1 {
        base_turns(dim)
    } else {
        spread(base_turns(dim), turn_level(dim, (k - 1) as nat), 0)
    }
}

/// The sequences tried after the translated moves: none, then one to four
/// whole-cube turns.
pub open spec fn manipulations(dim: nat) -> Seq<Seq<char>> {
    seq![Seq::<char>::empty()] + turn_level(dim, 1) + turn_level(dim, 2) + turn_level(dim, 3) + turn_level(dim, 4)
}

/// Every layer of side `c` turned one way, joined by `.`.
fn layer_run_text(neg: bool, c: char, dim: usize) -> (r: Vec<char>)
    ensures
        r@ == layer_run(neg, c, dim as nat),
{
    let mut parts: Vec<Vec<char>> = Vec::new();
    let mut i: usize = 0;
    while i < dim
        invariant
            i <= dim,
            views(parts@) == Seq::new(i as nat, |j: int| layer_move(neg, c, j as nat)),
        decreases dim - i,
    {
        let m = crate::moves::turn_chars(neg, c, i);
        let ghost before = views(parts@);
        parts.push(m);
        assert(views(parts@) =~= before.push(m@));
        assert(views(parts@) =~= Seq::new((i + 1) as nat, |j: int| layer_move(neg, c, j as nat)));
        i = i + 1;
    }
    join_chars(&parts, '.')
}

fn base_turn_list(dim: usize) -> (r: Vec<Vec<char>>)
    ensures
        views(r@) == base_turns(dim as nat),
{
    let mut r: Vec<Vec<char>> = Vec::new();
    r.push(layer_run_text(false, 'r', dim));
    r.push(layer_run_text(false, 'd', dim));
    r.push(layer_run_text(false, 'f', dim));
    r.push(layer_run_text(true, 'r', dim));
    r.push(layer_run_text(true, 'd', dim));
    r.push(layer_run_text(true, 'f', dim));
    assert(views(r@) =~= base_turns(dim as nat));
    r
}

/// The characters of `a.b`.
fn dotted_text(a: &Vec<char>, b: &Vec<char>) -> (r: Vec<char>)
    ensures
        r@ == dotted(a@, b@),
{
    let mut r: Vec<char> = Vec::new();
    extend_chars(&mut r, a);
    r.push('.');
    extend_chars(&mut r, b);
    assert(r@ =~= dotted(a@, b@));
    r
}

proof fn lemma_spread_step(bs: Seq<Seq<char>>, rs: Seq<Seq<char>>, a: int)
    requires
        0 <= a < bs.len(),
    ensures
        spread(bs, rs, 0) == spread_upto(bs, rs, a) + prefix_all(bs[a], rs) + spread(bs, rs, a + 1),
    decreases a,
{
    if a > 0 {
        lemma_spread_step(bs, rs, a - 1);
        assert(spread(bs, rs, a) == prefix_all(bs[a], rs) + spread(bs, rs, a + 1));
        assert(spread_upto(bs, rs, a) == spread_upto(bs, rs, a - 1) + prefix_all(bs[a - 1], rs));
        assert(spread_upto(bs, rs, a - 1) + prefix_all(bs[a - 1], rs) + (prefix_all(bs[a], rs) + spread(bs, rs, a + 1))
            =~= spread_upto(bs, rs, a) + prefix_all(bs[a], rs) + spread(bs, rs, a + 1));
    } else {
        assert(spread_upto(bs, rs, 0) =~= Seq::<Seq<char>>::empty());
        assert(spread(bs, rs, 0) =~= spread_upto(bs, rs, 0) + prefix_all(bs[0], rs) + spread(bs, rs, 1));
    }
}

/// `prefix_all` for each of the first `a` of `bs`, in order.
spec fn spread_upto(bs: Seq<Seq<char>>, rs: Seq<Seq<char>>, a: int) -> Seq<Seq<char>>
    decreases a,
{
    if a <= 0 {
        Seq::<Seq<char>>::empty()
    } else {
        spread_upto(bs, rs, a - 1) + prefix_all(bs[a - 1], rs)
    }
}

/// The next level: each of `rs` after each base turn.
fn next_level(bs: &Vec<Vec<char>>, rs: &Vec<Vec<char>>) -> (r: Vec<Vec<char>>)
    ensures
        views(r@) == spread(views(bs@), views(rs@), 0),
{
    let ghost b = views(bs@);
    let ghost rv = views(rs@);
    let mut out: Vec<Vec<char>> = Vec::new();
    let mut a: usize = 0;
    assert(views(out@) =~= spread_upto(b, rv, 0));
    while a < bs.len()
        invariant
            a <= bs.len(),
            b == views(bs@),
            rv == views(rs@),
            views(out@) == spread_upto(b, rv, a as int),
        decreases bs.len() - a,
    {
        let mut k: usize = 0;
        let ghost start = views(out@);
        while k < rs.len()
            invariant
                a < bs.len(),
                k <= rs.len(),
                b == views(bs@),
                rv == views(rs@),
                views(out@) == start + prefix_all(b[a as int], rv).take(k as int),
            decreases rs.len() - k,
        {
            let x = dotted_text(&bs[a], &rs[k]);
            let ghost before = views(out@);
            out.push(x);
            assert(views(out@) =~= before.push(x@));
            assert(x@ == dotted(b[a as int], rv[k as int]));
            assert(prefix_all(b[a as int], rv).take(k + 1) =~= prefix_all(b[a as int], rv).take(k as int).push(dotted(b[a as int], rv[k as int])));
            assert(views(out@) =~= start + prefix_all(b[a as int], rv).take(k + 1));
            k = k + 1;
        }
        assert(prefix_all(b[a as int], rv).take(rs.len() as int) =~= prefix_all(b[a as int], rv));
        assert(spread_upto(b, rv, a + 1) == spread_upto(b, rv, a as int) + prefix_all(b[a as int], rv));
        a = a + 1;
    }
    proof {
        if bs.len() > 0 {
            lemma_spread_step(b, rv, bs.len() - 1);
            assert(spread(b, rv, bs.len() as int) =~= Seq::<Seq<char>>::empty());
            assert(spread_upto(b, rv, bs.len() as int) == spread_upto(b, rv, bs.len() - 1) + prefix_all(b[bs.len() - 1], rv));
            assert(spread(b, rv, 0) =~= spread_upto(b, rv, bs.len() as int));
        } else {
            assert(spread(b, rv, 0) =~= Seq::<Seq<char>>::empty());
        }
    }
    out
}

/// The sequences tried after the translated moves (`manipulations`).
pub fn manipulation_list(dim: usize) -> (r: Vec<Vec<char>>)
    ensures
        views(r@) == manipulations(dim as nat),
{
    let base = base_turn_list(dim);
    let l2 = next_level(&base, &base);
    let l3 = next_level(&base, &l2);
    let l4 = next_level(&base, &l3);
    assert(turn_level(dim as nat, 2) == spread(base_turns(dim as nat), turn_level(dim as nat, 1), 0));
    assert(turn_level(dim as nat, 3) == spread(base_turns(dim as nat), turn_level(dim as nat, 2), 0));
    assert(turn_level(dim as nat, 4) == spread(base_turns(dim as nat), turn_level(dim as nat, 3), 0));
    let mut r: Vec<Vec<char>> = Vec::new();
    r.push(Vec::new());
    let ghost v0 = views(r@);
    assert(v0 =~= seq![Seq::<char>::empty()]);
    let mut b2 = base.clone();
    assert(views(b2@) =~= views(base@)) by {
        assert forall|i: int| 0 <= i < base@.len() implies b2@[i]@ == base@[i]@ by {}
    }
    r.append(&mut b2);
    assert(views(r@) =~= v0 + views(base@));
    let mut c2 = l2;
    let ghost v1 = views(r@);
    let ghost w2 = views(c2@);
    r.append(&mut c2);
    assert(views(r@) =~= v1 + w2);
    let mut c3 = l3;
    let ghost v2 = views(r@);
    let ghost w3 = views(c3@);
    r.append(&mut c3);
    assert(views(r@) =~= v2 + w3);
    let mut c4 = l4;
    let ghost v3 = views(r@);
    let ghost w4 = views(c4@);
    r.append(&mut c4);
    assert(views(r@) =~= v3 + w4);
    assert(views(r@) =~= manipulations(dim as nat));
    r
}

/// The table is the sparse form of `moves`, move for move.
pub open spec fn table_from(t: ActionTable, moves: MoveTable) -> bool {
    &&& t.wf()
    &&& t.names@ == moves.names@
    &&& t.actions.len() == moves.perms.len()
    &&& forall|k: int| 0 <= k < t.actions.len() ==> #[trigger] t.actions[k]@ == crate::perm::action_of(moves.perms[k]@)
}

/// The moves of `text`: those between the `.`s, none when it is empty.
pub open spec fn moves_of(text: Seq<char>) -> Seq<Seq<char>> {
    if text.len() == 0 {
        Seq::<Seq<char>>::empty()
    } else {
        split_seq(text, '.')
    }
}

/// After the translated moves (which bring the initial state to `s1`),
/// manipulation `j` brings the state to `sol`.
pub open spec fn manipulation_works(t: ActionTable, s1: Seq<usize>, sol: Seq<usize>, dim: nat, j: int) -> bool {
    &&& all_known(t, moves_of(manipulations(dim)[j]))
    &&& apply_named(t, s1, moves_of(manipulations(dim)[j])) == sol
}

/// The translated moves with manipulation `j` appended.
pub open spec fn finished(trans: Seq<char>, dim: nat, j: int) -> Seq<char> {
    if j == 0 {
        trans
    } else if trans.len() > 0 {
        dotted(trans, manipulations(dim)[j])
    } else {
        manipulations(dim)[j]
    }
}

fn same_ids(a: &Vec<usize>, b: &Vec<usize>) -> (r: bool)
    ensures
        r == (a@ == b@),
{
    if a.len() != b.len() {
        return false;
    }
    let mut i: usize = 0;
    while i < a.len()
        invariant
            i <= a.len() == b.len(),
            forall|j: int| 0 <= j < i ==> a@[j] == b@[j],
        decreases a.len() - i,
    {
        if a[i] != b[i] {
            return false;
        }
        i = i + 1;
    }
    assert(a@ =~= b@);
    true
}

proof fn lemma_empty_moves(t: ActionTable, s: Seq<usize>)
    ensures
        all_known(t, moves_of(Seq::<char>::empty())),
        apply_named(t, s, moves_of(Seq::<char>::empty())) == s,
{
}

/// Two tables made from the same moves know the same names and play the
/// known ones alike.
proof fn lemma_same_tables(t1: ActionTable, t2: ActionTable, moves: MoveTable, s: Seq<usize>, ms: Seq<Seq<char>>)
    requires
        table_from(t1, moves),
        table_from(t2, moves),
    ensures
        all_known(t1, ms) == all_known(t2, ms),
        all_known(t1, ms) ==> apply_named(t1, s, ms) == apply_named(t2, s, ms),
        t1.fits(s.len()) == t2.fits(s.len()),
    decreases ms.len(),
{
    assert forall|name: Seq<char>| t1.knows(name) == t2.knows(name) by {
        if t1.knows(name) {
            let k = choose|k: int| 0 <= k < t1.names.len() && #[trigger] t1.names[k]@ == name;
            assert(t2.names[k]@ == name);
        }
        if t2.knows(name) {
            let k = choose|k: int| 0 <= k < t2.names.len() && #[trigger] t2.names[k]@ == name;
            assert(t1.names[k]@ == name);
        }
    }
    assert(all_known(t1, ms) == all_known(t2, ms)) by {
        if all_known(t1, ms) {
            assert forall|i: int| 0 <= i < ms.len() implies t2.knows(#[trigger] ms[i]) by {
                assert(t1.knows(ms[i]));
            }
        }
        if all_known(t2, ms) {
            assert forall|i: int| 0 <= i < ms.len() implies t1.knows(#[trigger] ms[i]) by {
                assert(t2.knows(ms[i]));
            }
        }
    }
    assert(t1.fits(s.len()) == t2.fits(s.len())) by {
        if t1.fits(s.len()) {
            assert forall|k: int| 0 <= k < t2.actions.len() implies crate::perm::action_fits(#[trigger] t2.actions[k]@, s.len()) by {
                assert(t1.actions[k]@ == t2.actions[k]@);
            }
        }
        if t2.fits(s.len()) {
            assert forall|k: int| 0 <= k < t1.actions.len() implies crate::perm::action_fits(#[trigger] t1.actions[k]@, s.len()) by {
                assert(t1.actions[k]@ == t2.actions[k]@);
            }
        }
    }
    if ms.len() > 0 && all_known(t1, ms) {
        let d = ms.drop_last();
        assert(all_known(t1, d)) by {
            assert forall|i: int| 0 <= i < d.len() implies t1.knows(#[trigger] d[i]) by {
                assert(d[i] == ms[i]);
            }
        }
        lemma_same_tables(t1, t2, moves, s, d);
        let name = ms.last();
        assert(t1.knows(name));
        let k1 = choose|k: int| 0 <= k < t1.names.len() && #[trigger] t1.names[k]@ == name;
        let f = choose|f: int| 0 <= f <= k1 && t1.names[f]@ == name && forall|j: int| 0 <= j < f ==> #[trigger] t1.names[j]@ != name;
        assert(exists|f: int| 0 <= f <= k1 && t1.names[f]@ == name && forall|j: int| 0 <= j < f ==> #[trigger] t1.names[j]@ != name) by {
            lemma_first_name(t1, name, k1);
        }
        assert(t1.is_first(name, f));
        assert(t2.is_first(name, f));
        let c1 = choose|k: int| t1.is_first(name, k);
        let c2 = choose|k: int| t2.is_first(name, k);
        assert(t1.is_first(name, c1));
        assert(t2.is_first(name, c2));
        assert(c1 == f) by {
            if c1 < f {
                assert(t1.names[c1]@ != name);
            } else if c1 > f {
                assert(t1.names[f]@ != name);
            }
        }
        assert(c2 == f) by {
            if c2 < f {
                assert(t2.names[c2]@ != name);
            } else if c2 > f {
                assert(t2.names[f]@ != name);
            }
        }
        assert(t1.named(name) == t2.named(name));
    }
}

/// Some place up to `k` holds the first name `name`.
proof fn lemma_first_name(t: ActionTable, name: Seq<char>, k: int)
    requires
        0 <= k < t.names.len(),
        t.names[k]@ == name,
    ensures
        exists|f: int| 0 <= f <= k && t.names[f]@ == name && forall|j: int| 0 <= j < f ==> #[trigger] t.names[j]@ != name,
    decreases k,
{
    if exists|j: int| 0 <= j < k && #[trigger] t.names[j]@ == name {
        let j = choose|j: int| 0 <= j < k && #[trigger] t.names[j]@ == name;
        lemma_first_name(t, name, j);
    } else {
        assert(forall|j: int| 0 <= j < k ==> #[trigger] t.names[j]@ != name);
    }
}

/// `m` is the solution made from the solver's moves `solver_moves`: the
/// table `t` is the puzzle's, `init` and `sol` its states as piece ids, and
/// `trans` the translated moves, after which manipulation `j` is the first
/// that reaches the solved state; and `m` solves the puzzle.
pub open spec fn finish_witness(
    puzzle: Puzzle,
    allowed_moves: MoveTable,
    solver_moves: Seq<char>,
    dim: nat,
    m: Seq<char>,
    t: ActionTable,
    init: Seq<usize>,
    sol: Seq<usize>,
    trans: Seq<char>,
    j: int,
) -> bool {
    let keys = distinct_pieces(split_seq(puzzle.solution_state@, ';'));
    let s1 = apply_named(t, init, split_seq(trans, '.'));
    &&& table_from(t, allowed_moves)
    &&& ids_of(puzzle.initial_state@, keys, init)
    &&& ids_of(puzzle.solution_state@, keys, sol)
    &&& translate(solver_moves, translations(dim)) == Some(trans)
    &&& 0 <= j < manipulations(dim).len()
    &&& manipulation_works(t, s1, sol, dim, j)
    &&& forall|i: int| 0 <= i < j ==> !manipulation_works(t, s1, sol, dim, i)
    &&& m == finished(trans, dim, j)
    &&& all_known(t, split_seq(m, '.'))
    &&& apply_named(t, init, split_seq(m, '.')) == sol
}

/// A solution that `finish_cube_solution` reaches: `finish_witness`, with
/// a table that fits the states, translated moves that it knows, and every
/// manipulation before `j` made of moves that it knows.
pub open spec fn finish_found(
    puzzle: Puzzle,
    allowed_moves: MoveTable,
    solver_moves: Seq<char>,
    dim: nat,
    m: Seq<char>,
    t: ActionTable,
    init: Seq<usize>,
    sol: Seq<usize>,
    trans: Seq<char>,
    j: int,
) -> bool {
    &&& finish_witness(puzzle, allowed_moves, solver_moves, dim, m, t, init, sol, trans, j)
    &&& t.fits(init.len())
    &&& all_known(t, split_seq(trans, '.'))
    &&& forall|i: int| 0 <= i < j ==> all_known(t, #[trigger] moves_of(manipulations(dim)[i]))
}

/// Turns an outside solver's answer `solver_moves` (moves in the usual
/// notation separated by spaces) into a solution of the cube puzzle: the
/// translated moves, then the first of the `manipulations` that brings the
/// state they reach to the solved state. Gives that solution when it is
/// checked to solve the puzzle (`finish_found`); `None` when a piece, a
/// translation or a move is unknown, the moves do not fit the states, no
/// manipulation solves it, or the solution does not check.
pub fn finish_cube_solution(puzzle: &Puzzle, allowed_moves: &MoveTable, solver_moves: &str, dim: usize) -> (r: Option<
    String,
>)
    requires
        allowed_moves.wf(),
        dim >= 1,
    ensures
        r matches Some(m) ==> exists|t: ActionTable, init: Seq<usize>, sol: Seq<usize>, trans: Seq<char>, j: int|
            #[trigger] finish_found(*puzzle, *allowed_moves, solver_moves@, dim as nat, m@, t, init, sol, trans, j),
        r is None ==> forall|m: Seq<char>, t: ActionTable, init: Seq<usize>, sol: Seq<usize>, trans: Seq<char>, j: int|
            !#[trigger] finish_found(*puzzle, *allowed_moves, solver_moves@, dim as nat, m, t, init, sol, trans, j),
{
    let (piece_map, _pieces) = gen_piece_map(puzzle.solution_state.as_str());
    let ghost keys = distinct_pieces(split_seq(puzzle.solution_state@, ';'));
    let ghost pz = *puzzle;
    let ghost am = *allowed_moves;
    let ghost sm = solver_moves@;
    let ghost dn = dim as nat;
    let init = match state_ids(puzzle.initial_state.as_str(), &piece_map) {
        Some(v) => v,
        None => {
            proof {
                assert forall|m: Seq<char>, tw: ActionTable, iw: Seq<usize>, sw: Seq<usize>, trw: Seq<char>, jw: int|
                    !#[trigger] finish_found(pz, am, sm, dn, m, tw, iw, sw, trw, jw) by {
                    if finish_found(pz, am, sm, dn, m, tw, iw, sw, trw, jw) {
                        assert forall|k: int| 0 <= k < split_seq(pz.initial_state@, ';').len() implies #[trigger] piece_map.keys().contains(
                            split_seq(pz.initial_state@, ';')[k],
                        ) by {
                            assert(keys[iw[k] as int] == split_seq(pz.initial_state@, ';')[k]);
                        }
                    }
                }
            }
            return None;
        },
    };
    let sol = match state_ids(puzzle.solution_state.as_str(), &piece_map) {
        Some(v) => v,
        None => {
            proof {
                assert forall|m: Seq<char>, tw: ActionTable, iw: Seq<usize>, sw: Seq<usize>, trw: Seq<char>, jw: int|
                    !#[trigger] finish_found(pz, am, sm, dn, m, tw, iw, sw, trw, jw) by {
                    if finish_found(pz, am, sm, dn, m, tw, iw, sw, trw, jw) {
                        assert forall|k: int| 0 <= k < split_seq(pz.solution_state@, ';').len() implies #[trigger] piece_map.keys().contains(
                            split_seq(pz.solution_state@, ';')[k],
                        ) by {
                            assert(keys[sw[k] as int] == split_seq(pz.solution_state@, ';')[k]);
                        }
                    }
                }
            }
            return None;
        },
    };
    proof {
        assert(ids_of(puzzle.initial_state@, keys, init@)) by {
            assert forall|k: int| 0 <= k < init@.len() implies #[trigger] init@[k] < keys.len() && keys[init@[k] as int]
                == split_seq(puzzle.initial_state@, ';')[k] by {
                assert(piece_map.maps(split_seq(puzzle.initial_state@, ';')[k], init@[k] as int));
            }
        }
        assert(ids_of(puzzle.solution_state@, keys, sol@)) by {
            assert forall|k: int| 0 <= k < sol@.len() implies #[trigger] sol@[k] < keys.len() && keys[sol@[k] as int]
                == split_seq(puzzle.solution_state@, ';')[k] by {
                assert(piece_map.maps(split_seq(puzzle.solution_state@, ';')[k], sol@[k] as int));
            }
        }
    }
    let t = create_actions(allowed_moves);
    assert(table_from(t, *allowed_moves));
    // Any solution reached has the ids found here.
    assert forall|m: Seq<char>, tw: ActionTable, iw: Seq<usize>, sw: Seq<usize>, trw: Seq<char>, jw: int|
        #[trigger] finish_found(pz, am, sm, dn, m, tw, iw, sw, trw, jw) implies iw == init@ && sw == sol@ by {
        lemma_ids_unique(pz.initial_state@, keys, iw, init@);
        lemma_ids_unique(pz.solution_state@, keys, sw, sol@);
    }
    if !table_fits(&t, init.len()) {
        proof {
            assert forall|m: Seq<char>, tw: ActionTable, iw: Seq<usize>, sw: Seq<usize>, trw: Seq<char>, jw: int|
                !#[trigger] finish_found(pz, am, sm, dn, m, tw, iw, sw, trw, jw) by {
                if finish_found(pz, am, sm, dn, m, tw, iw, sw, trw, jw) {
                    lemma_same_tables(t, tw, am, init@, Seq::empty());
                }
            }
        }
        return None;
    }
    let trans_table = move_translation(dim);
    let trans = match translate_moves(solver_moves, &trans_table) {
        Some(v) => v,
        None => {
            return None;
        },
    };
    assert forall|m: Seq<char>, tw: ActionTable, iw: Seq<usize>, sw: Seq<usize>, trw: Seq<char>, jw: int|
        #[trigger] finish_found(pz, am, sm, dn, m, tw, iw, sw, trw, jw) implies trw == trans@ by {}
    let s1 = match apply_text(&t, &init, &trans) {
        Some(v) => v,
        None => {
            proof {
                assert forall|m: Seq<char>, tw: ActionTable, iw: Seq<usize>, sw: Seq<usize>, trw: Seq<char>, jw: int|
                    !#[trigger] finish_found(pz, am, sm, dn, m, tw, iw, sw, trw, jw) by {
                    if finish_found(pz, am, sm, dn, m, tw, iw, sw, trw, jw) {
                        lemma_same_tables(t, tw, am, init@, split_seq(trans@, '.'));
                    }
                }
            }
            return None;
        },
    };
    // A solution reached plays the translated moves and each manipulation
    // as the table found here does.
    assert forall|m: Seq<char>, tw: ActionTable, iw: Seq<usize>, sw: Seq<usize>, trw: Seq<char>, jw: int|
        #[trigger] finish_found(pz, am, sm, dn, m, tw, iw, sw, trw, jw) implies apply_named(tw, iw, split_seq(trw, '.'))
        == s1@ && forall|i: int| 0 <= i < manipulations(dn).len() ==> #[trigger] manipulation_works(tw, s1@, sol@, dn, i)
        == manipulation_works(t, s1@, sol@, dn, i) by {
        lemma_same_tables(t, tw, am, init@, split_seq(trans@, '.'));
        assert forall|i: int| 0 <= i < manipulations(dn).len() implies #[trigger] manipulation_works(tw, s1@, sol@, dn, i)
            == manipulation_works(t, s1@, sol@, dn, i) by {
            lemma_same_tables(t, tw, am, s1@, moves_of(manipulations(dn)[i]));
        }
    }
    let manips = manipulation_list(dim);
    let ghost mv = views(manips@);
    let mut found: Option<usize> = None;
    let mut j: usize = 0;
    while j < manips.len() && found.is_none()
        invariant
            j <= manips.len(),
            mv == views(manips@),
            mv == manipulations(dim as nat),
            t.wf(),
            t.fits(s1.len() as nat),
            dn == dim as nat,
            pz == *puzzle,
            am == *allowed_moves,
            sm == solver_moves@,
            table_from(t, am),
            forall|m: Seq<char>, tw: ActionTable, iw: Seq<usize>, sw: Seq<usize>, trw: Seq<char>, jw: int|
                #[trigger] finish_found(pz, am, sm, dn, m, tw, iw, sw, trw, jw) ==> table_from(tw, am) && 0 <= jw < manipulations(dn).len()
                    && manipulation_works(tw, s1@, sol@, dn, jw) && (forall|i: int| 0 <= i < jw ==> all_known(tw, #[trigger] moves_of(manipulations(dn)[i])))
                    && forall|i: int| 0 <= i < manipulations(dn).len() ==> #[trigger] manipulation_works(tw, s1@, sol@, dn, i)
                    == manipulation_works(t, s1@, sol@, dn, i),
            forall|i: int| 0 <= i < j ==> all_known(t, #[trigger] moves_of(mv[i])),
            match found {
                Some(f) => f < j && manipulation_works(t, s1@, sol@, dim as nat, f as int) && forall|i: int|
                    0 <= i < f ==> !manipulation_works(t, s1@, sol@, dim as nat, i),
                None => forall|i: int| 0 <= i < j ==> !manipulation_works(t, s1@, sol@, dim as nat, i),
            },
        decreases manips.len() - j,
    {
        let text = string_of(&manips[j]);
        assert(text@ == mv[j as int]);
        let reached = if manips[j].len() == 0 {
            proof {
                lemma_empty_moves(t, s1@);
                assert(mv[j as int] =~= Seq::<char>::empty());
            }
            s1.clone()
        } else {
            match apply_text(&t, &s1, &text) {
                Some(v) => v,
                None => {
                    proof {
                        assert(!all_known(t, moves_of(mv[j as int])));
                        assert(!manipulation_works(t, s1@, sol@, dn, j as int));
                        assert forall|m: Seq<char>, tw: ActionTable, iw: Seq<usize>, sw: Seq<usize>, trw: Seq<char>, jw: int|
                            !#[trigger] finish_found(pz, am, sm, dn, m, tw, iw, sw, trw, jw) by {
                            if finish_found(pz, am, sm, dn, m, tw, iw, sw, trw, jw) {
                                lemma_same_tables(t, tw, am, s1@, moves_of(mv[j as int]));
                                if jw > j {
                                    assert(all_known(tw, moves_of(manipulations(dn)[j as int])));
                                } else {
                                    assert(manipulation_works(tw, s1@, sol@, dn, jw));
                                    assert(manipulation_works(t, s1@, sol@, dn, jw));
                                }
                            }
                        }
                    }
                    return None;
                },
            }
        };
        assert(all_known(t, moves_of(mv[j as int])) && reached@ == apply_named(t, s1@, moves_of(mv[j as int]))) by {
            if mv[j as int].len() == 0 {
                assert(reached@ =~= s1@);
            }
        }
        if same_ids(&reached, &sol) {
            found = Some(j);
        }
        j = j + 1;
    }
    let f = match found {
        Some(f) => f,
        None => {
            proof {
                assert forall|m: Seq<char>, tw: ActionTable, iw: Seq<usize>, sw: Seq<usize>, trw: Seq<char>, jw: int|
                    !#[trigger] finish_found(pz, am, sm, dn, m, tw, iw, sw, trw, jw) by {
                    if finish_found(pz, am, sm, dn, m, tw, iw, sw, trw, jw) {
                        assert(manipulation_works(tw, s1@, sol@, dn, jw));
                        assert(manipulation_works(t, s1@, sol@, dn, jw));
                    }
                }
            }
            return None;
        },
    };
    // A solution reached ends with manipulation `f`, and so is `m` below.
    assert forall|m: Seq<char>, tw: ActionTable, iw: Seq<usize>, sw: Seq<usize>, trw: Seq<char>, jw: int|
        #[trigger] finish_found(pz, am, sm, dn, m, tw, iw, sw, trw, jw) implies jw == f && m == finished(trans@, dn, f as int) by {
        assert(manipulation_works(tw, s1@, sol@, dn, jw));
        assert(manipulation_works(t, s1@, sol@, dn, jw));
        if jw < f {
            assert(!manipulation_works(t, s1@, sol@, dn, jw));
        } else if jw > f {
            assert(manipulation_works(t, s1@, sol@, dn, f as int));
            assert(manipulation_works(tw, s1@, sol@, dn, f as int));
        }
    }
    let m = if f == 0 {
        trans
    } else {
        let tc = chars_of(trans.as_str());
        if tc.len() > 0 {
            string_of(&dotted_text(&tc, &manips[f]))
        } else {
            string_of(&manips[f])
        }
    };
    assert(m@ == finished(trans@, dim as nat, f as int)) by {
        if f != 0 {
            assert(mv[f as int] == manips@[f as int]@);
        }
    }
    let fin = match apply_text(&t, &init, &m) {
        Some(v) => v,
        None => {
            proof {
                assert forall|mm: Seq<char>, tw: ActionTable, iw: Seq<usize>, sw: Seq<usize>, trw: Seq<char>, jw: int|
                    !#[trigger] finish_found(pz, am, sm, dn, mm, tw, iw, sw, trw, jw) by {
                    if finish_found(pz, am, sm, dn, mm, tw, iw, sw, trw, jw) {
                        lemma_same_tables(t, tw, am, init@, split_seq(m@, '.'));
                    }
                }
            }
            return None;
        },
    };
    if !same_ids(&fin, &sol) {
        proof {
            assert forall|mm: Seq<char>, tw: ActionTable, iw: Seq<usize>, sw: Seq<usize>, trw: Seq<char>, jw: int|
                !#[trigger] finish_found(pz, am, sm, dn, mm, tw, iw, sw, trw, jw) by {
                if finish_found(pz, am, sm, dn, mm, tw, iw, sw, trw, jw) {
                    lemma_same_tables(t, tw, am, init@, split_seq(m@, '.'));
                }
            }
        }
        return None;
    }
    proof {
        assert(table_from(t, *allowed_moves));
        assert(finish_witness(*puzzle, *allowed_moves, solver_moves@, dim as nat, m@, t, init@, sol@, trans@, f as int));
        assert(finish_found(*puzzle, *allowed_moves, solver_moves@, dim as nat, m@, t, init@, sol@, trans@, f as int));
    }
    let ghost mv2 = m@;
    let r = Some(m);
    proof {
        assert(r matches Some(mm) && mm@ == mv2);
        assert(finish_found(*puzzle, *allowed_moves, solver_moves@, dim as nat, mv2, t, init@, sol@, trans@, f as int));
    }
    r
}

} // verus!
