//! Shortening a cube solution by merging neighbouring moves of one face direction.
use vstd::prelude::*;
use crate::moves::layer_move;
use crate::text::{
    chars_of, decimal, decimal_chars, free_of, join_chars, join_seq, lemma_decimal_parses,
    lemma_split_join, parse_usize_from, parses_as_usize, parts_free_of, split_chars, split_seq,
    string_of, usize_value, views, lemma_decimal_digits, all_digits,
};

verus! {

/// `m` without its leading `-` signs.
pub open spec fn strip_neg(m: Seq<char>) -> Seq<char>
    decreases m.len(),
{
    if m.len() > 0 && m[0] == '-' {
        strip_neg(m.skip(1))
    } else {
        m
    }
}

/// Face letter of a move.
pub open spec fn side_of(m: Seq<char>) -> char {
    strip_neg(m)[0]
}

/// Layer index of a move.
pub open spec fn layer_of(m: Seq<char>) -> nat {
    usize_value(strip_neg(m).skip(1))
}

/// Quarter turns of a move: 1 clockwise, 3 for a leading `-`.
pub open spec fn turns_of(m: Seq<char>) -> int {
    if m.len() > 0 && m[0] == '-' {
        3
    } else {
        1
    }
}

/// `m` is a move that the canceller can read: a face letter (an ASCII
/// character) after the signs, then a layer index below 33.
pub open spec fn layered_move(m: Seq<char>) -> bool {
    let b = strip_neg(m);
    &&& b.len() >= 1
    &&& (b[0] as int) < 128
    &&& parses_as_usize(b.skip(1))
    &&& usize_value(b.skip(1)) < 33
}

pub open spec fn all_layered(moves: Seq<Seq<char>>) -> bool {
    forall|i: int| 0 <= i < moves.len() ==> #[trigger] layered_move(moves[i])
}

/// End (exclusive) of the run of moves with face `side` that continues at `j`.
pub open spec fn run_end(moves: Seq<Seq<char>>, side: char, j: int) -> int
    decreases moves.len() - j,
{
    if 0 <= j < moves.len() && side_of(moves[j]) == side {
        run_end(moves, side, j + 1)
    } else {
        j
    }
}

/// Quarter turns (mod 4) per layer index 0..33 over a run of moves.
pub open spec fn quarter_counts(ms: Seq<Seq<char>>) -> Seq<int>
    decreases ms.len(),
{
    if ms.len() == 0 {
        Seq::new(33, |i: int| 0int)
    } else {
        let c = quarter_counts(ms.drop_last());
        let k = layer_of(ms.last()) as int;
        c.update(k, (c[k] + turns_of(ms.last())) % 4)
    }
}

/// Moves needed for `v` quarter turns of one layer.
pub open spec fn turn_cost(v: int) -> int {
    if v == 0 {
        0
    } else if v == 2 {
        2
    } else {
        1
    }
}

/// Moves needed for all the counts.
pub open spec fn counts_cost(c: Seq<int>) -> int
    decreases c.len(),
{
    if c.len() == 0 {
        0
    } else {
        counts_cost(c.drop_last()) + turn_cost(c.last())
    }
}

/// Shortest moves of face `side` that turn layer `i` by `c[i]` quarter turns, by increasing `i`.
pub open spec fn emit_counts(side: char, c: Seq<int>) -> Seq<Seq<char>>
    decreases c.len(),
{
    if c.len() == 0 {
        Seq::<Seq<char>>::empty()
    } else {
        let rest = emit_counts(side, c.drop_last());
        let i = (c.len() - 1) as nat;
        let v = c.last();
        if v == 1 {
            rest.push(layer_move(false, side, i))
        } else if v == 2 {
            rest.push(layer_move(false, side, i)).push(layer_move(false, side, i))
        } else if v == 3 {
            rest.push(layer_move(true, side, i))
        } else {
            rest
        }
    }
}

/// One pass over `moves[idx..]`: the moves kept or merged, the number of moves
/// saved, and whether some run cancelled out completely.
pub open spec fn cancel_pass(moves: Seq<Seq<char>>, idx: int) -> (Seq<Seq<char>>, int, bool)
    decreases moves.len() - idx,
{
    if idx < 0 || idx >= moves.len() {
        (Seq::<Seq<char>>::empty(), 0, false)
    } else {
        let side = side_of(moves[idx]);
        let e = run_end(moves, side, idx + 1);
        if e <= idx || e > moves.len() {
            (Seq::<Seq<char>>::empty(), 0, false)
        } else {
            let c = quarter_counts(moves.subrange(idx, e));
            let sc = counts_cost(c);
            let rest = cancel_pass(moves, e);
            if sc < e - idx {
                (emit_counts(side, c) + rest.0, (e - idx - sc) + rest.1, sc == 0 || rest.2)
            } else {
                (moves.subrange(idx, e) + rest.0, rest.1, sc == 0 || rest.2)
            }
        }
    }
}

/// The solution that `cancel_moves_in_cube` returns for `s`.
pub open spec fn cancel_spec(s: Seq<char>) -> Seq<char>
    decreases split_seq(s, '.').len(),
{
    let moves = split_seq(s, '.');
    let p = cancel_pass(moves, 0);
    if p.1 > 0 {
        let res = join_seq(p.0, '.');
        if p.2 && p.0.len() > 0 && p.0.len() < moves.len() && split_seq(res, '.').len()
            < moves.len() {
            cancel_spec(res)
        } else {
            res
        }
    } else {
        s
    }
}

/// Every solution that `cancel_moves_in_cube` reads, itself and after each
/// merging pass that it repeats, consists of readable moves.
pub open spec fn cancel_ok(s: Seq<char>) -> bool
    decreases split_seq(s, '.').len(),
{
    let moves = split_seq(s, '.');
    let p = cancel_pass(moves, 0);
    &&& all_layered(moves)
    &&& (p.1 > 0 && p.2) ==> {
        let res = join_seq(p.0, '.');
        &&& p.0.len() > 0
        &&& (p.0.len() < moves.len() && split_seq(res, '.').len() < moves.len()) ==> cancel_ok(res)
    }
}

} // verus!

verus! {

proof fn lemma_strip_neg(m: Seq<char>)
    ensures
        strip_neg(m).len() <= m.len(),
        strip_neg(m) == m.skip(m.len() - strip_neg(m).len()),
        strip_neg(m).len() > 0 ==> strip_neg(m)[0] != '-',
    decreases m.len(),
{
    if m.len() > 0 && m[0] == '-' {
        lemma_strip_neg(m.skip(1));
        assert(m.skip(1).skip(m.skip(1).len() - strip_neg(m.skip(1)).len()) =~= m.skip(
            m.len() - strip_neg(m).len(),
        ));
    } else {
        assert(m.skip(0) =~= m);
    }
}

proof fn lemma_side_free(m: Seq<char>, sep: char)
    requires
        free_of(m, sep),
        strip_neg(m).len() > 0,
    ensures
        side_of(m) != sep,
        side_of(m) != '-',
{
    lemma_strip_neg(m);
    let k = m.len() - strip_neg(m).len();
    assert(strip_neg(m)[0] == m[k]);
}

pub proof fn lemma_split_free(s: Seq<char>, sep: char)
    ensures
        parts_free_of(split_seq(s, sep), sep),
    decreases s.len(),
{
    if s.len() > 0 {
        lemma_split_free(s.drop_last(), sep);
        crate::text::lemma_split_nonempty(s.drop_last(), sep);
        let r = split_seq(s.drop_last(), sep);
        if s.last() != sep {
            let u = r.update(r.len() - 1, r.last().push(s.last()));
            assert forall|k: int| 0 <= k < u.len() implies free_of(#[trigger] u[k], sep) by {
                if k == r.len() - 1 {
                    assert(free_of(r[k], sep));
                } else {
                    assert(u[k] == r[k]);
                }
            }
        } else {
            let u = r.push(Seq::<char>::empty());
            assert forall|k: int| 0 <= k < u.len() implies free_of(#[trigger] u[k], sep) by {
                if k < r.len() {
                    assert(u[k] == r[k]);
                }
            }
        }
    }
}

proof fn lemma_run_end(moves: Seq<Seq<char>>, side: char, j: int)
    requires
        0 <= j <= moves.len(),
    ensures
        j <= run_end(moves, side, j) <= moves.len(),
        forall|k: int| j <= k < run_end(moves, side, j) ==> side_of(#[trigger] moves[k]) == side,
        run_end(moves, side, j) < moves.len() ==> side_of(moves[run_end(moves, side, j)])
            != side,
    decreases moves.len() - j,
{
    if j < moves.len() && side_of(moves[j]) == side {
        lemma_run_end(moves, side, j + 1);
    }
}

proof fn lemma_quarter_counts(ms: Seq<Seq<char>>)
    requires
        all_layered(ms),
    ensures
        quarter_counts(ms).len() == 33,
        forall|i: int| 0 <= i < 33 ==> 0 <= #[trigger] quarter_counts(ms)[i] < 4,
    decreases ms.len(),
{
    if ms.len() > 0 {
        assert(all_layered(ms.drop_last())) by {
            assert forall|i: int| 0 <= i < ms.drop_last().len() implies #[trigger] layered_move(
                ms.drop_last()[i],
            ) by {
                assert(ms.drop_last()[i] == ms[i]);
            }
        }
        lemma_quarter_counts(ms.drop_last());
        assert(layered_move(ms[ms.len() - 1]));
    }
}

proof fn lemma_counts_cost(side: char, c: Seq<int>)
    requires
        forall|i: int| 0 <= i < c.len() ==> 0 <= #[trigger] c[i] < 4,
        c.len() <= 33,
        (side as int) < 128,
        side != '.',
        side != '-',
    ensures
        emit_counts(side, c).len() == counts_cost(c),
        counts_cost(c) >= 0,
        parts_free_of(emit_counts(side, c), '.'),
        all_layered(emit_counts(side, c)),
    decreases c.len(),
{
    if c.len() > 0 {
        let c0 = c.drop_last();
        assert forall|i: int| 0 <= i < c0.len() implies 0 <= #[trigger] c0[i] < 4 by {
            assert(c0[i] == c[i]);
        }
        lemma_counts_cost(side, c0);
        let rest = emit_counts(side, c0);
        let i = (c.len() - 1) as nat;
        lemma_decimal_parses(i);
        lemma_decimal_digits(i);
        let d = decimal(i);
        let p = layer_move(false, side, i);
        let n = layer_move(true, side, i);
        assert(strip_neg(p) == p);
        assert(p.skip(1) =~= d);
        assert(n.skip(1) =~= p);
        assert(strip_neg(n) == strip_neg(n.skip(1)));
        assert(layered_move(p));
        assert(layered_move(n));
        assert(free_of(p, '.')) by {
            assert forall|k: int| 0 <= k < p.len() implies p[k] != '.' by {
                if k > 0 {
                    assert(p[k] == d[k - 1]);
                    assert(crate::text::is_digit(d[k - 1]));
                }
            }
        }
        assert(free_of(n, '.')) by {
            assert forall|k: int| 0 <= k < n.len() implies n[k] != '.' by {
                if k > 0 {
                    assert(n[k] == p[k - 1]);
                }
            }
        }
        let e = emit_counts(side, c);
        assert(parts_free_of(e, '.') && all_layered(e)) by {
            assert forall|k: int| 0 <= k < e.len() implies free_of(#[trigger] e[k], '.')
                && layered_move(e[k]) by {
                if k < rest.len() {
                    assert(e[k] == rest[k]);
                }
            }
        }
    }
}

} // verus!

verus! {

proof fn lemma_layered_sub(moves: Seq<Seq<char>>, a: int, b: int)
    requires
        all_layered(moves),
        parts_free_of(moves, '.'),
        0 <= a <= b <= moves.len(),
    ensures
        all_layered(moves.subrange(a, b)),
        parts_free_of(moves.subrange(a, b), '.'),
{
    let s = moves.subrange(a, b);
    assert forall|i: int| 0 <= i < s.len() implies #[trigger] layered_move(s[i]) && free_of(
        s[i],
        '.',
    ) by {
        assert(s[i] == moves[a + i]);
    }
}

proof fn lemma_concat_ok(x: Seq<Seq<char>>, y: Seq<Seq<char>>)
    requires
        all_layered(x),
        parts_free_of(x, '.'),
        all_layered(y),
        parts_free_of(y, '.'),
    ensures
        all_layered(x + y),
        parts_free_of(x + y, '.'),
{
    let z = x + y;
    assert forall|i: int| 0 <= i < z.len() implies #[trigger] layered_move(z[i]) && free_of(
        z[i],
        '.',
    ) by {
        if i < x.len() {
            assert(z[i] == x[i]);
        } else {
            assert(z[i] == y[i - x.len()]);
        }
    }
}

/// Facts about one merging pass over readable moves.
pub proof fn lemma_cancel_pass(moves: Seq<Seq<char>>, idx: int)
    requires
        all_layered(moves),
        parts_free_of(moves, '.'),
        0 <= idx <= moves.len(),
    ensures
        cancel_pass(moves, idx).0.len() + cancel_pass(moves, idx).1 == moves.len() - idx,
        cancel_pass(moves, idx).1 >= 0,
        parts_free_of(cancel_pass(moves, idx).0, '.'),
        all_layered(cancel_pass(moves, idx).0),
    decreases moves.len() - idx,
{
    if idx < moves.len() {
        let m = moves[idx];
        assert(layered_move(m));
        assert(free_of(m, '.'));
        lemma_side_free(m, '.');
        let side = side_of(m);
        lemma_run_end(moves, side, idx + 1);
        let e = run_end(moves, side, idx + 1);
        lemma_layered_sub(moves, idx, e);
        let c = quarter_counts(moves.subrange(idx, e));
        lemma_quarter_counts(moves.subrange(idx, e));
        lemma_counts_cost(side, c);
        lemma_cancel_pass(moves, e);
        let rest = cancel_pass(moves, e);
        if counts_cost(c) < e - idx {
            lemma_concat_ok(emit_counts(side, c), rest.0);
        } else {
            lemma_concat_ok(moves.subrange(idx, e), rest.0);
        }
    }
}

/// After a pass that saved moves without emptying the solution, the joined
/// result splits into fewer moves than before.
pub proof fn lemma_cancel_shrinks(s: Seq<char>)
    requires
        all_layered(split_seq(s, '.')),
        cancel_pass(split_seq(s, '.'), 0).1 > 0,
        cancel_pass(split_seq(s, '.'), 0).0.len() > 0,
    ensures
        ({
            let moves = split_seq(s, '.');
            let p = cancel_pass(moves, 0);
            &&& p.0.len() < moves.len()
            &&& split_seq(join_seq(p.0, '.'), '.') == p.0
            &&& split_seq(join_seq(p.0, '.'), '.').len() < moves.len()
            &&& all_layered(split_seq(join_seq(p.0, '.'), '.'))
        }),
{
    let moves = split_seq(s, '.');
    lemma_split_free(s, '.');
    lemma_cancel_pass(moves, 0);
    let p = cancel_pass(moves, 0);
    lemma_split_join(p.0, '.');
}


proof fn lemma_layer_move_read(neg: bool, side: char, i: nat)
    requires
        side != '-',
        i <= usize::MAX,
    ensures
        side_of(layer_move(neg, side, i)) == side,
        layer_of(layer_move(neg, side, i)) == i,
        turns_of(layer_move(neg, side, i)) == if neg { 3int } else { 1int },
{
    lemma_decimal_parses(i);
    let p = layer_move(false, side, i);
    let n = layer_move(true, side, i);
    assert(strip_neg(p) == p);
    assert(p.skip(1) =~= decimal(i));
    assert(n.skip(1) =~= p);
    assert(strip_neg(n) == strip_neg(n.skip(1)));
}

proof fn lemma_emit_side(side: char, c: Seq<int>)
    requires
        side != '-',
        c.len() <= 33,
    ensures
        forall|k: int| 0 <= k < emit_counts(side, c).len() ==> side_of(#[trigger] emit_counts(side, c)[k]) == side,
    decreases c.len(),
{
    if c.len() > 0 {
        lemma_emit_side(side, c.drop_last());
        let rest = emit_counts(side, c.drop_last());
        let i = (c.len() - 1) as nat;
        lemma_layer_move_read(false, side, i);
        lemma_layer_move_read(true, side, i);
        let e = emit_counts(side, c);
        assert forall|k: int| 0 <= k < e.len() implies side_of(#[trigger] e[k]) == side by {
            if k < rest.len() {
                assert(e[k] == rest[k]);
            }
        }
    }
}

/// The quarter turns of the emitted moves are the counts they came from.
proof fn lemma_emit_counts_back(side: char, c: Seq<int>)
    requires
        side != '-',
        c.len() <= 33,
        forall|i: int| 0 <= i < c.len() ==> 0 <= #[trigger] c[i] < 4,
    ensures
        quarter_counts(emit_counts(side, c)) == c + Seq::new((33 - c.len()) as nat, |i: int| 0int),
    decreases c.len(),
{
    if c.len() == 0 {
        assert(quarter_counts(emit_counts(side, c)) =~= c + Seq::new(33, |i: int| 0int));
    } else {
        let c0 = c.drop_last();
        assert forall|i: int| 0 <= i < c0.len() implies 0 <= #[trigger] c0[i] < 4 by {
            assert(c0[i] == c[i]);
        }
        lemma_emit_counts_back(side, c0);
        let rest = emit_counts(side, c0);
        let q0 = quarter_counts(rest);
        let n = c.len() - 1;
        let i = n as nat;
        lemma_layer_move_read(false, side, i);
        lemma_layer_move_read(true, side, i);
        let p = layer_move(false, side, i);
        let v = c.last();
        let target = c + Seq::new((33 - c.len()) as nat, |j: int| 0int);
        assert(q0[n] == 0);
        if v == 1 {
            assert(rest.push(p).drop_last() =~= rest);
            assert(quarter_counts(rest.push(p)) =~= target);
        } else if v == 2 {
            assert(rest.push(p).drop_last() =~= rest);
            assert(rest.push(p).push(p).drop_last() =~= rest.push(p));
            assert(quarter_counts(rest.push(p).push(p)) =~= target);
        } else if v == 3 {
            let m = layer_move(true, side, i);
            assert(rest.push(m).drop_last() =~= rest);
            assert(quarter_counts(rest.push(m)) =~= target);
        } else {
            assert(q0 =~= target);
        }
    }
}

proof fn lemma_run_end_shift(a: Seq<Seq<char>>, b: Seq<Seq<char>>, side: char, j: int)
    requires
        0 <= j <= b.len(),
    ensures
        run_end(a + b, side, a.len() + j) == a.len() + run_end(b, side, j),
    decreases b.len() - j,
{
    if j < b.len() {
        assert((a + b)[a.len() + j] == b[j]);
        if side_of(b[j]) == side {
            lemma_run_end_shift(a, b, side, j + 1);
        }
    }
}

/// A pass that starts behind a prefix `a` sees only what follows it.
proof fn lemma_pass_shift(a: Seq<Seq<char>>, b: Seq<Seq<char>>, j: int)
    requires
        0 <= j <= b.len(),
    ensures
        cancel_pass(a + b, a.len() + j) == cancel_pass(b, j),
    decreases b.len() - j,
{
    if j < b.len() {
        let ab = a + b;
        let k = a.len() + j;
        assert(ab[k] == b[j]);
        let side = side_of(b[j]);
        lemma_run_end_shift(a, b, side, j + 1);
        lemma_run_end(b, side, j + 1);
        let e = run_end(b, side, j + 1);
        assert(ab.subrange(k, a.len() + e) =~= b.subrange(j, e));
        lemma_pass_shift(a, b, e);
    }
}

/// A pass in which no run cancels out leaves a non-empty list whose first
/// move has the face of the first move read.
proof fn lemma_pass_head(moves: Seq<Seq<char>>, idx: int)
    requires
        all_layered(moves),
        parts_free_of(moves, '.'),
        0 <= idx < moves.len(),
        !cancel_pass(moves, idx).2,
    ensures
        cancel_pass(moves, idx).0.len() > 0,
        side_of(cancel_pass(moves, idx).0[0]) == side_of(moves[idx]),
{
    let m = moves[idx];
    assert(layered_move(m));
    assert(free_of(m, '.'));
    lemma_side_free(m, '.');
    let side = side_of(m);
    lemma_run_end(moves, side, idx + 1);
    let e = run_end(moves, side, idx + 1);
    lemma_layered_sub(moves, idx, e);
    let c = quarter_counts(moves.subrange(idx, e));
    lemma_quarter_counts(moves.subrange(idx, e));
    lemma_counts_cost(side, c);
    let rest = cancel_pass(moves, e);
    if counts_cost(c) < e - idx {
        lemma_emit_side(side, c);
        assert((emit_counts(side, c) + rest.0)[0] == emit_counts(side, c)[0]);
    } else {
        assert((moves.subrange(idx, e) + rest.0)[0] == moves[idx]);
    }
}

/// A pass over the result of a pass in which no run cancelled out saves
/// nothing.
proof fn lemma_pass_settled(moves: Seq<Seq<char>>, idx: int)
    requires
        all_layered(moves),
        parts_free_of(moves, '.'),
        0 <= idx <= moves.len(),
        !cancel_pass(moves, idx).2,
    ensures
        cancel_pass(cancel_pass(moves, idx).0, 0).1 == 0,
    decreases moves.len() - idx,
{
    if idx < moves.len() {
        let m = moves[idx];
        assert(layered_move(m));
        assert(free_of(m, '.'));
        lemma_side_free(m, '.');
        let side = side_of(m);
        lemma_run_end(moves, side, idx + 1);
        let e = run_end(moves, side, idx + 1);
        lemma_layered_sub(moves, idx, e);
        let c = quarter_counts(moves.subrange(idx, e));
        lemma_quarter_counts(moves.subrange(idx, e));
        lemma_counts_cost(side, c);
        let rest = cancel_pass(moves, e);
        lemma_pass_settled(moves, e);
        let f = if counts_cost(c) < e - idx {
            emit_counts(side, c)
        } else {
            moves.subrange(idx, e)
        };
        let out = f + rest.0;
        assert(cancel_pass(moves, idx).0 == out);
        assert(f.len() > 0);
        assert forall|k: int| 0 <= k < f.len() implies side_of(#[trigger] f[k]) == side by {
            if counts_cost(c) < e - idx {
                lemma_emit_side(side, c);
            } else {
                assert(f[k] == moves[idx + k]);
            }
        }
        if e < moves.len() {
            lemma_pass_head(moves, e);
            assert(side_of(moves[e]) != side);
        }
        assert(out[0] == f[0]);
        assert forall|k: int| 0 <= k < f.len() implies #[trigger] out[k] == f[k] by {}
        if rest.0.len() > 0 {
            assert(out[f.len() as int] == rest.0[0]);
        }
        assert(run_end(out, side, 1) == f.len()) by {
            lemma_run_end_shift(f, rest.0, side, 0);
            assert(run_end(rest.0, side, 0) == 0);
            assert forall|j: int| 1 <= j <= f.len() implies run_end(out, side, j) == f.len() by {
                lemma_run_end_tail(out, side, j, f.len() as int);
            }
        }
        assert(out.subrange(0, f.len() as int) =~= f);
        let c2 = quarter_counts(f);
        if counts_cost(c) < e - idx {
            lemma_emit_counts_back(side, c);
            assert(c + Seq::new((33 - c.len()) as nat, |i: int| 0int) =~= c);
            assert(c2 == c);
        }
        assert(counts_cost(c2) >= f.len());
        lemma_pass_shift(f, rest.0, 0);
        assert(f + rest.0 == out);
    }
}

proof fn lemma_run_end_tail(moves: Seq<Seq<char>>, side: char, j: int, e: int)
    requires
        1 <= j <= e <= moves.len(),
        forall|k: int| 0 <= k < e ==> side_of(#[trigger] moves[k]) == side,
        e < moves.len() ==> side_of(moves[e]) != side,
    ensures
        run_end(moves, side, j) == e,
    decreases e - j,
{
    if j < e {
        assert(side_of(moves[j]) == side);
        lemma_run_end_tail(moves, side, j + 1, e);
    }
}

/// Shortening is settled: shortening a shortened solution changes nothing.
pub proof fn lemma_cancel_fixpoint(s: Seq<char>)
    requires
        cancel_ok(s),
    ensures
        cancel_spec(cancel_spec(s)) == cancel_spec(s),
    decreases split_seq(s, '.').len(),
{
    let moves = split_seq(s, '.');
    let p = cancel_pass(moves, 0);
    lemma_split_free(s, '.');
    lemma_cancel_pass(moves, 0);
    crate::text::lemma_split_nonempty(s, '.');
    if p.1 > 0 {
        let res = join_seq(p.0, '.');
        if p.2 {
            lemma_cancel_shrinks(s);
            lemma_cancel_fixpoint(res);
        } else {
            lemma_pass_head(moves, 0);
            lemma_cancel_shrinks(s);
            lemma_pass_settled(moves, 0);
            assert(split_seq(res, '.') == p.0);
            assert(cancel_spec(s) == res);
            assert(cancel_pass(split_seq(res, '.'), 0).1 == 0);
        }
    }
}

} // verus!

verus! {

fn read_layer_move(m: &Vec<char>) -> (r: (char, usize, usize))
    requires
        layered_move(m@),
    ensures
        r.0 == side_of(m@),
        r.1 == layer_of(m@),
        r.2 == turns_of(m@),
        r.1 < 33,
{
    let mut k: usize = 0;
    assert(m@.skip(0) =~= m@);
    while k < m.len() && m[k] == '-'
        invariant
            k <= m.len(),
            strip_neg(m@) == strip_neg(m@.skip(k as int)),
        decreases m.len() - k,
    {
        assert(m@.skip(k as int).skip(1) =~= m@.skip(k + 1));
        k = k + 1;
    }
    assert(strip_neg(m@.skip(k as int)) == m@.skip(k as int));
    let side = m[k];
    assert(strip_neg(m@).skip(1) =~= m@.skip(k + 1));
    let layer = parse_usize_from(m, k + 1);
    let turns: usize = if m.len() > 0 && m[0] == '-' { 3 } else { 1 };
    (side, layer, turns)
}

fn copy_chars(v: &Vec<char>) -> (r: Vec<char>)
    ensures
        r@ == v@,
{
    let mut r: Vec<char> = Vec::new();
    crate::text::extend_chars(&mut r, v);
    assert(r@ =~= v@);
    r
}

/// Shortens a cube solution (moves joined by `.`): each maximal run of
/// neighbouring moves of one face letter is replaced by the fewest moves with
/// the same quarter turns per layer when that saves moves, and the whole is
/// repeated when some run cancelled out completely.
pub fn cancel_moves_in_cube(solution: &String) -> (r: String)
    requires
        cancel_ok(solution@),
    ensures
        r@ == cancel_spec(solution@),
        cancel_spec(r@) == r@,
    decreases split_seq(solution@, '.').len(),
{
    proof {
        lemma_cancel_fixpoint(solution@);
    }
    let text = chars_of(solution.as_str());
    let moves = split_chars(&text, '.');
    let ghost mv = views(moves@);
    assert(mv == split_seq(solution@, '.'));
    proof {
        lemma_split_free(solution@, '.');
        lemma_cancel_pass(mv, 0);
    }
    let n = moves.len();
    let mut arr: Vec<Vec<char>> = Vec::new();
    let mut idx: usize = 0;
    let mut reduce: usize = 0;
    let mut has_clear = false;
    while idx < n
        invariant
            n == moves.len(),
            mv == views(moves@),
            all_layered(mv),
            parts_free_of(mv, '.'),
            idx <= n,
            reduce <= idx,
            cancel_pass(mv, 0) == (
                views(arr@) + cancel_pass(mv, idx as int).0,
                reduce + cancel_pass(mv, idx as int).1,
                has_clear || cancel_pass(mv, idx as int).2,
            ),
        decreases n - idx,
    {
        assert(mv[idx as int] == moves@[idx as int]@);
        let (side, index, sign) = read_layer_move(&moves[idx]);
        proof {
            assert(layered_move(mv[idx as int]));
            assert(free_of(mv[idx as int], '.'));
            lemma_side_free(mv[idx as int], '.');
            lemma_run_end(mv, side, idx + 1);
        }
        let ghost e = run_end(mv, side, idx + 1);
        let mut cnt: Vec<usize> = vec![0usize; 33];
        assert(cnt@.map_values(|x: usize| x as int) =~= quarter_counts(Seq::<Seq<char>>::empty()));
        let v = (cnt[index] + sign) % 4;
        cnt.set(index, v);
        proof {
            let one = mv.subrange(idx as int, idx + 1);
            assert(one.drop_last() =~= Seq::<Seq<char>>::empty());
            assert(one.last() == mv[idx as int]);
            assert(cnt@.map_values(|x: usize| x as int) =~= quarter_counts(one));
        }
        let mut next_idx = idx + 1;
        while next_idx < n
            invariant
                n == moves.len(),
                mv == views(moves@),
                all_layered(mv),
                idx < next_idx <= n,
                side == side_of(mv[idx as int]),
                run_end(mv, side, idx + 1) == run_end(mv, side, next_idx as int),
                cnt@.len() == 33,
                cnt@.map_values(|x: usize| x as int) == quarter_counts(
                    mv.subrange(idx as int, next_idx as int),
                ),
                forall|i: int| 0 <= i < 33 ==> #[trigger] cnt@[i] < 4,
            ensures
                next_idx == run_end(mv, side, idx + 1),
                cnt@.map_values(|x: usize| x as int) == quarter_counts(
                    mv.subrange(idx as int, next_idx as int),
                ),
                cnt@.len() == 33,
                forall|i: int| 0 <= i < 33 ==> #[trigger] cnt@[i] < 4,
            decreases n - next_idx,
        {
            assert(mv[next_idx as int] == moves@[next_idx as int]@);
            assert(layered_move(mv[next_idx as int]));
            let (next_side, next_index, next_sign) = read_layer_move(&moves[next_idx]);
            if next_side != side {
                break;
            }
            let ghost before = cnt@;
            let w = (cnt[next_index] + next_sign) % 4;
            cnt.set(next_index, w);
            proof {
                let sub = mv.subrange(idx as int, next_idx + 1);
                assert(sub.drop_last() =~= mv.subrange(idx as int, next_idx as int));
                assert(sub.last() == mv[next_idx as int]);
                assert(cnt@.map_values(|x: usize| x as int) =~= quarter_counts(sub));
            }
            next_idx = next_idx + 1;
        }
        let ghost c = quarter_counts(mv.subrange(idx as int, next_idx as int));
        assert(c =~= cnt@.map_values(|x: usize| x as int));
        let mut sum_cost: usize = 0;
        let mut i: usize = 0;
        while i < 33
            invariant
                i <= 33,
                cnt@.len() == 33,
                c == cnt@.map_values(|x: usize| x as int),
                sum_cost == counts_cost(c.take(i as int)),
                sum_cost <= 2 * i,
            decreases 33 - i,
        {
            let x = cnt[i];
            let add: usize = if x == 0 { 0 } else if x == 2 { 2 } else { 1 };
            assert(c.take(i + 1).drop_last() =~= c.take(i as int));
            assert(c.take(i + 1).last() == cnt@[i as int] as int);
            sum_cost = sum_cost + add;
            i = i + 1;
        }
        assert(c.take(33) =~= c);
        if sum_cost == 0 {
            has_clear = true;
        }
        let ghost arr0 = views(arr@);
        if sum_cost < next_idx - idx {
            let mut j: usize = 0;
            while j < 33
                invariant
                    j <= 33,
                    cnt@.len() == 33,
                    c == cnt@.map_values(|x: usize| x as int),
                    views(arr@) == arr0 + emit_counts(side, c.take(j as int)),
                decreases 33 - j,
            {
                let x = cnt[j];
                let ghost before = views(arr@);
                assert(c.take(j + 1).drop_last() =~= c.take(j as int));
                assert(c.take(j + 1).last() == x as int);
                let ghost e0 = emit_counts(side, c.take(j as int));
                if x == 1 {
                    let lm = crate::moves::turn_chars(false, side, j);
                    arr.push(lm);
                    assert(views(arr@) =~= before.push(layer_move(false, side, j as nat)));
                    assert(arr0 + e0.push(layer_move(false, side, j as nat)) =~= before.push(
                        layer_move(false, side, j as nat),
                    ));
                } else if x == 2 {
                    let lm = crate::moves::turn_chars(false, side, j);
                    arr.push(lm);
                    let lm2 = crate::moves::turn_chars(false, side, j);
                    arr.push(lm2);
                    let ghost t = layer_move(false, side, j as nat);
                    assert(views(arr@) =~= before.push(t).push(t));
                    assert(arr0 + e0.push(t).push(t) =~= before.push(t).push(t));
                } else if x == 3 {
                    let lm = crate::moves::turn_chars(true, side, j);
                    arr.push(lm);
                    assert(views(arr@) =~= before.push(layer_move(true, side, j as nat)));
                    assert(arr0 + e0.push(layer_move(true, side, j as nat)) =~= before.push(
                        layer_move(true, side, j as nat),
                    ));
                }
                assert(views(arr@) =~= arr0 + emit_counts(side, c.take(j + 1)));
                j = j + 1;
            }
            reduce = reduce + (next_idx - idx - sum_cost);
        } else {
            let mut k = idx;
            while k < next_idx
                invariant
                    idx <= k <= next_idx <= n,
                    n == moves.len(),
                    mv == views(moves@),
                    views(arr@) == arr0 + mv.subrange(idx as int, k as int),
                decreases next_idx - k,
            {
                let ghost before = views(arr@);
                let cp = copy_chars(&moves[k]);
                arr.push(cp);
                assert(views(arr@) =~= before.push(mv[k as int]));
                assert(views(arr@) =~= arr0 + mv.subrange(idx as int, k + 1));
                k = k + 1;
            }
        }
        proof {
            let rest = cancel_pass(mv, next_idx as int);
            let here = cancel_pass(mv, idx as int);
            assert(c.take(33) =~= c);
            if sum_cost < next_idx - idx {
                assert(here.0 =~= emit_counts(side, c) + rest.0);
            } else {
                assert(here.0 =~= mv.subrange(idx as int, next_idx as int) + rest.0);
            }
            assert(views(arr@) + rest.0 =~= arr0 + here.0);
            lemma_cancel_pass(mv, idx as int);
            lemma_cancel_pass(mv, next_idx as int);
        }
        idx = next_idx;
    }
    assert(views(arr@) =~= cancel_pass(mv, 0).0);
    if reduce > 0 {
        let joined = join_chars(&arr, '.');
        let res = string_of(&joined);
        if has_clear {
            proof {
                lemma_cancel_shrinks(solution@);
            }
            cancel_moves_in_cube(&res)
        } else {
            res
        }
    } else {
        solution.clone()
    }
}

} // verus!
