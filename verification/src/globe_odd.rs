//! The globe solver on an odd number of rows: the middle row is turned to
//! its solved place, then left out, and the puzzle of the other rows is
//! solved as an even one, its moves renamed back.
use vstd::prelude::*;
use crate::globe::Puzzle;
use crate::globe_solve::{dot_join, solve_globe_impl_even};
use crate::moves::{layer_move, turn};
use crate::perm::MoveTable;
use crate::globe_greedy::{first_turn, lemma_first_turn_found, row_is_turned, turn_row};
use crate::pieces::{gen_piece_map, list_to_state, names_of, state_ids, string_views};
use crate::text::{chars_of, join_chars, join_seq, split_chars, split_seq, string_of, views};

verus! {

/// Renamings that a map from names to names holds: `f{w}` for each column,
/// then `r{h}` and `-r{h}` for the rows below `mid`, each kept, then for the
/// rows above `mid` `r{h}` and `-r{h}` renamed to row `h - 1`; `down` gives
/// this map, otherwise the map back.
pub open spec fn rename_pairs(width: int, height: int, mid: int, down: bool) -> Seq<(Seq<char>, Seq<char>)> {
    let fs = Seq::new(width as nat, |i: int| (layer_move(false, 'f', i as nat), layer_move(false, 'f', i as nat)));
    let low = Seq::new(
        (2 * mid) as nat,
        |j: int| (layer_move(j % 2 == 1, 'r', (j / 2) as nat), layer_move(j % 2 == 1, 'r', (j / 2) as nat)),
    );
    let high = Seq::new(
        (2 * (height - 1 - mid)) as nat,
        |j: int|
            if down {
                (layer_move(j % 2 == 1, 'r', (mid + 1 + j / 2) as nat), layer_move(j % 2 == 1, 'r', (mid + j / 2) as nat))
            } else {
                (layer_move(j % 2 == 1, 'r', (mid + j / 2) as nat), layer_move(j % 2 == 1, 'r', (mid + 1 + j / 2) as nat))
            },
    );
    fs + low + high
}

/// The value of the last pair whose key is `key`, as a map built by
/// inserting the pairs in order holds it.
pub open spec fn last_value(pairs: Seq<(Seq<char>, Seq<char>)>, key: Seq<char>) -> Option<Seq<char>>
    decreases pairs.len(),
{
    if pairs.len() == 0 {
        None
    } else if pairs.last().0 == key {
        Some(pairs.last().1)
    } else {
        last_value(pairs.drop_last(), key)
    }
}

proof fn lemma_last_value_at(pairs: Seq<(Seq<char>, Seq<char>)>, key: Seq<char>, k: int)
    requires
        0 <= k < pairs.len(),
        pairs[k].0 == key,
        forall|k2: int| k < k2 < pairs.len() ==> (#[trigger] pairs[k2]).0 != key,
    ensures
        last_value(pairs, key) == Some(pairs[k].1),
    decreases pairs.len(),
{
    if k < pairs.len() - 1 {
        assert(pairs.last() == pairs[pairs.len() - 1]);
        let d = pairs.drop_last();
        assert forall|k2: int| k < k2 < d.len() implies (#[trigger] d[k2]).0 != key by {
            assert(d[k2] == pairs[k2]);
        }
        lemma_last_value_at(d, key, k);
        assert(d[k] == pairs[k]);
    }
}

proof fn lemma_last_value_none(pairs: Seq<(Seq<char>, Seq<char>)>, key: Seq<char>)
    requires
        forall|k: int| 0 <= k < pairs.len() ==> (#[trigger] pairs[k]).0 != key,
    ensures
        last_value(pairs, key) is None,
    decreases pairs.len(),
{
    if pairs.len() > 0 {
        assert(pairs.last() == pairs[pairs.len() - 1]);
        let d = pairs.drop_last();
        assert forall|k: int| 0 <= k < d.len() implies (#[trigger] d[k]).0 != key by {
            assert(d[k] == pairs[k]);
        }
        lemma_last_value_none(d, key);
    }
}

/// Two layer moves are the same text only when they are the same move.
proof fn lemma_layer_move_same(n1: bool, c1: char, a: nat, n2: bool, c2: char, b: nat)
    requires
        c1 != '-' && c2 != '-',
        layer_move(n1, c1, a) == layer_move(n2, c2, b),
    ensures
        n1 == n2 && c1 == c2 && a == b,
{
    crate::text::lemma_decimal_digits(a);
    crate::text::lemma_decimal_digits(b);
    let x = layer_move(n1, c1, a);
    let y = layer_move(n2, c2, b);
    assert(x[0] == y[0]);
    if n1 {
        assert(x[0] == '-');
    }
    if n2 {
        assert(y[0] == '-');
    }
    assert(n1 == n2);
    let o: int = if n1 { 1 } else { 0 };
    assert(x[o] == c1 && y[o] == c2);
    assert(x.subrange(o + 1, x.len() as int) =~= crate::text::decimal(a));
    assert(y.subrange(o + 1, y.len() as int) =~= crate::text::decimal(b));
}

/// How the renamings treat the row moves, where the middle row `mid` is
/// taken out: down, a row below `mid` keeps its number, a row above takes
/// the number one less, and the middle row has no name; back up, a row
/// below `mid` keeps its number and a row from `mid` on (but the last)
/// takes the number one more. Both turn directions alike.
pub proof fn lemma_rename_rows(width: int, height: int, mid: int, neg: bool, h: int)
    requires
        0 <= width,
        0 <= mid < height,
        0 <= h < height,
    ensures
        h < mid ==> last_value(rename_pairs(width, height, mid, true), layer_move(neg, 'r', h as nat)) == Some(layer_move(neg, 'r', h as nat)),
        h > mid ==> last_value(rename_pairs(width, height, mid, true), layer_move(neg, 'r', h as nat)) == Some(layer_move(neg, 'r', (h - 1) as nat)),
        h == mid ==> last_value(rename_pairs(width, height, mid, true), layer_move(neg, 'r', h as nat)) is None,
        h < mid ==> last_value(rename_pairs(width, height, mid, false), layer_move(neg, 'r', h as nat)) == Some(layer_move(neg, 'r', h as nat)),
        mid <= h < height - 1 ==> last_value(rename_pairs(width, height, mid, false), layer_move(neg, 'r', h as nat)) == Some(layer_move(neg, 'r', (h + 1) as nat)),
{
    let key = layer_move(neg, 'r', h as nat);
    let b: int = if neg { 1 } else { 0 };
    let nf = width;
    let nl = 2 * mid;
    let nh = 2 * (height - 1 - mid);
    let down = rename_pairs(width, height, mid, true);
    let up = rename_pairs(width, height, mid, false);
    assert(down.len() == nf + nl + nh);
    assert(up.len() == nf + nl + nh);
    // which entries carry the key
    assert forall|k: int| 0 <= k < nf + nl + nh && (#[trigger] down[k]).0 == key implies (k == nf + 2 * h + b && h < mid) || (k
        == nf + nl + 2 * (h - mid - 1) + b && h > mid) by {
        if k < nf {
            assert(down[k].0 == layer_move(false, 'f', k as nat));
            lemma_layer_move_same(false, 'f', k as nat, neg, 'r', h as nat);
        } else if k < nf + nl {
            let j = k - nf;
            assert(down[k].0 == layer_move(j % 2 == 1, 'r', (j / 2) as nat));
            lemma_layer_move_same(j % 2 == 1, 'r', (j / 2) as nat, neg, 'r', h as nat);
        } else {
            let j = k - nf - nl;
            assert(down[k].0 == layer_move(j % 2 == 1, 'r', (mid + 1 + j / 2) as nat));
            lemma_layer_move_same(j % 2 == 1, 'r', (mid + 1 + j / 2) as nat, neg, 'r', h as nat);
        }
    }
    assert forall|k: int| 0 <= k < nf + nl + nh && (#[trigger] up[k]).0 == key implies (k == nf + 2 * h + b && h < mid) || (k
        == nf + nl + 2 * (h - mid) + b && h >= mid) by {
        if k < nf {
            assert(up[k].0 == layer_move(false, 'f', k as nat));
            lemma_layer_move_same(false, 'f', k as nat, neg, 'r', h as nat);
        } else if k < nf + nl {
            let j = k - nf;
            assert(up[k].0 == layer_move(j % 2 == 1, 'r', (j / 2) as nat));
            lemma_layer_move_same(j % 2 == 1, 'r', (j / 2) as nat, neg, 'r', h as nat);
        } else {
            let j = k - nf - nl;
            assert(up[k].0 == layer_move(j % 2 == 1, 'r', (mid + j / 2) as nat));
            lemma_layer_move_same(j % 2 == 1, 'r', (mid + j / 2) as nat, neg, 'r', h as nat);
        }
    }
    if h < mid {
        let k = nf + 2 * h + b;
        assert(down[k] == (key, key));
        assert(up[k] == (key, key));
        lemma_last_value_at(down, key, k);
        lemma_last_value_at(up, key, k);
    } else if h > mid {
        let k = nf + nl + 2 * (h - mid - 1) + b;
        assert(down[k] == (key, layer_move(neg, 'r', (h - 1) as nat)));
        lemma_last_value_at(down, key, k);
    } else {
        lemma_last_value_none(down, key);
    }
    if mid <= h < height - 1 {
        let k = nf + nl + 2 * (h - mid) + b;
        assert(up[k] == (key, layer_move(neg, 'r', (h + 1) as nat)));
        lemma_last_value_at(up, key, k);
    }
}

/// The views of pairs of strings.
pub open spec fn pair_views(v: Seq<(String, String)>) -> Seq<(Seq<char>, Seq<char>)> {
    v.map_values(|p: (String, String)| (p.0@, p.1@))
}

fn push_pair(v: &mut Vec<(String, String)>, a: String, b: String)
    ensures
        pair_views(final(v)@) == pair_views(old(v)@).push((a@, b@)),
{
    let ghost av = a@;
    let ghost bv = b@;
    v.push((a, b));
    assert(pair_views(final(v)@) =~= pair_views(old(v)@).push((av, bv)));
}

fn rename_table(width: usize, height: usize, mid: usize, down: bool) -> (r: Vec<(String, String)>)
    requires
        mid < height,
        height <= 1000,
    ensures
        pair_views(r@) == rename_pairs(width as int, height as int, mid as int, down),
{
    let ghost all = rename_pairs(width as int, height as int, mid as int, down);
    let ghost nf = width as int;
    let ghost nl = 2 * mid as int;
    let mut v: Vec<(String, String)> = Vec::new();
    let mut w: usize = 0;
    while w < width
        invariant
            w <= width,
            mid < height <= 1000,
            all == rename_pairs(width as int, height as int, mid as int, down),
            pair_views(v@) == all.take(w as int),
        decreases width - w,
    {
        push_pair(&mut v, turn(false, 'f', w), turn(false, 'f', w));
        assert(pair_views(v@) =~= all.take(w + 1));
        w = w + 1;
    }
    let mut h: usize = 0;
    while h < mid
        invariant
            h <= mid < height <= 1000,
            all == rename_pairs(width as int, height as int, mid as int, down),
            pair_views(v@) == all.take(nf + 2 * h),
            nf == width,
        decreases mid - h,
    {
        push_pair(&mut v, turn(false, 'r', h), turn(false, 'r', h));
        assert(pair_views(v@) =~= all.take(nf + 2 * h + 1));
        push_pair(&mut v, turn(true, 'r', h), turn(true, 'r', h));
        assert(pair_views(v@) =~= all.take(nf + 2 * h + 2));
        h = h + 1;
    }
    let mut h: usize = mid + 1;
    while h < height
        invariant
            mid + 1 <= h <= height <= 1000,
            all == rename_pairs(width as int, height as int, mid as int, down),
            pair_views(v@) == all.take(nf + nl + 2 * (h - mid - 1)),
            nf == width,
            nl == 2 * mid,
        decreases height - h,
    {
        if down {
            push_pair(&mut v, turn(false, 'r', h), turn(false, 'r', h - 1));
            assert(pair_views(v@) =~= all.take(nf + nl + 2 * (h - mid - 1) + 1));
            push_pair(&mut v, turn(true, 'r', h), turn(true, 'r', h - 1));
        } else {
            push_pair(&mut v, turn(false, 'r', h - 1), turn(false, 'r', h));
            assert(pair_views(v@) =~= all.take(nf + nl + 2 * (h - mid - 1) + 1));
            push_pair(&mut v, turn(true, 'r', h - 1), turn(true, 'r', h));
        }
        assert(pair_views(v@) =~= all.take(nf + nl + 2 * (h - mid - 1) + 2));
        h = h + 1;
    }
    assert(pair_views(v@) =~= all);
    v
}

fn lookup_last(pairs: &Vec<(String, String)>, key: &String) -> (r: Option<String>)
    ensures
        match r {
            Some(v) => last_value(pair_views(pairs@), key@) == Some(v@),
            None => last_value(pair_views(pairs@), key@) is None,
        },
{
    let mut k = pairs.len();
    assert(pair_views(pairs@).take(k as int) =~= pair_views(pairs@));
    while k > 0
        invariant
            k <= pairs.len(),
            last_value(pair_views(pairs@), key@) == last_value(pair_views(pairs@).take(k as int), key@),
        decreases k,
    {
        let ghost t = pair_views(pairs@).take(k as int);
        assert(t.drop_last() =~= pair_views(pairs@).take(k - 1));
        assert(t.last() == (pairs@[k - 1].0@, pairs@[k - 1].1@));
        if pairs[k - 1].0 == *key {
            return Some(pairs[k - 1].1.clone());
        }
        k = k - 1;
    }
    None
}

/// The entries of `v` outside row `mid` (rows of `width`), in order.
pub open spec fn drop_row<T>(v: Seq<T>, width: int, mid: int) -> Seq<T> {
    v.take(mid * width) + v.skip((mid + 1) * width)
}

/// A permutation of the whole globe as one of the globe without row `mid`:
/// the entries outside that row, each beyond `mid * width` moved down a row.
pub open spec fn even_perm(v: Seq<i16>, width: int, mid: int) -> Seq<i16> {
    drop_row(v, width, mid).map_values(|nv: i16| if nv < 0 || nv > mid * width { (nv - width) as i16 } else { nv })
}

/// The moves of the globe without row `mid`: for each move of `t` that the
/// renaming down knows, its new name and permutation, in the order of `t`.
pub open spec fn even_moves(t: MoveTable, width: int, height: int, mid: int, k: int) -> Seq<(Seq<char>, Seq<i16>)>
    decreases k,
{
    if k <= 0 {
        Seq::empty()
    } else {
        let p = even_moves(t, width, height, mid, k - 1);
        match last_value(rename_pairs(width, height, mid, true), t.names[k - 1]@) {
            Some(name) => p.push((name, even_perm(t.perms[k - 1]@, width, mid))),
            None => p,
        }
    }
}

/// The entries of a table, as names and permutations.
pub open spec fn move_entries(t: MoveTable) -> Seq<(Seq<char>, Seq<i16>)> {
    Seq::new(t.names@.len(), |i: int| (t.names[i]@, t.perms[i]@))
}

fn row_dropped(v: &Vec<usize>, width: usize, mid: usize) -> (r: Vec<usize>)
    requires
        mid * width + width <= v.len(),
    ensures
        r@ == drop_row(v@, width as int, mid as int),
{
    let mut r: Vec<usize> = Vec::new();
    let lo = mid * width;
    let mut i: usize = 0;
    while i < lo
        invariant
            i <= lo == mid * width,
            lo + width <= v.len(),
            r@ == v@.take(i as int),
        decreases lo - i,
    {
        r.push(v[i]);
        assert(r@ =~= v@.take(i + 1));
        i = i + 1;
    }
    let hi = lo + width;
    let mut j = hi;
    while j < v.len()
        invariant
            hi <= j <= v.len(),
            hi == lo + width,
            lo == mid * width,
            r@ == v@.take(lo as int) + v@.subrange(hi as int, j as int),
        decreases v.len() - j,
    {
        r.push(v[j]);
        assert(r@ =~= v@.take(lo as int) + v@.subrange(hi as int, j + 1));
        j = j + 1;
    }
    assert(v@.subrange(hi as int, v.len() as int) =~= v@.skip(hi as int));
    assert((mid + 1) * width == hi) by (nonlinear_arith)
        requires
            hi == mid * width + width,
    ;
    r
}

/// Moving `nv` down a row (when it lies beyond `mid * width` or is
/// negative) keeps it in `i16`.
pub open spec fn shift_fits(nv: i16, width: int, mid: int) -> bool {
    (nv < 0 || nv > mid * width) ==> nv - width >= -32768
}

/// Every entry of `v` outside row `mid` can be moved down a row.
pub open spec fn rows_shift_fit(v: Seq<i16>, width: int, mid: int) -> bool {
    forall|j: int| 0 <= j < v.len() && (j < mid * width || j >= mid * width + width) ==> shift_fits(#[trigger] v[j], width, mid)
}

/// The permutation `v` of the whole globe as one of the globe without row
/// `mid` (`even_perm`); `None` when `v` has no row `mid` or an entry moved
/// down a row leaves `i16`.
fn perm_even(v: &Vec<i16>, width: usize, mid: usize) -> (r: Option<Vec<i16>>)
    requires
        width <= 1000,
        mid <= 1000,
    ensures
        r is Some <==> mid * width + width <= v.len() && rows_shift_fit(v@, width as int, mid as int),
        r matches Some(u) ==> mid * width + width <= v.len() && u@ == even_perm(v@, width as int, mid as int),
{
    assert(mid * width <= 1000000) by (nonlinear_arith)
        requires
            width <= 1000,
            mid <= 1000,
    ;
    if mid * width + width > v.len() {
        return None;
    }
    let ghost d = drop_row(v@, width as int, mid as int);
    let mut r: Vec<i16> = Vec::new();
    let lo = mid * width;
    let mut i: usize = 0;
    while i < v.len()
        invariant
            i <= v.len(),
            lo == mid * width,
            lo + width <= v.len(),
            width <= 1000,
            forall|j: int| 0 <= j < i && (j < lo || j >= lo + width) ==> shift_fits(#[trigger] v@[j], width as int, mid as int),
            r@ == (if i <= lo { v@.take(i as int) } else if i <= lo + width { v@.take(lo as int) } else { v@.take(lo as int) + v@.subrange(lo + width, i as int) }).map_values(
                |nv: i16| if nv < 0 || nv > mid * width { (nv - width) as i16 } else { nv },
            ),
        decreases v.len() - i,
    {
        if i < lo || i >= lo + width {
            let nv = v[i];
            let x: i16 = if nv < 0 || nv as usize > lo {
                if (nv as i32) - (width as i32) < -32768 {
                    assert(!shift_fits(v@[i as int], width as int, mid as int));
                    return None;
                }
                nv - width as i16
            } else {
                nv
            };
            r.push(x);
        }
        i = i + 1;
    }
    assert((mid + 1) * width == lo + width) by (nonlinear_arith)
        requires
            lo == mid * width,
    ;
    assert(v@.take(lo as int) + v@.subrange(lo + width, v.len() as int) =~= d);
    Some(r)
}

/// The even puzzle and moves that the odd solver hands on: the same type
/// and wildcards, both states without row `mid`, and the moves renamed down.
pub open spec fn odd_reduction(puzzle: Puzzle, allowed: MoveTable, width: int, height: int, pe: Puzzle, ae: MoveTable) -> bool {
    let mid = height / 2;
    &&& pe.puzzle_type@ == puzzle.puzzle_type@
    &&& pe.num_wildcards == puzzle.num_wildcards
    &&& pe.initial_state@ == join_seq(drop_row(split_seq(puzzle.initial_state@, ';'), width, mid), ';')
    &&& pe.solution_state@ == join_seq(drop_row(split_seq(puzzle.solution_state@, ';'), width, mid), ';')
    &&& ae.wf()
    &&& move_entries(ae) == even_moves(allowed, width, height, mid, allowed.names.len() as int)
}

/// Turns of the middle row `mid`: each `r{mid}` or `-r{mid}`.
pub open spec fn rot_ok(rot: Seq<Seq<char>>, mid: int) -> bool {
    forall|k: int| 0 <= k < rot.len() ==> #[trigger] rot[k] == layer_move(false, 'r', mid as nat) || rot[k] == layer_move(true, 'r', mid as nat)
}

/// `back` are the moves of `g` renamed back.
pub open spec fn back_ok(g: Seq<char>, back: Seq<Seq<char>>, width: int, height: int, mid: int) -> bool {
    &&& back.len() == split_seq(g, '.').len()
    &&& forall|k: int| 0 <= k < back.len() ==> last_value(rename_pairs(width, height, mid, false), #[trigger] split_seq(g, '.')[k]) == Some(back[k])
}

/// The turns, a `.` when there are any, then the renamed moves.
pub open spec fn odd_text(rot: Seq<Seq<char>>, back: Seq<Seq<char>>) -> Seq<char> {
    if rot.len() == 0 {
        join_seq(back, '.')
    } else {
        crate::globe_solve::dot_join(join_seq(rot, '.'), join_seq(back, '.'))
    }
}

/// The turns of row `mid` that the odd solver starts with: `w` turns
/// `r{mid}` when the row is `sol`'s turned by `w <= width / 2`, else
/// `width - w` turns `-r{mid}`; none when no turn fits.
pub open spec fn mid_turns<T>(state: Seq<T>, sol: Seq<T>, width: int, mid: int) -> Seq<Seq<char>> {
    match first_turn(state, sol, width, mid, 0) {
        Some(w) => if w <= width / 2 {
            Seq::new(w as nat, |i: int| layer_move(false, 'r', mid as nat))
        } else {
            Seq::new((width - w) as nat, |i: int| layer_move(true, 'r', mid as nat))
        },
        None => Seq::empty(),
    }
}

/// The cells by which the moves turn row `h`: one for each `r<h>`, minus
/// one for each `-r<h>`.
pub open spec fn net_turns(moves: Seq<Seq<char>>, h: int) -> int
    decreases moves.len(),
{
    if moves.len() == 0 {
        0
    } else {
        net_turns(moves.drop_last(), h) + if moves.last() == layer_move(false, 'r', h as nat) {
            1int
        } else if moves.last() == layer_move(true, 'r', h as nat) {
            -1int
        } else {
            0int
        }
    }
}

proof fn lemma_net_same(m: Seq<char>, n: nat, h: int, v: int)
    requires
        v == (if m == layer_move(false, 'r', h as nat) {
            1int
        } else if m == layer_move(true, 'r', h as nat) {
            -1int
        } else {
            0int
        }),
    ensures
        net_turns(Seq::new(n, |i: int| m), h) == n * v,
    decreases n,
{
    if n > 0 {
        lemma_net_same(m, (n - 1) as nat, h, v);
        assert(Seq::new(n, |i: int| m).drop_last() =~= Seq::new((n - 1) as nat, |i: int| m));
        assert(Seq::new(n, |i: int| m).last() == m);
        assert(net_turns(Seq::new(n, |i: int| m), h) == net_turns(Seq::new((n - 1) as nat, |i: int| m), h) + v);
        assert(n * v == (n - 1) * v + v) by (nonlinear_arith);
    } else {
        assert(n * v == 0) by (nonlinear_arith)
            requires
                n == 0,
        ;
    }
}

/// The middle-row turns put the middle row in place: when row `mid` of
/// `state` is row `mid` of `sol` turned by some number of cells, turning
/// the row by the net count of the turns `mid_turns` (one cell for each
/// `r{mid}`, back one for each `-r{mid}`) makes it `sol`'s row `mid`.
pub proof fn lemma_mid_turns_place<T>(state: Seq<T>, sol: Seq<T>, width: int, mid: int, v: int)
    requires
        width >= 1,
        0 <= mid,
        mid * width + width <= state.len(),
        0 <= v < width,
        row_is_turned(state, sol, width, mid, v),
    ensures
        forall|i: int|
            0 <= i < width ==> #[trigger] turn_row(state, width, mid, net_turns(mid_turns(state, sol, width, mid), mid))[mid * width + i]
                == sol[mid * width + i],
{
    lemma_first_turn_found(state, sol, width, mid, 0, v);
    let w = first_turn(state, sol, width, mid, 0)->0;
    let rp = layer_move(false, 'r', mid as nat);
    let rm = layer_move(true, 'r', mid as nat);
    assert(rp[0] == 'r' && rm[0] == '-');
    assert(rp != rm);
    assert(0 <= mid * width) by (nonlinear_arith)
        requires
            0 <= mid,
            width >= 1,
    ;
    if w <= width / 2 {
        lemma_net_same(rp, w as nat, mid, 1);
        assert forall|i: int| 0 <= i < width implies #[trigger] turn_row(state, width, mid, w)[mid * width + i] == sol[mid * width + i] by {
            assert(sol[mid * width + i] == state[mid * width + (i + w) % width]);
        }
    } else {
        lemma_net_same(rm, (width - w) as nat, mid, -1);
        assert((width - w) * -1 == w - width) by (nonlinear_arith);
        assert forall|i: int| 0 <= i < width implies #[trigger] turn_row(state, width, mid, w - width)[mid * width + i] == sol[mid * width + i] by {
            assert(sol[mid * width + i] == state[mid * width + (i + w) % width]);
            vstd::arithmetic::div_mod::lemma_mod_sub_multiples_vanish(i + w, width);
            assert(-width + (i + w) == i + (w - width));
        }
    }
}

proof fn lemma_turned_names(
    init: Seq<usize>,
    sol: Seq<usize>,
    pl: Seq<Seq<char>>,
    ip: Seq<Seq<char>>,
    sp: Seq<Seq<char>>,
    width: int,
    mid: int,
    w: int,
)
    requires
        pl.no_duplicates(),
        init.len() == ip.len(),
        sol.len() == sp.len(),
        forall|k: int| 0 <= k < init.len() ==> #[trigger] init[k] < pl.len() && pl[init[k] as int] == ip[k],
        forall|k: int| 0 <= k < sol.len() ==> #[trigger] sol[k] < pl.len() && pl[sol[k] as int] == sp[k],
        width >= 1,
        0 <= mid,
        mid * width + width <= init.len(),
        mid * width + width <= sol.len(),
    ensures
        row_is_turned(init, sol, width, mid, w) <==> row_is_turned(ip, sp, width, mid, w),
{
    assert(0 <= mid * width) by (nonlinear_arith)
        requires
            0 <= mid,
            width >= 1,
    ;
    assert forall|i: int| #![trigger sol[mid * width + i]] 0 <= i < width implies (sol[mid * width + i] == init[mid * width + (i + w) % width]) <==> (
    sp[mid * width + i] == ip[mid * width + (i + w) % width]) by {
        let a = mid * width + i;
        let b = mid * width + (i + w) % width;
        assert(0 <= (i + w) % width < width);
        assert(sol[a] < pl.len() && pl[sol[a] as int] == sp[a]);
        assert(init[b] < pl.len() && pl[init[b] as int] == ip[b]);
        if sp[a] == ip[b] && sol[a] != init[b] {
            assert(pl[sol[a] as int] == pl[init[b] as int]);
        }
    }
    if row_is_turned(init, sol, width, mid, w) {
        assert forall|i: int| 0 <= i < width implies #[trigger] sp[mid * width + i] == ip[mid * width + (i + w) % width] by {
            assert(sol[mid * width + i] == init[mid * width + (i + w) % width]);
        }
    }
    if row_is_turned(ip, sp, width, mid, w) {
        assert forall|i: int| 0 <= i < width implies #[trigger] sol[mid * width + i] == init[mid * width + (i + w) % width] by {
            assert(sp[mid * width + i] == ip[mid * width + (i + w) % width]);
        }
    }
}

/// What the solver on an odd number of rows gives: the turns of the middle
/// row that put it in place (`mid_turns`, each `r{mid}` or `-r{mid}`), a
/// `.` when there are any, then the moves of the even solution renamed
/// back.
pub open spec fn odd_result(puzzle: Puzzle, allowed: MoveTable, width: int, height: int, s: Seq<char>) -> bool {
    let mid = height / 2;
    exists|pe: Puzzle, ae: MoveTable, g: Seq<char>, rot: Seq<Seq<char>>, back: Seq<Seq<char>>|
        #![trigger odd_reduction(puzzle, allowed, width, height, pe, ae), crate::globe_solve::even_result(pe, ae, width, height - 1, g), rot_ok(rot, mid), back_ok(g, back, width, height, mid)]
        odd_reduction(puzzle, allowed, width, height, pe, ae) && crate::globe_solve::even_result(pe, ae, width, height - 1, g)
            && rot_ok(rot, mid) && back_ok(g, back, width, height, mid) && s == odd_text(rot, back) && rot == mid_turns(
            split_seq(puzzle.initial_state@, ';'),
            split_seq(puzzle.solution_state@, ';'),
            width,
            mid,
        )
}

/// Whether row `mid` of `init` is row `mid` of `sol` turned by `w` cells.
fn row_turned_ids(init: &Vec<usize>, sol: &Vec<usize>, width: usize, mid: usize, w: usize) -> (ok: bool)
    requires
        width <= 1000,
        mid * width + width <= init.len(),
        mid * width + width <= sol.len(),
        w < width,
    ensures
        ok == row_is_turned(init@, sol@, width as int, mid as int, w as int),
{
    let mut i: usize = 0;
    while i < width
        invariant
            i <= width <= 1000,
            w < width,
            mid * width + width <= init.len(),
            mid * width + width <= sol.len(),
            forall|k: int| 0 <= k < i ==> #[trigger] sol@[mid * width + k] == init@[mid * width + (k + w) % (width as int)],
        decreases width - i,
    {
        if sol[mid * width + i] != init[mid * width + (i + w) % width] {
            return false;
        }
        i = i + 1;
    }
    true
}

/// The globe solver on an odd number of rows: turns the middle row to its
/// solved place (the shorter way, when some turn gives it), solves the
/// other rows as an even globe, and renames its moves back. `None` when a
/// piece or a move is missing, the sizes do not fit, or the even solver
/// fails.
pub fn solve_globe_impl_odd(
    puzzle: &Puzzle,
    allowed_move: &MoveTable,
    current_best: &String,
    width: usize,
    height: usize,
    id: usize,
) -> (r: Option<String>)
    requires
        allowed_move.wf(),
    ensures
        r matches Some(s) ==> odd_result(*puzzle, *allowed_move, width as int, height as int, s@),
{
    if width > 1000 || height > 1000 || height == 0 {
        return None;
    }
    let (piece_map, piece_list) = gen_piece_map(puzzle.solution_state.as_str());
    let init = match state_ids(puzzle.initial_state.as_str(), &piece_map) {
        Some(v) => v,
        None => {
            return None;
        },
    };
    let sol = match state_ids(puzzle.solution_state.as_str(), &piece_map) {
        Some(v) => v,
        None => {
            return None;
        },
    };
    let mid = height / 2;
    assert(width * height <= 1000000) by (nonlinear_arith)
        requires
            width <= 1000,
            height <= 1000,
    ;
    if init.len() != width * height || sol.len() != width * height {
        return None;
    }
    assert(mid * width + width <= width * height) by (nonlinear_arith)
        requires
            mid < height,
    ;
    let ghost ip = split_seq(puzzle.initial_state@, ';');
    let ghost sp = split_seq(puzzle.solution_state@, ';');
    let ghost pl = string_views(piece_list@);
    assert forall|k: int| 0 <= k < init@.len() implies #[trigger] init@[k] < piece_list.len() && piece_list@[init@[k] as int]@ == ip[k] by {
        assert(piece_map.maps(ip[k], init@[k] as int));
        assert(pl[init@[k] as int] == piece_list@[init@[k] as int]@);
    }
    assert forall|k: int| 0 <= k < sol@.len() implies #[trigger] sol@[k] < piece_list.len() && piece_list@[sol@[k] as int]@ == sp[k] by {
        assert(piece_map.maps(sp[k], sol@[k] as int));
        assert(pl[sol@[k] as int] == piece_list@[sol@[k] as int]@);
    }
    assert(pl.no_duplicates());
    assert forall|k: int| 0 <= k < init@.len() implies #[trigger] init@[k] < pl.len() && pl[init@[k] as int] == ip[k] by {
        assert(piece_list@[init@[k] as int]@ == ip[k]);
    }
    assert forall|k: int| 0 <= k < sol@.len() implies #[trigger] sol@[k] < pl.len() && pl[sol@[k] as int] == sp[k] by {
        assert(piece_list@[sol@[k] as int]@ == sp[k]);
    }
    let mut rot: Vec<String> = Vec::new();
    let mut w: usize = 0;
    let mut done = false;
    while w < width && !done
        invariant
            w <= width <= 1000,
            mid == height / 2,
            mid * width + width <= init.len(),
            mid * width + width <= sol.len(),
            init.len() == ip.len(),
            sol.len() == sp.len(),
            pl.no_duplicates(),
            forall|k: int| 0 <= k < init@.len() ==> #[trigger] init@[k] < pl.len() && pl[init@[k] as int] == ip[k],
            forall|k: int| 0 <= k < sol@.len() ==> #[trigger] sol@[k] < pl.len() && pl[sol@[k] as int] == sp[k],
            forall|k: int| 0 <= k < rot.len() ==> #[trigger] rot@[k]@ == layer_move(false, 'r', mid as nat) || rot@[k]@ == layer_move(true, 'r', mid as nat),
            !done ==> rot@.len() == 0 && first_turn(ip, sp, width as int, mid as int, 0) == first_turn(ip, sp, width as int, mid as int, w as int),
            done ==> string_views(rot@) == mid_turns(ip, sp, width as int, mid as int),
        decreases width - w + (if done { 0int } else { 1int }),
    {
        let found = row_turned_ids(&init, &sol, width, mid, w);
        proof {
            lemma_turned_names(init@, sol@, pl, ip, sp, width as int, mid as int, w as int);
        }
        if found {
            let (neg, times) = if w <= width / 2 {
                (false, w)
            } else {
                (true, width - w)
            };
            assert(first_turn(ip, sp, width as int, mid as int, 0) == Some(w as int));
            let mut t: usize = 0;
            while t < times
                invariant
                    t <= times,
                    rot.len() == t,
                    string_views(rot@) == Seq::new(t as nat, |i: int| layer_move(neg, 'r', mid as nat)),
                    forall|k: int| 0 <= k < rot.len() ==> #[trigger] rot@[k]@ == layer_move(false, 'r', mid as nat) || rot@[k]@ == layer_move(true, 'r', mid as nat),
                decreases times - t,
            {
                let ghost before = rot@;
                let one = turn(neg, 'r', mid);
                rot.push(one);
                assert(rot@ == before.push(one));
                assert(string_views(rot@) =~= string_views(before).push(one@));
                t = t + 1;
                assert(string_views(rot@) =~= Seq::new(t as nat, |i: int| layer_move(neg, 'r', mid as nat)));
            }
            assert(string_views(rot@) =~= mid_turns(ip, sp, width as int, mid as int));
            done = true;
        } else {
            w = w + 1;
        }
    }
    assert(string_views(rot@) =~= mid_turns(ip, sp, width as int, mid as int));
    let init_even = row_dropped(&init, width, mid);
    let sol_even = row_dropped(&sol, width, mid);
    let ghost keys = distinct_pieces_of(puzzle.solution_state@);
    assert((mid + 1) * width == mid * width + width) by (nonlinear_arith);
    proof {
        lemma_names_drop(init@, piece_list@, split_seq(puzzle.initial_state@, ';'), width as int, mid as int);
        lemma_names_drop(sol@, piece_list@, split_seq(puzzle.solution_state@, ';'), width as int, mid as int);
    }
    assert forall|k: int| 0 <= k < init_even.len() implies #[trigger] init_even@[k] < piece_list.len() by {
        assert(init_even@[k] == drop_row(init@, width as int, mid as int)[k]);
    }
    assert forall|k: int| 0 <= k < sol_even.len() implies #[trigger] sol_even@[k] < piece_list.len() by {
        assert(sol_even@[k] == drop_row(sol@, width as int, mid as int)[k]);
    }
    let pe = Puzzle {
        puzzle_type: puzzle.puzzle_type.clone(),
        initial_state: list_to_state(&init_even, &piece_list),
        solution_state: list_to_state(&sol_even, &piece_list),
        num_wildcards: puzzle.num_wildcards,
    };
    let down = rename_table(width, height, mid, true);
    let up = rename_table(width, height, mid, false);
    let mut names: Vec<String> = Vec::new();
    let mut perms: Vec<Vec<i16>> = Vec::new();
    let mut k: usize = 0;
    while k < allowed_move.names.len()
        invariant
            k <= allowed_move.names.len(),
            allowed_move.wf(),
            width <= 1000,
            mid <= 1000,
            pair_views(down@) == rename_pairs(width as int, height as int, mid as int, true),
            names.len() == perms.len(),
            move_entries(MoveTable { names, perms }) == even_moves(*allowed_move, width as int, height as int, mid as int, k as int),
        decreases allowed_move.names.len() - k,
    {
        let ghost before = move_entries(MoveTable { names, perms });
        match lookup_last(&down, &allowed_move.names[k]) {
            Some(name2) => {
                let p2 = match perm_even(&allowed_move.perms[k], width, mid) {
                    Some(p) => p,
                    None => {
                        return None;
                    },
                };
                let ghost nv = name2@;
                let ghost pv = p2@;
                names.push(name2);
                perms.push(p2);
                assert(move_entries(MoveTable { names, perms }) =~= before.push((nv, pv)));
            },
            None => {},
        }
        k = k + 1;
    }
    let ae = MoveTable { names, perms };
    let even = match solve_globe_impl_even(&pe, &ae, current_best, width, height - 1, id) {
        Some(g) => g,
        None => {
            return None;
        },
    };
    let text = chars_of(even.as_str());
    let parts = split_chars(&text, '.');
    let ghost ps = views(parts@);
    let mut back: Vec<Vec<char>> = Vec::new();
    let mut i: usize = 0;
    while i < parts.len()
        invariant
            i <= parts.len(),
            ps == views(parts@),
            ps == split_seq(even@, '.'),
            pair_views(up@) == rename_pairs(width as int, height as int, mid as int, false),
            back.len() == i,
            forall|q: int| 0 <= q < i ==> last_value(pair_views(up@), #[trigger] ps[q]) == Some(back@[q]@),
        decreases parts.len() - i,
    {
        let name = string_of(&parts[i]);
        match lookup_last(&up, &name) {
            Some(n2) => {
                back.push(chars_of(n2.as_str()));
            },
            None => {
                return None;
            },
        }
        i = i + 1;
    }
    let second = string_of(&join_chars(&back, '.'));
    let rot_parts = rot_texts(&rot);
    let out = if rot.len() == 0 {
        second
    } else {
        let first = string_of(&join_chars(&rot_parts, '.'));
        crate::globe_solve::dot_join_exec(&first, &second)
    };
    proof {
        let rv = views(rot_parts@);
        let bv = views(back@);
        assert(odd_reduction(*puzzle, *allowed_move, width as int, height as int, pe, ae));
        assert(bv.len() == split_seq(even@, '.').len());
        assert(forall|q: int| 0 <= q < bv.len() ==> last_value(rename_pairs(width as int, height as int, mid as int, false), #[trigger] split_seq(even@, '.')[q]) == Some(bv[q]));
        assert(forall|q: int| 0 <= q < rv.len() ==> #[trigger] rv[q] == layer_move(false, 'r', mid as nat) || rv[q] == layer_move(true, 'r', mid as nat));
        assert(rv.len() == rot.len());
        assert(rv =~= string_views(rot@));
        assert(rv == mid_turns(split_seq(puzzle.initial_state@, ';'), split_seq(puzzle.solution_state@, ';'), width as int, mid as int));
        let mid_i = (height / 2) as int;
        assert(mid_i == mid);
        assert(rot_ok(rv, mid_i));
        assert(back_ok(even@, bv, width as int, height as int, mid_i));
        assert(out@ == odd_text(rv, bv));
        assert(crate::globe_solve::even_result(pe, ae, width as int, height - 1, even@));
    }
    Some(out)
}

fn rot_texts(rot: &Vec<String>) -> (r: Vec<Vec<char>>)
    ensures
        r.len() == rot.len(),
        forall|k: int| 0 <= k < r.len() ==> #[trigger] r@[k]@ == rot@[k]@,
{
    let mut r: Vec<Vec<char>> = Vec::new();
    let mut i: usize = 0;
    while i < rot.len()
        invariant
            i <= rot.len(),
            r.len() == i,
            forall|k: int| 0 <= k < i ==> #[trigger] r@[k]@ == rot@[k]@,
        decreases rot.len() - i,
    {
        r.push(chars_of(rot[i].as_str()));
        i = i + 1;
    }
    r
}

/// The distinct pieces of a state, in order of first appearance.
pub open spec fn distinct_pieces_of(state: Seq<char>) -> Seq<Seq<char>> {
    crate::pieces::distinct_pieces(split_seq(state, ';'))
}

proof fn lemma_names_drop(ids: Seq<usize>, piece_list: Seq<String>, parts: Seq<Seq<char>>, width: int, mid: int)
    requires
        ids.len() == parts.len(),
        forall|k: int| 0 <= k < ids.len() ==> #[trigger] ids[k] < piece_list.len() && piece_list[ids[k] as int]@ == parts[k],
        0 <= mid * width,
        (mid + 1) * width <= ids.len(),
        width >= 0,
    ensures
        names_of(drop_row(ids, width, mid), piece_list) == drop_row(parts, width, mid),
        forall|k: int| 0 <= k < drop_row(ids, width, mid).len() ==> #[trigger] drop_row(ids, width, mid)[k] < piece_list.len(),
{
    let d = drop_row(ids, width, mid);
    let lo = mid * width;
    let hi = (mid + 1) * width;
    assert(hi == lo + width) by (nonlinear_arith)
        requires
            lo == mid * width,
            hi == (mid + 1) * width,
    ;
    assert forall|k: int| 0 <= k < d.len() implies #[trigger] d[k] < piece_list.len() && names_of(d, piece_list)[k] == drop_row(parts, width, mid)[k] by {
        if k < lo {
            assert(d[k] == ids[k]);
            assert(drop_row(parts, width, mid)[k] == parts[k]);
        } else {
            assert(d[k] == ids[k - lo + hi]);
            assert(drop_row(parts, width, mid)[k] == parts[k - lo + hi]);
        }
    }
    assert(names_of(d, piece_list) =~= drop_row(parts, width, mid));
}

/// The globe solver: the even solver on an even number of rows, the odd
/// one otherwise.
pub fn solve_globe_impl(
    puzzle: &Puzzle,
    allowed_move: &MoveTable,
    current_best: &String,
    width: usize,
    height: usize,
    id: usize,
) -> (r: Option<String>)
    requires
        allowed_move.wf(),
    ensures
        r matches Some(s) ==> (height % 2 == 0 ==> crate::globe_solve::even_result(*puzzle, *allowed_move, width as int, height as int, s@))
            && (height % 2 == 1 ==> odd_result(*puzzle, *allowed_move, width as int, height as int, s@)),
{
    if height % 2 == 0 {
        solve_globe_impl_even(puzzle, allowed_move, current_best, width, height, id)
    } else {
        solve_globe_impl_odd(puzzle, allowed_move, current_best, width, height, id)
    }
}

} // verus!
