//! Translation of the usual cube notation (`U`, `Rw`, `3Fw'`, `D2`, ...)
//! into the layer moves of this puzzle (`-d5`, `r0.r1`, ...). A wide move
//! turns several layers, written as their moves joined by `.`.
use vstd::prelude::*;
use crate::moves::{layer_move, turn_chars};
use crate::text::{decimal, decimal_chars, extend_chars, join_chars, join_seq, split_chars, split_seq, string_of, views};

verus! {

/// `a.b`
pub open spec fn dotted(a: Seq<char>, b: Seq<char>) -> Seq<char> {
    a + seq!['.'] + b
}

/// The layers `dim - k .. dim - 1` of `face`, each turned counter-clockwise,
/// nearest the far side last.
pub open spec fn wide_back(dim: nat, face: char, k: nat) -> Seq<char>
    decreases k,
{
    if k <= 2 {
        dotted(layer_move(true, face, (dim - 2) as nat), layer_move(true, face, (dim - 1) as nat))
    } else {
        dotted(layer_move(true, face, (dim - k) as nat), wide_back(dim, face, (k - 1) as nat))
    }
}

/// The layers `0 .. k - 1` of `face`, each turned clockwise.
pub open spec fn wide_front(face: char, k: nat) -> Seq<char>
    decreases k,
{
    if k <= 2 {
        dotted(layer_move(false, face, 0), layer_move(false, face, 1))
    } else {
        dotted(wide_front(face, (k - 1) as nat), layer_move(false, face, (k - 1) as nat))
    }
}

/// The six single-layer face turns.
pub open spec fn face_turns(dim: nat) -> Seq<(Seq<char>, Seq<char>)> {
    seq![
        (seq!['U'], layer_move(true, 'd', (dim - 1) as nat)),
        (seq!['R'], layer_move(false, 'r', 0)),
        (seq!['B'], layer_move(true, 'f', (dim - 1) as nat)),
        (seq!['F'], layer_move(false, 'f', 0)),
        (seq!['L'], layer_move(true, 'r', (dim - 1) as nat)),
        (seq!['D'], layer_move(false, 'd', 0)),
    ]
}

/// The six turns of the outer `k` layers, their names prefixed with `prefix`.
pub open spec fn wide_turns(dim: nat, k: nat, prefix: Seq<char>) -> Seq<(Seq<char>, Seq<char>)> {
    seq![
        (prefix + seq!['U', 'w'], wide_back(dim, 'd', k)),
        (prefix + seq!['R', 'w'], wide_front('r', k)),
        (prefix + seq!['B', 'w'], wide_back(dim, 'f', k)),
        (prefix + seq!['F', 'w'], wide_front('f', k)),
        (prefix + seq!['L', 'w'], wide_back(dim, 'r', k)),
        (prefix + seq!['D', 'w'], wide_front('d', k)),
    ]
}

/// The wide turns of `i .. dim / 2` layers, named by their number of layers.
pub open spec fn deep_turns(dim: nat, i: nat) -> Seq<(Seq<char>, Seq<char>)>
    decreases dim / 2 + 1 - i,
{
    if i > dim / 2 {
        Seq::<(Seq<char>, Seq<char>)>::empty()
    } else {
        wide_turns(dim, i, decimal(i)) + deep_turns(dim, i + 1)
    }
}

/// The plain turns of a cube of side `dim`: the face turns; from side 4 the
/// two-layer turns `Uw`, ...; from side 6 also `2Uw`, ... and `kUw`, ... for
/// `3 <= k <= dim / 2`.
pub open spec fn plain_turns(dim: nat) -> Seq<(Seq<char>, Seq<char>)> {
    face_turns(dim) + (if dim > 3 {
        wide_turns(dim, 2, Seq::<char>::empty())
    } else {
        Seq::<(Seq<char>, Seq<char>)>::empty()
    }) + (if dim >= 6 {
        wide_turns(dim, 2, decimal(2)) + deep_turns(dim, 3)
    } else {
        Seq::<(Seq<char>, Seq<char>)>::empty()
    })
}

/// `v` without its `-` signs.
pub open spec fn without_dashes(v: Seq<char>) -> Seq<char>
    decreases v.len(),
{
    if v.len() == 0 {
        v
    } else if v.last() == '-' {
        without_dashes(v.drop_last())
    } else {
        without_dashes(v.drop_last()).push(v.last())
    }
}

/// The inverse of a turn: a turn written with `-` signs loses them all;
/// otherwise each of its moves gets one.
pub open spec fn prime_of(v: Seq<char>) -> Seq<char> {
    if v.contains('-') {
        without_dashes(v)
    } else {
        join_seq(split_seq(v, '.').map_values(|p: Seq<char>| seq!['-'] + p), '.')
    }
}

/// Every plain turn, then each of them twice (name suffix `2`), then each
/// inverted (name suffix `'`).
pub open spec fn translations(dim: nat) -> Seq<(Seq<char>, Seq<char>)> {
    let b = plain_turns(dim);
    b + b.map_values(|e: (Seq<char>, Seq<char>)| (e.0.push('2'), dotted(e.1, e.1))) + b.map_values(
        |e: (Seq<char>, Seq<char>)| (e.0.push('\''), prime_of(e.1)),
    )
}

/// The views of a list of name and translation pairs.
pub open spec fn pair_views(v: Seq<(String, String)>) -> Seq<(Seq<char>, Seq<char>)> {
    v.map_values(|p: (String, String)| (p.0@, p.1@))
}

/// The characters of `a.b`.
fn dotted_chars(a: &Vec<char>, b: &Vec<char>) -> (r: Vec<char>)
    ensures
        r@ == dotted(a@, b@),
{
    let mut r: Vec<char> = Vec::new();
    extend_chars(&mut r, a);
    r.push('.');
    extend_chars(&mut r, b);
    assert(r@ =~= dotted(a@, b@));
    r
}

fn wide_back_chars(dim: usize, face: char, k: usize) -> (r: Vec<char>)
    requires
        2 <= k <= dim,
    ensures
        r@ == wide_back(dim as nat, face, k as nat),
{
    let mut r = dotted_chars(&turn_chars(true, face, dim - 2), &turn_chars(true, face, dim - 1));
    let mut j: usize = 2;
    while j < k
        invariant
            2 <= j <= k <= dim,
            r@ == wide_back(dim as nat, face, j as nat),
        decreases k - j,
    {
        j = j + 1;
        r = dotted_chars(&turn_chars(true, face, dim - j), &r);
    }
    r
}

fn wide_front_chars(face: char, k: usize) -> (r: Vec<char>)
    requires
        2 <= k,
    ensures
        r@ == wide_front(face, k as nat),
{
    let mut r = dotted_chars(&turn_chars(false, face, 0), &turn_chars(false, face, 1));
    let mut j: usize = 2;
    while j < k
        invariant
            2 <= j <= k,
            r@ == wide_front(face, j as nat),
        decreases k - j,
    {
        r = dotted_chars(&r, &turn_chars(false, face, j));
        j = j + 1;
    }
    r
}

/// Appends the pair `(name, value)`.
fn push_pair(v: &mut Vec<(String, String)>, name: &Vec<char>, value: &Vec<char>)
    ensures
        pair_views(final(v)@) == pair_views(old(v)@).push((name@, value@)),
{
    let ghost before = pair_views(v@);
    v.push((string_of(name), string_of(value)));
    assert(pair_views(v@) =~= before.push((name@, value@)));
}

/// `prefix` followed by `a`, `b`.
fn name2(prefix: &Vec<char>, a: char, b: char) -> (r: Vec<char>)
    ensures
        r@ == prefix@ + seq![a, b],
{
    let mut r: Vec<char> = Vec::new();
    extend_chars(&mut r, prefix);
    r.push(a);
    r.push(b);
    assert(r@ =~= prefix@ + seq![a, b]);
    r
}

fn push_wide_turns(v: &mut Vec<(String, String)>, dim: usize, k: usize, prefix: &Vec<char>)
    requires
        2 <= k <= dim,
    ensures
        pair_views(final(v)@) == pair_views(old(v)@) + wide_turns(dim as nat, k as nat, prefix@),
{
    let ghost before = pair_views(v@);
    push_pair(v, &name2(prefix, 'U', 'w'), &wide_back_chars(dim, 'd', k));
    push_pair(v, &name2(prefix, 'R', 'w'), &wide_front_chars('r', k));
    push_pair(v, &name2(prefix, 'B', 'w'), &wide_back_chars(dim, 'f', k));
    push_pair(v, &name2(prefix, 'F', 'w'), &wide_front_chars('f', k));
    push_pair(v, &name2(prefix, 'L', 'w'), &wide_back_chars(dim, 'r', k));
    push_pair(v, &name2(prefix, 'D', 'w'), &wide_front_chars('d', k));
    assert(pair_views(v@) =~= before + wide_turns(dim as nat, k as nat, prefix@));
}

fn one(c: char) -> (r: Vec<char>)
    ensures
        r@ == seq![c],
{
    let mut r: Vec<char> = Vec::new();
    r.push(c);
    assert(r@ =~= seq![c]);
    r
}

/// The plain turns of a cube of side `dim`.
fn plain_turn_list(dim: usize) -> (r: Vec<(String, String)>)
    requires
        dim >= 1,
    ensures
        pair_views(r@) == plain_turns(dim as nat),
{
    let mut v: Vec<(String, String)> = Vec::new();
    push_pair(&mut v, &one('U'), &turn_chars(true, 'd', dim - 1));
    push_pair(&mut v, &one('R'), &turn_chars(false, 'r', 0));
    push_pair(&mut v, &one('B'), &turn_chars(true, 'f', dim - 1));
    push_pair(&mut v, &one('F'), &turn_chars(false, 'f', 0));
    push_pair(&mut v, &one('L'), &turn_chars(true, 'r', dim - 1));
    push_pair(&mut v, &one('D'), &turn_chars(false, 'd', 0));
    assert(pair_views(v@) =~= face_turns(dim as nat));
    let ghost faces = pair_views(v@);
    if dim > 3 {
        push_wide_turns(&mut v, dim, 2, &Vec::new());
    }
    let ghost mid = pair_views(v@);
    assert(mid =~= faces + (if dim > 3 {
        wide_turns(dim as nat, 2, Seq::<char>::empty())
    } else {
        Seq::<(Seq<char>, Seq<char>)>::empty()
    }));
    if dim >= 6 {
        push_wide_turns(&mut v, dim, 2, &decimal_chars(2));
        let width_max = dim / 2;
        let mut i: usize = 3;
        let ghost head = pair_views(v@);
        assert(deep_turns(dim as nat, 3) == deep_turns(dim as nat, i as nat));
        assert(head + Seq::<(Seq<char>, Seq<char>)>::empty() =~= head);
        while i <= width_max
            invariant
                dim >= 6,
                width_max == dim / 2,
                3 <= i <= width_max + 1,
                pair_views(v@) + deep_turns(dim as nat, i as nat) == head + deep_turns(dim as nat, 3),
            decreases width_max + 1 - i,
        {
            let ghost b = pair_views(v@);
            push_wide_turns(&mut v, dim, i, &decimal_chars(i));
            assert(b + deep_turns(dim as nat, i as nat) =~= pair_views(v@) + deep_turns(dim as nat, (i + 1) as nat));
            i = i + 1;
        }
        assert(pair_views(v@) =~= head + deep_turns(dim as nat, 3));
    }
    assert(pair_views(v@) =~= plain_turns(dim as nat));
    v
}

/// `v` without its `-` signs.
fn without_dash_chars(v: &Vec<char>) -> (r: Vec<char>)
    ensures
        r@ == without_dashes(v@),
{
    let mut r: Vec<char> = Vec::new();
    let mut i: usize = 0;
    while i < v.len()
        invariant
            i <= v.len(),
            r@ == without_dashes(v@.take(i as int)),
        decreases v.len() - i,
    {
        assert(v@.take(i + 1).drop_last() =~= v@.take(i as int));
        if v[i] != '-' {
            r.push(v[i]);
        }
        i = i + 1;
    }
    assert(v@.take(v.len() as int) =~= v@);
    r
}

/// The inverse of a turn (`prime_of`).
fn prime_chars(v: &Vec<char>) -> (r: Vec<char>)
    ensures
        r@ == prime_of(v@),
{
    let mut i: usize = 0;
    while i < v.len()
        invariant
            i <= v.len(),
            forall|j: int| 0 <= j < i ==> v@[j] != '-',
        decreases v.len() - i,
    {
        if v[i] == '-' {
            assert(v@.contains('-')) by {
                assert(v@[i as int] == '-');
            }
            return without_dash_chars(v);
        }
        i = i + 1;
    }
    assert(!v@.contains('-'));
    let parts = split_chars(v, '.');
    let mut signed: Vec<Vec<char>> = Vec::new();
    let mut k: usize = 0;
    while k < parts.len()
        invariant
            k <= parts.len(),
            views(signed@) == views(parts@).take(k as int).map_values(|p: Seq<char>| seq!['-'] + p),
        decreases parts.len() - k,
    {
        let mut p: Vec<char> = Vec::new();
        p.push('-');
        extend_chars(&mut p, &parts[k]);
        let ghost before = views(signed@);
        let ghost pv = p@;
        assert(pv =~= seq!['-'] + views(parts@)[k as int]);
        signed.push(p);
        assert(views(signed@) =~= before.push(pv));
        assert(views(signed@) =~= views(parts@).take(k + 1).map_values(|p: Seq<char>| seq!['-'] + p));
        k = k + 1;
    }
    assert(views(parts@).take(parts.len() as int) =~= views(parts@));
    join_chars(&signed, '.')
}

/// The translation of every move of the usual cube notation for a cube of
/// side `dim`: the plain turns (`translations`), each also doubled (suffix
/// `2`) and inverted (suffix `'`).
pub fn move_translation(dim: usize) -> (r: Vec<(String, String)>)
    requires
        dim >= 1,
    ensures
        pair_views(r@) == translations(dim as nat),
{
    let base = plain_turn_list(dim);
    let mut doubled: Vec<(String, String)> = Vec::new();
    let mut primed: Vec<(String, String)> = Vec::new();
    let ghost b = pair_views(base@);
    let mut k: usize = 0;
    while k < base.len()
        invariant
            k <= base.len(),
            b == pair_views(base@),
            pair_views(doubled@) == b.take(k as int).map_values(
                |e: (Seq<char>, Seq<char>)| (e.0.push('2'), dotted(e.1, e.1)),
            ),
            pair_views(primed@) == b.take(k as int).map_values(
                |e: (Seq<char>, Seq<char>)| (e.0.push('\''), prime_of(e.1)),
            ),
        decreases base.len() - k,
    {
        let name = crate::text::chars_of(base[k].0.as_str());
        let value = crate::text::chars_of(base[k].1.as_str());
        assert(name@ == b[k as int].0 && value@ == b[k as int].1);
        let mut n2 = name.clone();
        n2.push('2');
        let mut n1 = name.clone();
        n1.push('\'');
        assert(n2@ == name@.push('2'));
        let ghost (d0, p0) = (pair_views(doubled@), pair_views(primed@));
        push_pair(&mut doubled, &n2, &dotted_chars(&value, &value));
        push_pair(&mut primed, &n1, &prime_chars(&value));
        assert(pair_views(doubled@) =~= b.take(k + 1).map_values(
            |e: (Seq<char>, Seq<char>)| (e.0.push('2'), dotted(e.1, e.1)),
        ));
        assert(pair_views(primed@) =~= b.take(k + 1).map_values(
            |e: (Seq<char>, Seq<char>)| (e.0.push('\''), prime_of(e.1)),
        ));
        k = k + 1;
    }
    assert(b.take(base.len() as int) =~= b);
    let mut r = base;
    let ghost (dv, pv) = (pair_views(doubled@), pair_views(primed@));
    r.append(&mut doubled);
    assert(pair_views(r@) =~= b + dv);
    r.append(&mut primed);
    assert(pair_views(r@) =~= b + dv + pv);
    r
}


/// `tr` translates `name` to `value`: some entry pairs them, and every
/// entry with that name has that value.
pub open spec fn translates(tr: Seq<(Seq<char>, Seq<char>)>, name: Seq<char>, value: Seq<char>) -> bool {
    &&& exists|k: int| 0 <= k < tr.len() && #[trigger] tr[k] == (name, value)
    &&& forall|k: int| 0 <= k < tr.len() && #[trigger] tr[k].0 == name ==> tr[k].1 == value
}

/// Every name of `ts` is at least two long and ends in `w`.
spec fn wide_names(ts: Seq<(Seq<char>, Seq<char>)>) -> bool {
    forall|k: int| 0 <= k < ts.len() ==> (#[trigger] ts[k]).0.len() >= 2 && ts[k].0.last() == 'w'
}

proof fn lemma_wide_turns_names(dim: nat, k: nat, prefix: Seq<char>)
    ensures
        wide_names(wide_turns(dim, k, prefix)),
{
    let ts = wide_turns(dim, k, prefix);
    assert forall|j: int| 0 <= j < ts.len() implies (#[trigger] ts[j]).0.len() >= 2 && ts[j].0.last() == 'w' by {
        if j == 0 {
            assert(ts[j].0 == prefix + seq!['U', 'w']);
        } else if j == 1 {
            assert(ts[j].0 == prefix + seq!['R', 'w']);
        } else if j == 2 {
            assert(ts[j].0 == prefix + seq!['B', 'w']);
        } else if j == 3 {
            assert(ts[j].0 == prefix + seq!['F', 'w']);
        } else if j == 4 {
            assert(ts[j].0 == prefix + seq!['L', 'w']);
        } else {
            assert(ts[j].0 == prefix + seq!['D', 'w']);
        }
    }
}

proof fn lemma_join_wide(a: Seq<(Seq<char>, Seq<char>)>, b: Seq<(Seq<char>, Seq<char>)>)
    requires
        wide_names(a),
        wide_names(b),
    ensures
        wide_names(a + b),
{
    let c = a + b;
    assert forall|j: int| 0 <= j < c.len() implies (#[trigger] c[j]).0.len() >= 2 && c[j].0.last() == 'w' by {
        if j < a.len() {
            assert(c[j] == a[j]);
        } else {
            assert(c[j] == b[j - a.len()]);
        }
    }
}

proof fn lemma_deep_turns_names(dim: nat, i: nat)
    ensures
        wide_names(deep_turns(dim, i)),
    decreases dim / 2 + 1 - i,
{
    if i <= dim / 2 {
        lemma_wide_turns_names(dim, i, decimal(i));
        lemma_deep_turns_names(dim, i + 1);
        lemma_join_wide(wide_turns(dim, i, decimal(i)), deep_turns(dim, i + 1));
    }
}

/// The plain turns are the six face turns, named by their letters, then
/// turns whose names end in `w`.
proof fn lemma_plain_shape(dim: nat)
    ensures
        plain_turns(dim).len() >= 6,
        plain_turns(dim).take(6) == face_turns(dim),
        forall|k: int| 6 <= k < plain_turns(dim).len() ==> (#[trigger] plain_turns(dim)[k]).0.len() >= 2 && plain_turns(dim)[k].0.last() == 'w',
{
    let e = Seq::<(Seq<char>, Seq<char>)>::empty();
    let w1 = if dim > 3 { wide_turns(dim, 2, Seq::<char>::empty()) } else { e };
    let w2 = if dim >= 6 { wide_turns(dim, 2, decimal(2)) + deep_turns(dim, 3) } else { e };
    lemma_wide_turns_names(dim, 2, Seq::<char>::empty());
    lemma_wide_turns_names(dim, 2, decimal(2));
    lemma_deep_turns_names(dim, 3);
    lemma_join_wide(wide_turns(dim, 2, decimal(2)), deep_turns(dim, 3));
    assert(wide_names(w1));
    assert(wide_names(w2));
    lemma_join_wide(w1, w2);
    let b = plain_turns(dim);
    assert(b == face_turns(dim) + w1 + w2);
    assert(b =~= face_turns(dim) + (w1 + w2));
    assert(b.take(6) =~= face_turns(dim));
    assert forall|k: int| 6 <= k < b.len() implies (#[trigger] b[k]).0.len() >= 2 && b[k].0.last() == 'w' by {
        assert(b[k] == (w1 + w2)[k - 6]);
    }
}

/// A face turn letter `L` (the `j`-th face turn) is translated, doubled and
/// inverted, by its face turn.
proof fn lemma_face_entry(dim: nat, j: int)
    requires
        0 <= j < 6,
    ensures
        ({
            let f = face_turns(dim)[j];
            &&& translates(translations(dim), f.0, f.1)
            &&& translates(translations(dim), f.0.push('2'), dotted(f.1, f.1))
            &&& translates(translations(dim), f.0.push('\''), prime_of(f.1))
        }),
{
    let b = plain_turns(dim);
    let n = b.len();
    lemma_plain_shape(dim);
    let tr = translations(dim);
    let fs = face_turns(dim);
    let f = fs[j];
    assert(f.0.len() == 1);
    assert(b[j] == b.take(6)[j]);
    assert(b[j] == f);
    assert(tr.len() == 3 * n);
    assert forall|k: int| 0 <= k < n implies #[trigger] tr[k] == b[k] by {}
    assert forall|k: int| n <= k < 2 * n implies #[trigger] tr[k] == (b[k - n].0.push('2'), dotted(b[k - n].1, b[k - n].1)) by {}
    assert forall|k: int| 2 * n <= k < 3 * n implies #[trigger] tr[k] == (b[k - 2 * n].0.push('\''), prime_of(b[k - 2 * n].1)) by {}
    // Names of the face turns are distinct single letters.
    assert forall|i: int| 0 <= i < 6 && fs[i].0 == f.0 implies i == j by {
        assert(fs[i].0[0] == f.0[0]);
    }
    // which base entries carry a given one-letter name
    assert forall|k: int| 0 <= k < n && b[k].0 == f.0 implies k == j by {
        if k >= 6 {
            assert(b[k].0.len() >= 2);
        } else {
            assert(b[k] == b.take(6)[k]);
        }
    }
    assert(tr[j] == (f.0, f.1));
    assert(tr[n + j] == (f.0.push('2'), dotted(f.1, f.1)));
    assert(tr[2 * n + j] == (f.0.push('\''), prime_of(f.1)));
    assert forall|k: int| 0 <= k < tr.len() && #[trigger] tr[k].0 == f.0 implies tr[k].1 == f.1 by {
        if k < n {
        } else if k < 2 * n {
            assert(tr[k].0.len() == b[k - n].0.len() + 1);
        } else {
            assert(tr[k].0.len() == b[k - 2 * n].0.len() + 1);
        }
    }
    assert forall|k: int| 0 <= k < tr.len() && #[trigger] tr[k].0 == f.0.push('2') implies tr[k].1 == dotted(f.1, f.1) by {
        if k < n {
            if k >= 6 {
                assert(tr[k].0.last() == 'w');
                assert(f.0.push('2').last() == '2');
            } else {
                assert(b[k] == b.take(6)[k]);
                assert(tr[k].0.len() == 1);
            }
        } else if k < 2 * n {
            let m = k - n;
            assert(b[m].0.push('2') == f.0.push('2'));
            assert(b[m].0 == f.0.push('2').drop_last());
            assert(f.0.push('2').drop_last() =~= f.0);
        } else {
            assert(tr[k].0.last() == '\'');
            assert(f.0.push('2').last() == '2');
        }
    }
    assert forall|k: int| 0 <= k < tr.len() && #[trigger] tr[k].0 == f.0.push('\'') implies tr[k].1 == prime_of(f.1) by {
        if k < n {
            if k >= 6 {
                assert(tr[k].0.last() == 'w');
                assert(f.0.push('\'').last() == '\'');
            } else {
                assert(b[k] == b.take(6)[k]);
                assert(tr[k].0.len() == 1);
            }
        } else if k < 2 * n {
            assert(tr[k].0.last() == '2');
            assert(f.0.push('\'').last() == '\'');
        } else {
            let m = k - 2 * n;
            assert(b[m].0.push('\'') == f.0.push('\''));
            assert(b[m].0 == f.0.push('\'').drop_last());
            assert(f.0.push('\'').drop_last() =~= f.0);
        }
    }
}

proof fn lemma_without_dashes_concat(a: Seq<char>, b: Seq<char>)
    ensures
        without_dashes(a + b) == without_dashes(a) + without_dashes(b),
    decreases b.len(),
{
    if b.len() == 0 {
        assert(a + b =~= a);
        assert(without_dashes(a) + without_dashes(b) =~= without_dashes(a));
    } else {
        lemma_without_dashes_concat(a, b.drop_last());
        assert((a + b).drop_last() =~= a + b.drop_last());
        assert((a + b).last() == b.last());
        if b.last() != '-' {
            assert(without_dashes(a) + without_dashes(b.drop_last()).push(b.last()) =~= (without_dashes(a)
                + without_dashes(b.drop_last())).push(b.last()));
        }
    }
}

proof fn lemma_without_dashes_digits(d: Seq<char>)
    requires
        crate::text::all_digits(d),
    ensures
        without_dashes(d) == d,
    decreases d.len(),
{
    if d.len() > 0 {
        assert(crate::text::is_digit(d[d.len() - 1]));
        assert forall|i: int| 0 <= i < d.drop_last().len() implies #[trigger] crate::text::is_digit(d.drop_last()[i]) by {
            assert(d.drop_last()[i] == d[i]);
        }
        lemma_without_dashes_digits(d.drop_last());
        assert(d.drop_last().push(d.last()) =~= d);
    }
}

/// Inverting a clockwise layer move puts a `-` before it.
proof fn lemma_prime_plain(c: char, k: nat)
    requires
        c != '-' && c != '.',
    ensures
        prime_of(layer_move(false, c, k)) == layer_move(true, c, k),
{
    let v = layer_move(false, c, k);
    crate::text::lemma_decimal_digits(k);
    let d = decimal(k);
    assert(v == seq![c] + d);
    assert forall|i: int| 0 <= i < v.len() implies v[i] != '-' && v[i] != '.' by {
        if i > 0 {
            assert(v[i] == d[i - 1]);
            assert(crate::text::is_digit(d[i - 1]));
        }
    }
    assert(!v.contains('-'));
    assert(crate::text::parts_free_of(seq![v], '.')) by {
        assert(seq![v][0] == v);
    }
    crate::text::lemma_split_join(seq![v], '.');
    assert(join_seq(seq![v], '.') == v);
    assert(split_seq(v, '.') == seq![v]);
    let m = split_seq(v, '.').map_values(|p: Seq<char>| seq!['-'] + p);
    assert(m =~= seq![seq!['-'] + v]);
    assert(join_seq(m, '.') == seq!['-'] + v);
    assert(seq!['-'] + v =~= layer_move(true, c, k));
}

/// Inverting a counter-clockwise layer move drops its `-`.
proof fn lemma_prime_dashed(c: char, k: nat)
    requires
        c != '-',
    ensures
        prime_of(layer_move(true, c, k)) == layer_move(false, c, k),
{
    let v = layer_move(true, c, k);
    crate::text::lemma_decimal_digits(k);
    let d = decimal(k);
    assert(v == seq!['-', c] + d);
    assert(v[0] == '-');
    assert(v.contains('-'));
    lemma_without_dashes_concat(seq!['-', c], d);
    lemma_without_dashes_digits(d);
    assert(seq!['-', c].drop_last() =~= seq!['-']);
    assert(seq!['-'].drop_last() =~= Seq::<char>::empty());
    assert(without_dashes(Seq::<char>::empty()) == Seq::<char>::empty());
    assert(seq!['-'].last() == '-');
    assert(without_dashes(seq!['-']) =~= Seq::<char>::empty());
    assert(without_dashes(seq!['-', c]) =~= seq![c]);
    assert(seq![c] + d =~= layer_move(false, c, k));
}

proof fn lemma_front_letter(dim: nat, j: int, letter: char, c: char)
    requires
        0 <= j < 6,
        face_turns(dim)[j] == (seq![letter], layer_move(false, c, 0)),
        c != '-' && c != '.',
    ensures
        translates(translations(dim), seq![letter], seq![c, '0']),
        translates(translations(dim), seq![letter, '\''], seq!['-', c, '0']),
        translates(translations(dim), seq![letter, '2'], seq![c, '0', '.', c, '0']),
{
    assert(decimal(0) == seq!['0']) by {
        assert(decimal(0) == seq![crate::text::digit_char(0)]);
    }
    lemma_face_entry(dim, j);
    lemma_prime_plain(c, 0);
    assert(layer_move(false, c, 0) =~= seq![c, '0']);
    assert(layer_move(true, c, 0) =~= seq!['-', c, '0']);
    assert(seq![letter].push('\'') =~= seq![letter, '\'']);
    assert(seq![letter].push('2') =~= seq![letter, '2']);
    assert(dotted(seq![c, '0'], seq![c, '0']) =~= seq![c, '0', '.', c, '0']);
}

proof fn lemma_back_letter(dim: nat, j: int, letter: char, c: char)
    requires
        0 <= j < 6,
        dim >= 1,
        face_turns(dim)[j] == (seq![letter], layer_move(true, c, (dim - 1) as nat)),
        c != '-',
    ensures
        translates(translations(dim), seq![letter], seq!['-', c] + decimal((dim - 1) as nat)),
        translates(translations(dim), seq![letter, '\''], seq![c] + decimal((dim - 1) as nat)),
{
    let k = (dim - 1) as nat;
    lemma_face_entry(dim, j);
    lemma_prime_dashed(c, k);
    assert(layer_move(true, c, k) =~= seq!['-', c] + decimal(k));
    assert(layer_move(false, c, k) =~= seq![c] + decimal(k));
    assert(seq![letter].push('\'') =~= seq![letter, '\'']);
}

/// Every name of `ts` is at least three long and ends in `w`.
spec fn long_wide_names(ts: Seq<(Seq<char>, Seq<char>)>) -> bool {
    forall|k: int| 0 <= k < ts.len() ==> (#[trigger] ts[k]).0.len() >= 3 && ts[k].0.last() == 'w'
}

proof fn lemma_numbered_names(dim: nat, k: nat, i: nat)
    ensures
        long_wide_names(wide_turns(dim, k, decimal(i))),
{
    crate::text::lemma_decimal_digits(i);
    let p = decimal(i);
    let ts = wide_turns(dim, k, p);
    assert forall|j: int| 0 <= j < ts.len() implies (#[trigger] ts[j]).0.len() >= 3 && ts[j].0.last() == 'w' by {
        if j == 0 {
            assert(ts[j].0 == p + seq!['U', 'w']);
        } else if j == 1 {
            assert(ts[j].0 == p + seq!['R', 'w']);
        } else if j == 2 {
            assert(ts[j].0 == p + seq!['B', 'w']);
        } else if j == 3 {
            assert(ts[j].0 == p + seq!['F', 'w']);
        } else if j == 4 {
            assert(ts[j].0 == p + seq!['L', 'w']);
        } else {
            assert(ts[j].0 == p + seq!['D', 'w']);
        }
    }
}

proof fn lemma_join_long(a: Seq<(Seq<char>, Seq<char>)>, b: Seq<(Seq<char>, Seq<char>)>)
    requires
        long_wide_names(a),
        long_wide_names(b),
    ensures
        long_wide_names(a + b),
{
    let c = a + b;
    assert forall|j: int| 0 <= j < c.len() implies (#[trigger] c[j]).0.len() >= 3 && c[j].0.last() == 'w' by {
        if j < a.len() {
            assert(c[j] == a[j]);
        } else {
            assert(c[j] == b[j - a.len()]);
        }
    }
}

proof fn lemma_deep_long(dim: nat, i: nat)
    ensures
        long_wide_names(deep_turns(dim, i)),
    decreases dim / 2 + 1 - i,
{
    if i <= dim / 2 {
        lemma_numbered_names(dim, i, i);
        lemma_deep_long(dim, i + 1);
        lemma_join_long(wide_turns(dim, i, decimal(i)), deep_turns(dim, i + 1));
    }
}

/// A two-layer turn (the `j`-th of `Uw`, `Rw`, `Bw`, `Fw`, `Lw`, `Dw`) is
/// translated, doubled and inverted, by its two layer moves.
proof fn lemma_wide_entry(dim: nat, j: int)
    requires
        dim > 3,
        0 <= j < 6,
    ensures
        ({
            let f = wide_turns(dim, 2, Seq::<char>::empty())[j];
            &&& translates(translations(dim), f.0, f.1)
            &&& translates(translations(dim), f.0.push('2'), dotted(f.1, f.1))
            &&& translates(translations(dim), f.0.push('\''), prime_of(f.1))
        }),
{
    let e = Seq::<(Seq<char>, Seq<char>)>::empty();
    let fs = face_turns(dim);
    let w1 = wide_turns(dim, 2, Seq::<char>::empty());
    let w2 = if dim >= 6 { wide_turns(dim, 2, decimal(2)) + deep_turns(dim, 3) } else { e };
    lemma_numbered_names(dim, 2, 2);
    lemma_deep_long(dim, 3);
    lemma_join_long(wide_turns(dim, 2, decimal(2)), deep_turns(dim, 3));
    assert(long_wide_names(w2));
    let b = plain_turns(dim);
    assert(b == fs + w1 + w2);
    let n = b.len();
    let tr = translations(dim);
    let f = w1[j];
    assert(w1[0].0 =~= seq!['U', 'w']);
    assert(w1[1].0 =~= seq!['R', 'w']);
    assert(w1[2].0 =~= seq!['B', 'w']);
    assert(w1[3].0 =~= seq!['F', 'w']);
    assert(w1[4].0 =~= seq!['L', 'w']);
    assert(w1[5].0 =~= seq!['D', 'w']);
    assert(f.0.len() == 2 && f.0.last() == 'w');
    assert(b[6 + j] == f);
    assert(tr.len() == 3 * n);
    assert forall|k: int| 0 <= k < n implies #[trigger] tr[k] == b[k] by {}
    assert forall|k: int| n <= k < 2 * n implies #[trigger] tr[k] == (b[k - n].0.push('2'), dotted(b[k - n].1, b[k - n].1)) by {}
    assert forall|k: int| 2 * n <= k < 3 * n implies #[trigger] tr[k] == (b[k - 2 * n].0.push('\''), prime_of(b[k - 2 * n].1)) by {}
    // what the names of the plain turns look like
    assert forall|k: int| 0 <= k < n implies (#[trigger] b[k]).0.len() == 1 && k < 6 || b[k].0.len() == 2 && 6 <= k < 12
        && b[k] == w1[k - 6] || b[k].0.len() >= 3 && b[k].0.last() == 'w' by {
        if k < 6 {
            assert(b[k] == fs[k]);
        } else if k < 12 {
            assert(b[k] == w1[k - 6]);
        } else {
            assert(b[k] == w2[k - 12]);
        }
    }
    assert forall|k: int| 0 <= k < n && b[k].0 == f.0 implies k == 6 + j by {
        assert(b[k].0.len() == 2);
        assert(b[k].0[0] == f.0[0]);
    }
    assert(tr[6 + j] == (f.0, f.1));
    assert(tr[n + 6 + j] == (f.0.push('2'), dotted(f.1, f.1)));
    assert(tr[2 * n + 6 + j] == (f.0.push('\''), prime_of(f.1)));
    assert forall|k: int| 0 <= k < tr.len() && #[trigger] tr[k].0 == f.0 implies tr[k].1 == f.1 by {
        if k < n {
        } else if k < 2 * n {
            assert(tr[k].0.last() == '2');
        } else {
            assert(tr[k].0.last() == '\'');
        }
    }
    assert forall|k: int| 0 <= k < tr.len() && #[trigger] tr[k].0 == f.0.push('2') implies tr[k].1 == dotted(f.1, f.1) by {
        assert(f.0.push('2').len() == 3 && f.0.push('2').last() == '2');
        if k < n {
            assert(b[k].0.len() == 3);
        } else if k < 2 * n {
            let m = k - n;
            assert(b[m].0 == f.0.push('2').drop_last());
            assert(f.0.push('2').drop_last() =~= f.0);
        } else {
            assert(tr[k].0.last() == '\'');
        }
    }
    assert forall|k: int| 0 <= k < tr.len() && #[trigger] tr[k].0 == f.0.push('\'') implies tr[k].1 == prime_of(f.1) by {
        assert(f.0.push('\'').len() == 3 && f.0.push('\'').last() == '\'');
        if k < n {
            assert(b[k].0.len() == 3);
        } else if k < 2 * n {
            assert(tr[k].0.last() == '2');
        } else {
            let m = k - 2 * n;
            assert(b[m].0 == f.0.push('\'').drop_last());
            assert(f.0.push('\'').drop_last() =~= f.0);
        }
    }
}

/// A clockwise layer move holds neither `-` nor `.`.
proof fn lemma_plain_free(c: char, i: nat)
    requires
        c != '-' && c != '.',
    ensures
        forall|x: int| 0 <= x < layer_move(false, c, i).len() ==> #[trigger] layer_move(false, c, i)[x] != '-' && layer_move(false, c, i)[x] != '.',
{
    crate::text::lemma_decimal_digits(i);
    let v = layer_move(false, c, i);
    let d = decimal(i);
    assert forall|x: int| 0 <= x < v.len() implies #[trigger] v[x] != '-' && v[x] != '.' by {
        if x > 0 {
            assert(v[x] == d[x - 1]);
            assert(crate::text::is_digit(d[x - 1]));
        }
    }
}

/// Inverting a two-layer clockwise turn puts a `-` before each of its moves.
proof fn lemma_prime_two_plain(c: char, i: nat, k: nat)
    requires
        c != '-' && c != '.',
    ensures
        prime_of(dotted(layer_move(false, c, i), layer_move(false, c, k))) == dotted(layer_move(true, c, i), layer_move(true, c, k)),
{
    let a = layer_move(false, c, i);
    let b = layer_move(false, c, k);
    lemma_plain_free(c, i);
    lemma_plain_free(c, k);
    let v = dotted(a, b);
    assert forall|x: int| 0 <= x < v.len() implies v[x] != '-' by {
        if x < a.len() {
            assert(v[x] == a[x]);
        } else if x > a.len() {
            assert(v[x] == b[x - a.len() - 1]);
        }
    }
    assert(!v.contains('-'));
    let parts = seq![a, b];
    assert(crate::text::parts_free_of(parts, '.')) by {
        assert(parts[0] == a && parts[1] == b);
    }
    crate::text::lemma_split_join(parts, '.');
    assert(parts.drop_last() =~= seq![a]);
    assert(join_seq(seq![a], '.') == a);
    assert(join_seq(parts, '.') =~= v);
    let m = parts.map_values(|p: Seq<char>| seq!['-'] + p);
    assert(m =~= seq![seq!['-'] + a, seq!['-'] + b]);
    assert(m.drop_last() =~= seq![seq!['-'] + a]);
    assert(join_seq(seq![seq!['-'] + a], '.') == seq!['-'] + a);
    assert(join_seq(m, '.') =~= dotted(layer_move(true, c, i), layer_move(true, c, k)));
}

/// Inverting a two-layer counter-clockwise turn drops its `-` signs.
proof fn lemma_prime_two_dashed(c: char, i: nat, k: nat)
    requires
        c != '-',
    ensures
        prime_of(dotted(layer_move(true, c, i), layer_move(true, c, k))) == dotted(layer_move(false, c, i), layer_move(false, c, k)),
{
    let a = layer_move(true, c, i);
    let b = layer_move(true, c, k);
    let v = dotted(a, b);
    lemma_prime_dashed(c, i);
    lemma_prime_dashed(c, k);
    assert(a[0] == '-' && b[0] == '-');
    assert(a.contains('-') && b.contains('-'));
    assert(v[0] == '-');
    assert(v.contains('-'));
    lemma_without_dashes_concat(a + seq!['.'], b);
    lemma_without_dashes_concat(a, seq!['.']);
    assert(seq!['.'].drop_last() =~= Seq::<char>::empty());
    assert(without_dashes(Seq::<char>::empty()) == Seq::<char>::empty());
    assert(without_dashes(seq!['.']) =~= seq!['.']);
}

proof fn lemma_wide_front_letter(dim: nat, j: int, letter: char, c: char)
    requires
        dim > 3,
        0 <= j < 6,
        wide_turns(dim, 2, Seq::<char>::empty())[j] == (seq![letter, 'w'], wide_front(c, 2)),
        c != '-' && c != '.',
    ensures
        translates(translations(dim), seq![letter, 'w'], seq![c, '0', '.', c, '1']),
        translates(translations(dim), seq![letter, 'w', '\''], seq!['-', c, '0', '.', '-', c, '1']),
{
    assert(decimal(0) == seq!['0']) by {
        assert(decimal(0) == seq![crate::text::digit_char(0)]);
    }
    assert(decimal(1) == seq!['1']) by {
        assert(decimal(1) == seq![crate::text::digit_char(1)]);
    }
    lemma_wide_entry(dim, j);
    lemma_prime_two_plain(c, 0, 1);
    assert(seq![letter, 'w'].push('\'') =~= seq![letter, 'w', '\'']);
    assert(wide_front(c, 2) =~= seq![c, '0', '.', c, '1']);
    assert(dotted(layer_move(true, c, 0), layer_move(true, c, 1)) =~= seq!['-', c, '0', '.', '-', c, '1']);
}

proof fn lemma_wide_back_letter(dim: nat, j: int, letter: char, c: char)
    requires
        dim > 3,
        0 <= j < 6,
        wide_turns(dim, 2, Seq::<char>::empty())[j] == (seq![letter, 'w'], wide_back(dim, c, 2)),
        c != '-',
    ensures
        translates(translations(dim), seq![letter, 'w'], seq!['-', c] + decimal((dim - 2) as nat) + seq!['.', '-', c] + decimal((dim - 1) as nat)),
        translates(translations(dim), seq![letter, 'w', '\''], seq![c] + decimal((dim - 2) as nat) + seq!['.', c] + decimal((dim - 1) as nat)),
{
    let (p, q) = ((dim - 2) as nat, (dim - 1) as nat);
    lemma_wide_entry(dim, j);
    lemma_prime_two_dashed(c, p, q);
    assert(seq![letter, 'w'].push('\'') =~= seq![letter, 'w', '\'']);
    assert(wide_back(dim, c, 2) =~= seq!['-', c] + decimal(p) + seq!['.', '-', c] + decimal(q));
    assert(dotted(layer_move(false, c, p), layer_move(false, c, q)) =~= seq![c] + decimal(p) + seq!['.', c] + decimal(q));
}

/// The two-layer turns of the usual notation on a cube of side `dim > 3`:
/// `Fw`, `Rw` and `Dw` are the clockwise moves of the two outer layers
/// (`f0.f1`, ...); `Bw`, `Lw` and `Uw` the counter-clockwise moves of the
/// two far layers (`-f{dim-2}.-f{dim-1}`, ...). With `'` each move turns
/// the other way.
pub proof fn lemma_wide_letters(dim: nat)
    requires
        dim > 3,
    ensures
        translates(translations(dim), seq!['F', 'w'], seq!['f', '0', '.', 'f', '1']),
        translates(translations(dim), seq!['F', 'w', '\''], seq!['-', 'f', '0', '.', '-', 'f', '1']),
        translates(translations(dim), seq!['R', 'w'], seq!['r', '0', '.', 'r', '1']),
        translates(translations(dim), seq!['R', 'w', '\''], seq!['-', 'r', '0', '.', '-', 'r', '1']),
        translates(translations(dim), seq!['D', 'w'], seq!['d', '0', '.', 'd', '1']),
        translates(translations(dim), seq!['D', 'w', '\''], seq!['-', 'd', '0', '.', '-', 'd', '1']),
        translates(translations(dim), seq!['B', 'w'], seq!['-', 'f'] + decimal((dim - 2) as nat) + seq!['.', '-', 'f'] + decimal((dim - 1) as nat)),
        translates(translations(dim), seq!['B', 'w', '\''], seq!['f'] + decimal((dim - 2) as nat) + seq!['.', 'f'] + decimal((dim - 1) as nat)),
        translates(translations(dim), seq!['L', 'w'], seq!['-', 'r'] + decimal((dim - 2) as nat) + seq!['.', '-', 'r'] + decimal((dim - 1) as nat)),
        translates(translations(dim), seq!['L', 'w', '\''], seq!['r'] + decimal((dim - 2) as nat) + seq!['.', 'r'] + decimal((dim - 1) as nat)),
        translates(translations(dim), seq!['U', 'w'], seq!['-', 'd'] + decimal((dim - 2) as nat) + seq!['.', '-', 'd'] + decimal((dim - 1) as nat)),
        translates(translations(dim), seq!['U', 'w', '\''], seq!['d'] + decimal((dim - 2) as nat) + seq!['.', 'd'] + decimal((dim - 1) as nat)),
{
    let w1 = wide_turns(dim, 2, Seq::<char>::empty());
    assert(w1[0] == (seq!['U', 'w'], wide_back(dim, 'd', 2)));
    assert(w1[1] == (seq!['R', 'w'], wide_front('r', 2)));
    assert(w1[2] == (seq!['B', 'w'], wide_back(dim, 'f', 2)));
    assert(w1[3] == (seq!['F', 'w'], wide_front('f', 2)));
    assert(w1[4] == (seq!['L', 'w'], wide_back(dim, 'r', 2)));
    assert(w1[5] == (seq!['D', 'w'], wide_front('d', 2)));
    lemma_wide_back_letter(dim, 0, 'U', 'd');
    lemma_wide_front_letter(dim, 1, 'R', 'r');
    lemma_wide_back_letter(dim, 2, 'B', 'f');
    lemma_wide_front_letter(dim, 3, 'F', 'f');
    lemma_wide_back_letter(dim, 4, 'L', 'r');
    lemma_wide_front_letter(dim, 5, 'D', 'd');
}

/// The face letters of the usual notation on a cube of side `dim`: `F`,
/// `R` and `D` are the clockwise outer layer moves `f0`, `r0`, `d0`; `B`,
/// `L` and `U` the counter-clockwise far layer moves `-f{dim-1}`,
/// `-r{dim-1}`, `-d{dim-1}`. A letter with `'` is the opposite turn, and
/// with `2` the turn made twice.
pub proof fn lemma_face_letters(dim: nat)
    requires
        dim >= 1,
    ensures
        translates(translations(dim), seq!['F'], seq!['f', '0']),
        translates(translations(dim), seq!['F', '\''], seq!['-', 'f', '0']),
        translates(translations(dim), seq!['F', '2'], seq!['f', '0', '.', 'f', '0']),
        translates(translations(dim), seq!['R'], seq!['r', '0']),
        translates(translations(dim), seq!['R', '\''], seq!['-', 'r', '0']),
        translates(translations(dim), seq!['R', '2'], seq!['r', '0', '.', 'r', '0']),
        translates(translations(dim), seq!['D'], seq!['d', '0']),
        translates(translations(dim), seq!['D', '\''], seq!['-', 'd', '0']),
        translates(translations(dim), seq!['D', '2'], seq!['d', '0', '.', 'd', '0']),
        translates(translations(dim), seq!['B'], seq!['-', 'f'] + decimal((dim - 1) as nat)),
        translates(translations(dim), seq!['B', '\''], seq!['f'] + decimal((dim - 1) as nat)),
        translates(translations(dim), seq!['L'], seq!['-', 'r'] + decimal((dim - 1) as nat)),
        translates(translations(dim), seq!['L', '\''], seq!['r'] + decimal((dim - 1) as nat)),
        translates(translations(dim), seq!['U'], seq!['-', 'd'] + decimal((dim - 1) as nat)),
        translates(translations(dim), seq!['U', '\''], seq!['d'] + decimal((dim - 1) as nat)),
{
    let fs = face_turns(dim);
    let k = (dim - 1) as nat;
    lemma_front_letter(dim, 3, 'F', 'f');
    lemma_front_letter(dim, 1, 'R', 'r');
    lemma_front_letter(dim, 5, 'D', 'd');
    lemma_back_letter(dim, 2, 'B', 'f');
    lemma_back_letter(dim, 4, 'L', 'r');
    lemma_back_letter(dim, 0, 'U', 'd');
}

/// The moves of `k` layers of `face` from layer `from` on, each turned
/// counter-clockwise when `neg`, nearest first.
pub open spec fn layer_run(neg: bool, face: char, from: int, k: nat) -> Seq<Seq<char>> {
    Seq::new(k, |x: int| layer_move(neg, face, (from + x) as nat))
}

proof fn lemma_join_front(a: Seq<char>, rest: Seq<Seq<char>>)
    requires
        rest.len() >= 1,
    ensures
        join_seq(seq![a] + rest, '.') == dotted(a, join_seq(rest, '.')),
    decreases rest.len(),
{
    let all = seq![a] + rest;
    assert(seq![a].drop_last() =~= Seq::<Seq<char>>::empty());
    assert(join_seq(seq![a], '.') == a);
    if rest.len() == 1 {
        assert(all.drop_last() =~= seq![a]);
        assert(all.last() == rest[0]);
        assert(join_seq(rest, '.') == rest[0]);
        assert(a.push('.') + rest[0] =~= dotted(a, rest[0]));
    } else {
        lemma_join_front(a, rest.drop_last());
        assert(all.drop_last() =~= seq![a] + rest.drop_last());
        assert(all.last() == rest.last());
        assert(dotted(a, join_seq(rest.drop_last(), '.')).push('.') + rest.last() =~= dotted(
            a,
            join_seq(rest.drop_last(), '.').push('.') + rest.last(),
        ));
    }
}

/// `wide_front` is the clockwise moves of layers `0 .. k - 1`, in order.
proof fn lemma_wide_front_run(face: char, k: nat)
    requires
        k >= 2,
    ensures
        wide_front(face, k) == join_seq(layer_run(false, face, 0, k), '.'),
    decreases k,
{
    let r = layer_run(false, face, 0, k);
    if k == 2 {
        assert(r.drop_last() =~= seq![layer_move(false, face, 0)]);
        assert(seq![layer_move(false, face, 0)].drop_last() =~= Seq::<Seq<char>>::empty());
        assert(r.last() == layer_move(false, face, 1));
        assert(r.len() == 2);
        assert(join_seq(r.drop_last(), '.') == layer_move(false, face, 0));
        assert(join_seq(r, '.') =~= dotted(layer_move(false, face, 0), layer_move(false, face, 1)));
    } else {
        lemma_wide_front_run(face, (k - 1) as nat);
        assert(r.drop_last() =~= layer_run(false, face, 0, (k - 1) as nat));
        assert(r.last() == layer_move(false, face, (k - 1) as nat));
        assert(join_seq(r, '.') =~= dotted(wide_front(face, (k - 1) as nat), layer_move(false, face, (k - 1) as nat)));
    }
}

/// `wide_back` is the counter-clockwise moves of layers `dim - k .. dim - 1`,
/// in order.
proof fn lemma_wide_back_run(dim: nat, face: char, k: nat)
    requires
        2 <= k <= dim,
    ensures
        wide_back(dim, face, k) == join_seq(layer_run(true, face, dim - k, k), '.'),
    decreases k,
{
    let r = layer_run(true, face, dim - k, k);
    if k == 2 {
        assert(r.drop_last() =~= seq![layer_move(true, face, (dim - 2) as nat)]);
        assert(seq![layer_move(true, face, (dim - 2) as nat)].drop_last() =~= Seq::<Seq<char>>::empty());
        assert(r.last() == layer_move(true, face, (dim - 1) as nat));
        assert(r.len() == 2);
        assert(join_seq(r.drop_last(), '.') == layer_move(true, face, (dim - 2) as nat));
        assert(join_seq(r, '.') =~= dotted(layer_move(true, face, (dim - 2) as nat), layer_move(true, face, (dim - 1) as nat)));
    } else {
        lemma_wide_back_run(dim, face, (k - 1) as nat);
        let rest = layer_run(true, face, dim - (k - 1), (k - 1) as nat);
        assert(r =~= seq![layer_move(true, face, (dim - k) as nat)] + rest);
        lemma_join_front(layer_move(true, face, (dim - k) as nat), rest);
    }
}

/// The wide turns from `i0` on: entry `k` is turn `k % 6` of the outer
/// `i0 + k / 6` layers.
proof fn lemma_deep_shape(dim: nat, i0: nat)
    requires
        i0 <= dim / 2 + 1,
    ensures
        deep_turns(dim, i0).len() == 6 * (dim / 2 + 1 - i0),
        forall|k: int| 0 <= k < deep_turns(dim, i0).len() ==> #[trigger] deep_turns(dim, i0)[k] == wide_turns(
            dim,
            (i0 + k / 6) as nat,
            decimal((i0 + k / 6) as nat),
        )[k % 6],
    decreases dim / 2 + 1 - i0,
{
    if i0 <= dim / 2 {
        lemma_deep_shape(dim, i0 + 1);
        let w = wide_turns(dim, i0, decimal(i0));
        let d = deep_turns(dim, i0 + 1);
        assert(deep_turns(dim, i0) == w + d);
        assert forall|k: int| 0 <= k < deep_turns(dim, i0).len() implies #[trigger] deep_turns(dim, i0)[k] == wide_turns(
            dim,
            (i0 + k / 6) as nat,
            decimal((i0 + k / 6) as nat),
        )[k % 6] by {
            if k < 6 {
                assert(k / 6 == 0 && k % 6 == k);
            } else {
                assert(deep_turns(dim, i0)[k] == d[k - 6]);
                assert((k - 6) / 6 == k / 6 - 1 && (k - 6) % 6 == k % 6);
            }
        }
    }
}

/// Two numbered wide-turn names are the same only for the same number and
/// letter.
proof fn lemma_numbered_same(i: nat, a: char, i2: nat, a2: char)
    requires
        decimal(i) + seq![a, 'w'] == decimal(i2) + seq![a2, 'w'],
    ensures
        i == i2 && a == a2,
{
    crate::text::lemma_decimal_digits(i);
    crate::text::lemma_decimal_digits(i2);
    let x = decimal(i) + seq![a, 'w'];
    let y = decimal(i2) + seq![a2, 'w'];
    assert(seq![a, 'w'].len() == 2 && seq![a2, 'w'].len() == 2);
    assert(x.len() == y.len());
    assert(decimal(i).len() == decimal(i2).len());
    let n = decimal(i).len() as int;
    assert(x[n] == a && y[n] == a2);
    assert(x.subrange(0, n) =~= decimal(i));
    assert(y.subrange(0, n) =~= decimal(i2));
}

/// The letter of the `x`-th wide turn.
spec fn wide_letter(x: int) -> char {
    seq!['U', 'R', 'B', 'F', 'L', 'D'][x]
}

proof fn lemma_numbered_name(dim: nat, q: nat, x: int)
    requires
        0 <= x < 6,
    ensures
        wide_turns(dim, q, decimal(q))[x].0 == decimal(q) + seq![wide_letter(x), 'w'],
{
}

/// The names of the plain turns from side 6 on: six letters, six two-layer
/// names ending in `w`, then entry `12 + k` the turn of the outer
/// `2 + k / 6` layers, letter `k % 6`.
proof fn lemma_plain_names(dim: nat)
    requires
        dim >= 6,
    ensures
        plain_turns(dim).len() >= 12,
        forall|k: int| 0 <= k < 6 ==> (#[trigger] plain_turns(dim)[k]).0.len() == 1,
        forall|k: int| 6 <= k < 12 ==> (#[trigger] plain_turns(dim)[k]).0.len() == 2 && plain_turns(dim)[k].0.last() == 'w',
        forall|k: int|
            12 <= k < plain_turns(dim).len() ==> #[trigger] plain_turns(dim)[k] == wide_turns(
                dim,
                (2 + (k - 12) / 6) as nat,
                decimal((2 + (k - 12) / 6) as nat),
            )[(k - 12) % 6],
        plain_turns(dim).len() == 12 + 6 * (dim / 2 - 1),
{
    let fs = face_turns(dim);
    let w1 = wide_turns(dim, 2, Seq::<char>::empty());
    let w2 = wide_turns(dim, 2, decimal(2)) + deep_turns(dim, 3);
    lemma_deep_shape(dim, 3);
    let b = plain_turns(dim);
    assert(b == fs + w1 + w2);
    assert forall|k: int| 0 <= k < 6 implies (#[trigger] b[k]).0.len() == 1 by {
        assert(b[k] == fs[k]);
    }
    assert forall|k: int| 6 <= k < 12 implies (#[trigger] b[k]).0.len() == 2 && b[k].0.last() == 'w' by {
        assert(b[k] == w1[k - 6]);
    }
    assert forall|k: int| 12 <= k < b.len() implies #[trigger] b[k] == wide_turns(
        dim,
        (2 + (k - 12) / 6) as nat,
        decimal((2 + (k - 12) / 6) as nat),
    )[(k - 12) % 6] by {
        let m = k - 12;
        assert(b[k] == w2[m]);
        if m >= 6 {
            assert(w2[m] == deep_turns(dim, 3)[m - 6]);
            assert((m - 6) / 6 == m / 6 - 1 && (m - 6) % 6 == m % 6);
        } else {
            assert(m / 6 == 0 && m % 6 == m);
        }
    }
}

/// The turn of the outer `i` layers (`{i}Uw`, ... for the `j`-th letter),
/// from side 6 on, is translated, and inverted, by its layer moves.
#[verifier::rlimit(40)]
proof fn lemma_deep_entry(dim: nat, i: nat, j: int)
    requires
        dim >= 6,
        2 <= i <= dim / 2,
        0 <= j < 6,
    ensures
        ({
            let f = wide_turns(dim, i, decimal(i))[j];
            &&& translates(translations(dim), f.0, f.1)
            &&& translates(translations(dim), f.0.push('\''), prime_of(f.1))
        }),
{
    lemma_plain_names(dim);
    let b = plain_turns(dim);
    let n = b.len();
    let tr = translations(dim);
    let pos = 12 + 6 * (i - 2) + j;
    assert((pos - 12) / 6 == i - 2 && (pos - 12) % 6 == j);
    let f = wide_turns(dim, i, decimal(i))[j];
    assert(b[pos] == f);
    crate::text::lemma_decimal_digits(i);
    lemma_numbered_name(dim, i, j);
    assert(f.0.len() >= 3 && f.0.last() == 'w');
    assert(tr.len() == 3 * n);
    assert forall|k: int| 0 <= k < n implies #[trigger] tr[k] == b[k] by {}
    assert forall|k: int| n <= k < 2 * n implies #[trigger] tr[k] == (b[k - n].0.push('2'), dotted(b[k - n].1, b[k - n].1)) by {}
    assert forall|k: int| 2 * n <= k < 3 * n implies #[trigger] tr[k] == (b[k - 2 * n].0.push('\''), prime_of(b[k - 2 * n].1)) by {}
    assert forall|k: int| 12 <= k < n implies (#[trigger] b[k]).0.last() == 'w' && (b[k].0 == f.0 ==> k == pos) by {
        let q = (2 + (k - 12) / 6) as nat;
        let x = (k - 12) % 6;
        lemma_numbered_name(dim, q, x);
        crate::text::lemma_decimal_digits(q);
        if b[k].0 == f.0 {
            lemma_numbered_same(i, wide_letter(j), q, wide_letter(x));
            assert(x == j) by {
                if x != j {
                    assert(wide_letter(x) != wide_letter(j));
                }
            }
        }
    }
    assert forall|k: int| 0 <= k < n && b[k].0 == f.0 implies k == pos by {
        if k < 12 {
            assert(b[k].0.len() <= 2);
        }
    }
    assert(tr[pos] == (f.0, f.1));
    assert(tr[2 * n + pos] == (f.0.push('\''), prime_of(f.1)));
    assert forall|k: int| 0 <= k < tr.len() && #[trigger] tr[k].0 == f.0 implies tr[k].1 == f.1 by {
        if k < n {
        } else if k < 2 * n {
            assert(tr[k].0.last() == '2');
        } else {
            assert(tr[k].0.last() == '\'');
        }
    }
    assert forall|k: int| 0 <= k < tr.len() && #[trigger] tr[k].0 == f.0.push('\'') implies tr[k].1 == prime_of(f.1) by {
        assert(f.0.push('\'').last() == '\'');
        assert(f.0.push('\'').len() >= 4);
        if k < n {
            if k < 12 {
                assert(b[k].0.len() <= 2);
            } else {
                assert(b[k].0.last() == 'w');
            }
        } else if k < 2 * n {
            assert(tr[k].0.last() == '2');
        } else {
            let m = k - 2 * n;
            assert(b[m].0 == f.0.push('\'').drop_last());
            assert(f.0.push('\'').drop_last() =~= f.0);
        }
    }
}

proof fn lemma_join_free(parts: Seq<Seq<char>>, ch: char)
    requires
        ch != '.',
        forall|k: int| 0 <= k < parts.len() ==> crate::text::free_of(#[trigger] parts[k], ch),
    ensures
        crate::text::free_of(join_seq(parts, '.'), ch),
    decreases parts.len(),
{
    if parts.len() >= 2 {
        let d = parts.drop_last();
        assert forall|k: int| 0 <= k < d.len() implies crate::text::free_of(#[trigger] d[k], ch) by {
            assert(d[k] == parts[k]);
        }
        lemma_join_free(d, ch);
        let a = join_seq(d, '.');
        let l = parts.last();
        assert(crate::text::free_of(l, ch)) by {
            assert(l == parts[parts.len() - 1]);
        }
        let v = a.push('.') + l;
        assert forall|x: int| 0 <= x < v.len() implies v[x] != ch by {
            if x < a.len() {
                assert(v[x] == a[x]);
            } else if x > a.len() {
                assert(v[x] == l[x - a.len() - 1]);
            }
        }
    } else if parts.len() == 1 {
        assert(crate::text::free_of(parts[0], ch));
    }
}

/// Inverting clockwise layer moves joined by `.` puts a `-` before each.
proof fn lemma_prime_run_plain(face: char, from: int, k: nat)
    requires
        face != '-' && face != '.',
        from >= 0,
        k >= 1,
    ensures
        prime_of(join_seq(layer_run(false, face, from, k), '.')) == join_seq(layer_run(true, face, from, k), '.'),
{
    let parts = layer_run(false, face, from, k);
    assert forall|x: int| 0 <= x < parts.len() implies crate::text::free_of(#[trigger] parts[x], '.') && crate::text::free_of(parts[x], '-') by {
        lemma_plain_free(face, (from + x) as nat);
    }
    assert(crate::text::parts_free_of(parts, '.'));
    crate::text::lemma_split_join(parts, '.');
    lemma_join_free(parts, '-');
    let v = join_seq(parts, '.');
    assert(!v.contains('-'));
    let m = parts.map_values(|p: Seq<char>| seq!['-'] + p);
    assert forall|x: int| 0 <= x < m.len() implies #[trigger] m[x] == layer_run(true, face, from, k)[x] by {
        assert(seq!['-'] + layer_move(false, face, (from + x) as nat) =~= layer_move(true, face, (from + x) as nat));
    }
    assert(m =~= layer_run(true, face, from, k));
}

/// Dropping the `-` signs of counter-clockwise layer moves joined by `.`
/// gives the clockwise ones.
proof fn lemma_dashes_run(face: char, from: int, k: nat)
    requires
        face != '-',
        from >= 0,
        k >= 1,
    ensures
        without_dashes(join_seq(layer_run(true, face, from, k), '.')) == join_seq(layer_run(false, face, from, k), '.'),
        join_seq(layer_run(true, face, from, k), '.').contains('-'),
    decreases k,
{
    let r = layer_run(true, face, from, k);
    let last = layer_move(true, face, (from + k - 1) as nat);
    lemma_prime_dashed(face, (from + k - 1) as nat);
    assert(last[0] == '-');
    assert(last.contains('-'));
    if k == 1 {
        assert(r.len() == 1 && r[0] == last);
        assert(layer_run(false, face, from, k).len() == 1);
    } else {
        lemma_dashes_run(face, from, (k - 1) as nat);
        assert(r.drop_last() =~= layer_run(true, face, from, (k - 1) as nat));
        assert(layer_run(false, face, from, k).drop_last() =~= layer_run(false, face, from, (k - 1) as nat));
        let a = join_seq(layer_run(true, face, from, (k - 1) as nat), '.');
        assert(join_seq(r, '.') == a.push('.') + last);
        assert(a.push('.') =~= a + seq!['.']);
        lemma_without_dashes_concat(a + seq!['.'], last);
        lemma_without_dashes_concat(a, seq!['.']);
        assert(seq!['.'].drop_last() =~= Seq::<char>::empty());
        assert(without_dashes(Seq::<char>::empty()) == Seq::<char>::empty());
        assert(seq!['.'].last() == '.');
        assert(without_dashes(seq!['.']) =~= seq!['.']);
        let v = join_seq(r, '.');
        assert(v[a.len() as int + 1] == '-');
    }
}

proof fn lemma_deep_front_letter(dim: nat, i: nat, j: int, letter: char, face: char)
    requires
        dim >= 6,
        2 <= i <= dim / 2,
        0 <= j < 6,
        wide_turns(dim, i, decimal(i))[j] == (decimal(i) + seq![letter, 'w'], wide_front(face, i)),
        face != '-' && face != '.',
    ensures
        translates(translations(dim), decimal(i) + seq![letter, 'w'], join_seq(layer_run(false, face, 0, i), '.')),
        translates(translations(dim), decimal(i) + seq![letter, 'w', '\''], join_seq(layer_run(true, face, 0, i), '.')),
{
    lemma_deep_entry(dim, i, j);
    lemma_wide_front_run(face, i);
    lemma_prime_run_plain(face, 0, i);
    assert((decimal(i) + seq![letter, 'w']).push('\'') =~= decimal(i) + seq![letter, 'w', '\'']);
}

proof fn lemma_deep_back_letter(dim: nat, i: nat, j: int, letter: char, face: char)
    requires
        dim >= 6,
        2 <= i <= dim / 2,
        0 <= j < 6,
        wide_turns(dim, i, decimal(i))[j] == (decimal(i) + seq![letter, 'w'], wide_back(dim, face, i)),
        face != '-' && face != '.',
    ensures
        translates(translations(dim), decimal(i) + seq![letter, 'w'], join_seq(layer_run(true, face, dim - i, i), '.')),
        translates(translations(dim), decimal(i) + seq![letter, 'w', '\''], join_seq(layer_run(false, face, dim - i, i), '.')),
{
    lemma_deep_entry(dim, i, j);
    lemma_wide_back_run(dim, face, i);
    lemma_dashes_run(face, dim - i, i);
    assert((decimal(i) + seq![letter, 'w']).push('\'') =~= decimal(i) + seq![letter, 'w', '\'']);
}

/// The turns of the outer `i` layers on a cube of side `dim >= 6`, for
/// `2 <= i <= dim / 2`, written with the number `i` before the letter:
/// `{i}Fw`, `{i}Rw` and `{i}Dw` are the clockwise moves of layers `0` to
/// `i - 1`, in that order, joined by `.`; `{i}Bw`, `{i}Lw` and `{i}Uw` the
/// counter-clockwise moves of layers `dim - i` to `dim - 1`. With `'` each
/// move turns the other way.
pub proof fn lemma_deep_letters(dim: nat, i: nat)
    requires
        dim >= 6,
        2 <= i <= dim / 2,
    ensures
        translates(translations(dim), decimal(i) + seq!['F', 'w'], join_seq(layer_run(false, 'f', 0, i), '.')),
        translates(translations(dim), decimal(i) + seq!['F', 'w', '\''], join_seq(layer_run(true, 'f', 0, i), '.')),
        translates(translations(dim), decimal(i) + seq!['R', 'w'], join_seq(layer_run(false, 'r', 0, i), '.')),
        translates(translations(dim), decimal(i) + seq!['R', 'w', '\''], join_seq(layer_run(true, 'r', 0, i), '.')),
        translates(translations(dim), decimal(i) + seq!['D', 'w'], join_seq(layer_run(false, 'd', 0, i), '.')),
        translates(translations(dim), decimal(i) + seq!['D', 'w', '\''], join_seq(layer_run(true, 'd', 0, i), '.')),
        translates(translations(dim), decimal(i) + seq!['B', 'w'], join_seq(layer_run(true, 'f', dim - i, i), '.')),
        translates(translations(dim), decimal(i) + seq!['B', 'w', '\''], join_seq(layer_run(false, 'f', dim - i, i), '.')),
        translates(translations(dim), decimal(i) + seq!['L', 'w'], join_seq(layer_run(true, 'r', dim - i, i), '.')),
        translates(translations(dim), decimal(i) + seq!['L', 'w', '\''], join_seq(layer_run(false, 'r', dim - i, i), '.')),
        translates(translations(dim), decimal(i) + seq!['U', 'w'], join_seq(layer_run(true, 'd', dim - i, i), '.')),
        translates(translations(dim), decimal(i) + seq!['U', 'w', '\''], join_seq(layer_run(false, 'd', dim - i, i), '.')),
{
    lemma_deep_back_letter(dim, i, 0, 'U', 'd');
    lemma_deep_front_letter(dim, i, 1, 'R', 'r');
    lemma_deep_back_letter(dim, i, 2, 'B', 'f');
    lemma_deep_front_letter(dim, i, 3, 'F', 'f');
    lemma_deep_back_letter(dim, i, 4, 'L', 'r');
    lemma_deep_front_letter(dim, i, 5, 'D', 'd');
}

} // verus!
