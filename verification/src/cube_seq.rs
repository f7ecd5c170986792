//! Move sequences (macros) that the cube solvers search over.
use vstd::prelude::*;
use crate::moves::{layer_move, rev_move, rev_move_spec, turn};
use crate::pieces::string_views;

verus! {

/// The views of a list of move sequences.
pub open spec fn seq_views(v: Seq<Vec<String>>) -> Seq<Seq<Seq<char>>> {
    v.map_values(|s: Vec<String>| string_views(s@))
}

/// Shorthand for the move `[-]face<i>`.
pub open spec fn mv(neg: bool, face: char, i: int) -> Seq<char> {
    layer_move(neg, face, i as nat)
}

/// `first, rot, last`; `first, rot, rot, last`; `first, inv, last`.
pub open spec fn conj3(first: Seq<char>, rot: Seq<char>, inv: Seq<char>, last: Seq<char>) -> Seq<
    Seq<Seq<char>>,
> {
    seq![seq![first, rot, last], seq![first, rot, rot, last], seq![first, inv, last]]
}

/// As `conj3`, with `first` and `last` doubled.
pub open spec fn conj3_double(
    first: Seq<char>,
    rot: Seq<char>,
    inv: Seq<char>,
    last: Seq<char>,
) -> Seq<Seq<Seq<char>>> {
    seq![
        seq![first, first, rot, last, last],
        seq![first, first, rot, rot, last, last],
        seq![first, first, inv, last, last],
    ]
}

/// `conj3` with the `f` layer `rev_pos`, then with the `f` layer `pos`.
pub open spec fn conj_both(dim: int, pos: int, rot: Seq<char>, inv: Seq<char>) -> Seq<
    Seq<Seq<char>>,
> {
    let rev = dim - 1 - pos;
    conj3(mv(true, 'f', rev), rot, inv, mv(false, 'f', rev)) + conj3(
        mv(true, 'f', pos),
        rot,
        inv,
        mv(false, 'f', pos),
    )
}

/// `conj3_double` with the `f` layer `rev_pos`, then with the `f` layer `pos`.
pub open spec fn conj_both_double(dim: int, pos: int, rot: Seq<char>, inv: Seq<char>) -> Seq<
    Seq<Seq<char>>,
> {
    let rev = dim - 1 - pos;
    conj3_double(mv(true, 'f', rev), rot, inv, mv(false, 'f', rev)) + conj3_double(
        mv(true, 'f', pos),
        rot,
        inv,
        mv(false, 'f', pos),
    )
}

/// The sequences that move the corner stickers of ring `pos` among faces 0, 2, 4, 5.
pub open spec fn four_corner_sequences(dim: int, pos: int) -> Seq<Seq<Seq<char>>> {
    let top = dim - 1;
    seq![
        seq![mv(true, 'r', 0)],
        seq![mv(false, 'r', 0)],
        seq![mv(false, 'r', top)],
        seq![mv(true, 'r', top)],
        seq![mv(true, 'd', 0)],
        seq![mv(false, 'd', 0)],
        seq![mv(false, 'd', top)],
        seq![mv(true, 'd', top)],
    ] + conj_both(dim, pos, mv(false, 'r', 0), mv(true, 'r', 0)) + conj_both(
        dim,
        pos,
        mv(false, 'd', 0),
        mv(true, 'd', 0),
    ) + conj_both(dim, pos, mv(true, 'r', top), mv(false, 'r', top)) + conj_both(
        dim,
        pos,
        mv(true, 'd', top),
        mv(false, 'd', top),
    ) + conj_both_double(dim, pos, mv(false, 'r', 0), mv(true, 'r', 0)) + conj_both_double(
        dim,
        pos,
        mv(false, 'd', 0),
        mv(true, 'd', 0),
    )
}

/// Appends a copy of the move `m`.
pub(crate) fn append_move(v: &mut Vec<String>, m: &String)
    ensures
        string_views(final(v)@) == string_views(old(v)@).push(m@),
{
    let ghost before = string_views(v@);
    v.push(m.clone());
    assert(string_views(v@) =~= before.push(m@));
}

/// Appends the sequence `v`.
pub(crate) fn push_seq(res: &mut Vec<Vec<String>>, v: Vec<String>)
    ensures
        seq_views(final(res)@) == seq_views(old(res)@).push(string_views(v@)),
{
    let ghost before = seq_views(res@);
    let ghost sv = string_views(v@);
    res.push(v);
    assert(seq_views(res@) =~= before.push(sv));
}

/// The one-move sequence `m`.
pub(crate) fn single(m: &String) -> (v: Vec<String>)
    ensures
        string_views(v@) == seq![m@],
{
    let mut v: Vec<String> = Vec::new();
    append_move(&mut v, m);
    assert(string_views(v@) =~= seq![m@]);
    v
}

fn conj3_into(
    res: &mut Vec<Vec<String>>,
    first: &String,
    rot: &String,
    inv: &String,
    last: &String,
    double: bool,
)
    ensures
        seq_views(final(res)@) == seq_views(old(res)@) + if double {
            conj3_double(first@, rot@, inv@, last@)
        } else {
            conj3(first@, rot@, inv@, last@)
        },
{
    let ghost start = seq_views(res@);
    let mut a: Vec<String> = Vec::new();
    let mut b: Vec<String> = Vec::new();
    let mut c: Vec<String> = Vec::new();
    append_move(&mut a, first);
    append_move(&mut b, first);
    append_move(&mut c, first);
    if double {
        append_move(&mut a, first);
        append_move(&mut b, first);
        append_move(&mut c, first);
    }
    append_move(&mut a, rot);
    append_move(&mut b, rot);
    append_move(&mut b, rot);
    append_move(&mut c, inv);
    append_move(&mut a, last);
    append_move(&mut b, last);
    append_move(&mut c, last);
    if double {
        append_move(&mut a, last);
        append_move(&mut b, last);
        append_move(&mut c, last);
    }
    let ghost (av, bv, cv) = (string_views(a@), string_views(b@), string_views(c@));
    push_seq(res, a);
    push_seq(res, b);
    push_seq(res, c);
    if double {
        assert(av =~= seq![first@, first@, rot@, last@, last@]);
        assert(bv =~= seq![first@, first@, rot@, rot@, last@, last@]);
        assert(cv =~= seq![first@, first@, inv@, last@, last@]);
    } else {
        assert(av =~= seq![first@, rot@, last@]);
        assert(bv =~= seq![first@, rot@, rot@, last@]);
        assert(cv =~= seq![first@, inv@, last@]);
    }
    assert(seq_views(res@) =~= start + if double {
        conj3_double(first@, rot@, inv@, last@)
    } else {
        conj3(first@, rot@, inv@, last@)
    });
}

pub(crate) fn conj_both_into(
    res: &mut Vec<Vec<String>>,
    dim: usize,
    pos: usize,
    rot: &String,
    inv: &String,
    double: bool,
)
    requires
        pos < dim,
    ensures
        seq_views(final(res)@) == seq_views(old(res)@) + if double {
            conj_both_double(dim as int, pos as int, rot@, inv@)
        } else {
            conj_both(dim as int, pos as int, rot@, inv@)
        },
{
    let ghost start = seq_views(res@);
    let rev_pos = dim - 1 - pos;
    let f_rev_minus = turn(true, 'f', rev_pos);
    let f_rev_plus = turn(false, 'f', rev_pos);
    let f_minus = turn(true, 'f', pos);
    let f_plus = turn(false, 'f', pos);
    conj3_into(res, &f_rev_minus, rot, inv, &f_rev_plus, double);
    conj3_into(res, &f_minus, rot, inv, &f_plus, double);
    assert(seq_views(res@) =~= start + if double {
        conj_both_double(dim as int, pos as int, rot@, inv@)
    } else {
        conj_both(dim as int, pos as int, rot@, inv@)
    });
}

/// The sequences that move the corner stickers of ring `pos` among faces 0,
/// 2, 4, 5: the eight single face turns, then each side turn conjugated by an
/// `f` layer turn.
pub fn sequence_moves_four_corner(dim: usize, pos: usize) -> (r: Vec<Vec<String>>)
    requires
        pos < dim,
    ensures
        seq_views(r@) == four_corner_sequences(dim as int, pos as int),
{
    let top = dim - 1;
    let r0_p = turn(false, 'r', 0);
    let r0_m = turn(true, 'r', 0);
    let d0_p = turn(false, 'd', 0);
    let d0_m = turn(true, 'd', 0);
    let l0_p = turn(true, 'r', top);
    let l0_m = turn(false, 'r', top);
    let u0_p = turn(true, 'd', top);
    let u0_m = turn(false, 'd', top);
    let mut res: Vec<Vec<String>> = Vec::new();
    push_seq(&mut res, single(&r0_m));
    push_seq(&mut res, single(&r0_p));
    push_seq(&mut res, single(&l0_m));
    push_seq(&mut res, single(&l0_p));
    push_seq(&mut res, single(&d0_m));
    push_seq(&mut res, single(&d0_p));
    push_seq(&mut res, single(&u0_m));
    push_seq(&mut res, single(&u0_p));
    let ghost singles = seq_views(res@);
    conj_both_into(&mut res, dim, pos, &r0_p, &r0_m, false);
    conj_both_into(&mut res, dim, pos, &d0_p, &d0_m, false);
    conj_both_into(&mut res, dim, pos, &l0_p, &l0_m, false);
    conj_both_into(&mut res, dim, pos, &u0_p, &u0_m, false);
    conj_both_into(&mut res, dim, pos, &r0_p, &r0_m, true);
    conj_both_into(&mut res, dim, pos, &d0_p, &d0_m, true);
    assert(singles =~= seq![
        seq![mv(true, 'r', 0)],
        seq![mv(false, 'r', 0)],
        seq![mv(false, 'r', top as int)],
        seq![mv(true, 'r', top as int)],
        seq![mv(true, 'd', 0)],
        seq![mv(false, 'd', 0)],
        seq![mv(false, 'd', top as int)],
        seq![mv(true, 'd', top as int)],
    ]);
    assert(seq_views(res@) =~= four_corner_sequences(dim as int, pos as int));
    res
}

} // verus!

verus! {

/// The sequence that undoes `r`: its moves inverted, in reverse order.
pub open spec fn inverse(r: Seq<Seq<char>>) -> Seq<Seq<char>> {
    Seq::new(r.len(), |i: int| rev_move_spec(r[r.len() - 1 - i]))
}

/// Each sequence followed by its inverse.
pub open spec fn with_inverses(rs: Seq<Seq<Seq<char>>>) -> Seq<Seq<Seq<char>>>
    decreases rs.len(),
{
    if rs.len() == 0 {
        Seq::<Seq<Seq<char>>>::empty()
    } else {
        with_inverses(rs.drop_last()).push(rs.last()).push(inverse(rs.last()))
    }
}

/// Commutator `first rot second rot' first' rot second'`.
pub open spec fn comm7(first: Seq<char>, second: Seq<char>, rot: Seq<char>) -> Seq<Seq<char>> {
    seq![
        first,
        rot,
        second,
        rev_move_spec(rot),
        rev_move_spec(first),
        rot,
        rev_move_spec(second),
    ]
}

/// As `comm7` with two rotating moves turned together.
pub open spec fn comm10(first: Seq<char>, second: Seq<char>, r0: Seq<char>, r1: Seq<char>) -> Seq<
    Seq<char>,
> {
    seq![
        first,
        r0,
        r1,
        second,
        rev_move_spec(r0),
        rev_move_spec(r1),
        rev_move_spec(first),
        r0,
        r1,
        rev_move_spec(second),
    ]
}

/// As `comm7` with `first` and `second` doubled.
pub open spec fn comm11(first: Seq<char>, second: Seq<char>, rot: Seq<char>) -> Seq<Seq<char>> {
    seq![
        first,
        first,
        rot,
        second,
        second,
        rev_move_spec(rot),
        rev_move_spec(first),
        rev_move_spec(first),
        rot,
        rev_move_spec(second),
        rev_move_spec(second),
    ]
}

/// As `comm10` with `first` and `second` doubled.
pub open spec fn comm14(first: Seq<char>, second: Seq<char>, r0: Seq<char>, r1: Seq<char>) -> Seq<
    Seq<char>,
> {
    seq![
        first,
        first,
        r0,
        r1,
        second,
        second,
        rev_move_spec(r0),
        rev_move_spec(r1),
        rev_move_spec(first),
        rev_move_spec(first),
        r0,
        r1,
        rev_move_spec(second),
        rev_move_spec(second),
    ]
}

/// The `f` layer moves around the four-cycle at row `y`, column `x`, in the
/// order `-f(N-1-y), -f(N-1-x), -f(x), f(y), f(x), f(N-1-x), -f(y), f(N-1-y)`.
pub open spec fn edge_layers(dim: int, y: int, x: int) -> Seq<Seq<char>> {
    let rev_x = dim - 1 - x;
    let rev_y = dim - 1 - y;
    seq![
        mv(true, 'f', rev_y),
        mv(true, 'f', rev_x),
        mv(true, 'f', x),
        mv(false, 'f', y),
        mv(false, 'f', x),
        mv(false, 'f', rev_x),
        mv(true, 'f', y),
        mv(false, 'f', rev_y),
    ]
}

/// The eight `comm7` sequences for one side move `plus`.
pub open spec fn block7(l: Seq<Seq<char>>, plus: Seq<char>) -> Seq<Seq<Seq<char>>> {
    let m = rev_move_spec(plus);
    seq![
        comm7(l[0], l[1], plus),
        comm7(l[0], l[2], m),
        comm7(l[3], l[4], plus),
        comm7(l[3], l[5], m),
        comm7(l[6], l[1], m),
        comm7(l[6], l[2], plus),
        comm7(l[7], l[4], m),
        comm7(l[7], l[5], plus),
    ]
}

/// The eight `comm10` sequences for one pair of opposite side moves.
pub open spec fn block10(l: Seq<Seq<char>>, p0: Seq<char>, p1: Seq<char>) -> Seq<Seq<Seq<char>>> {
    let m0 = rev_move_spec(p0);
    let m1 = rev_move_spec(p1);
    seq![
        comm10(l[0], l[1], p0, p1),
        comm10(l[0], l[2], m0, m1),
        comm10(l[3], l[4], p0, p1),
        comm10(l[3], l[5], m0, m1),
        comm10(l[6], l[1], m0, m1),
        comm10(l[6], l[2], p0, p1),
        comm10(l[7], l[4], m0, m1),
        comm10(l[7], l[5], p0, p1),
    ]
}

/// The four `comm11` sequences for one side move `plus`.
pub open spec fn block11(l: Seq<Seq<char>>, plus: Seq<char>) -> Seq<Seq<Seq<char>>> {
    let m = rev_move_spec(plus);
    seq![
        comm11(l[0], l[1], plus),
        comm11(l[3], l[4], plus),
        comm11(l[6], l[1], m),
        comm11(l[7], l[4], m),
    ]
}

/// The sequences, before adding inverses, that move the stickers of the
/// four-cycle at row `y`, column `x` among faces 0, 2, 4, 5.
pub open spec fn four_edge_base(dim: int, y: int, x: int) -> Seq<Seq<Seq<char>>> {
    let l = edge_layers(dim, y, x);
    let r0 = mv(false, 'r', 0);
    let d0 = mv(false, 'd', 0);
    let l0 = mv(true, 'r', dim - 1);
    let u0 = mv(true, 'd', dim - 1);
    seq![seq![r0], seq![l0], seq![d0], seq![u0]] + block7(l, r0) + block7(l, d0) + block7(l, l0)
        + block7(l, u0) + block10(l, r0, l0) + block10(l, d0, u0) + block11(l, r0) + block11(
        l,
        d0,
    ) + block11(l, l0) + block11(l, u0) + seq![comm14(l[0], l[1], r0, l0)] + seq![
        comm14(l[0], l[1], d0, u0),
    ]
}

/// Appends `inverse(r)`.
fn inverse_seq(r: &Vec<String>) -> (v: Vec<String>)
    ensures
        string_views(v@) == inverse(string_views(r@)),
{
    let mut v: Vec<String> = Vec::new();
    let n = r.len();
    let mut i: usize = 0;
    while i < n
        invariant
            n == r.len(),
            i <= n,
            string_views(v@) == inverse(string_views(r@)).take(i as int),
        decreases n - i,
    {
        let m = rev_move(&r[n - 1 - i]);
        let ghost before = string_views(v@);
        v.push(m);
        assert(string_views(v@) =~= before.push(rev_move_spec(r@[n - 1 - i]@)));
        assert(inverse(string_views(r@)).take(i + 1) =~= inverse(string_views(r@)).take(
            i as int,
        ).push(rev_move_spec(r@[n - 1 - i]@)));
        i = i + 1;
    }
    assert(inverse(string_views(r@)).take(n as int) =~= inverse(string_views(r@)));
    v
}

fn comm7_seq(first: &String, second: &String, rot: &String) -> (v: Vec<String>)
    ensures
        string_views(v@) == comm7(first@, second@, rot@),
{
    let rf = rev_move(first);
    let rs = rev_move(second);
    let rr = rev_move(rot);
    let mut v: Vec<String> = Vec::new();
    append_move(&mut v, first);
    append_move(&mut v, rot);
    append_move(&mut v, second);
    append_move(&mut v, &rr);
    append_move(&mut v, &rf);
    append_move(&mut v, rot);
    append_move(&mut v, &rs);
    assert(string_views(v@) =~= comm7(first@, second@, rot@));
    v
}

fn comm10_seq(first: &String, second: &String, r0: &String, r1: &String) -> (v: Vec<String>)
    ensures
        string_views(v@) == comm10(first@, second@, r0@, r1@),
{
    let rf = rev_move(first);
    let rs = rev_move(second);
    let m0 = rev_move(r0);
    let m1 = rev_move(r1);
    let mut v: Vec<String> = Vec::new();
    append_move(&mut v, first);
    append_move(&mut v, r0);
    append_move(&mut v, r1);
    append_move(&mut v, second);
    append_move(&mut v, &m0);
    append_move(&mut v, &m1);
    append_move(&mut v, &rf);
    append_move(&mut v, r0);
    append_move(&mut v, r1);
    append_move(&mut v, &rs);
    assert(string_views(v@) =~= comm10(first@, second@, r0@, r1@));
    v
}

fn comm11_seq(first: &String, second: &String, rot: &String) -> (v: Vec<String>)
    ensures
        string_views(v@) == comm11(first@, second@, rot@),
{
    let rf = rev_move(first);
    let rs = rev_move(second);
    let rr = rev_move(rot);
    let mut v: Vec<String> = Vec::new();
    append_move(&mut v, first);
    append_move(&mut v, first);
    append_move(&mut v, rot);
    append_move(&mut v, second);
    append_move(&mut v, second);
    append_move(&mut v, &rr);
    append_move(&mut v, &rf);
    append_move(&mut v, &rf);
    append_move(&mut v, rot);
    append_move(&mut v, &rs);
    append_move(&mut v, &rs);
    assert(string_views(v@) =~= comm11(first@, second@, rot@));
    v
}

fn comm14_seq(first: &String, second: &String, r0: &String, r1: &String) -> (v: Vec<String>)
    ensures
        string_views(v@) == comm14(first@, second@, r0@, r1@),
{
    let rf = rev_move(first);
    let rs = rev_move(second);
    let m0 = rev_move(r0);
    let m1 = rev_move(r1);
    let mut v: Vec<String> = Vec::new();
    append_move(&mut v, first);
    append_move(&mut v, first);
    append_move(&mut v, r0);
    append_move(&mut v, r1);
    append_move(&mut v, second);
    append_move(&mut v, second);
    append_move(&mut v, &m0);
    append_move(&mut v, &m1);
    append_move(&mut v, &rf);
    append_move(&mut v, &rf);
    append_move(&mut v, r0);
    append_move(&mut v, r1);
    append_move(&mut v, &rs);
    append_move(&mut v, &rs);
    assert(string_views(v@) =~= comm14(first@, second@, r0@, r1@));
    v
}

fn block7_into(res: &mut Vec<Vec<String>>, l: &Vec<String>, plus: &String)
    requires
        l.len() == 8,
    ensures
        seq_views(final(res)@) == seq_views(old(res)@) + block7(string_views(l@), plus@),
{
    let ghost start = seq_views(res@);
    let m = rev_move(plus);
    push_seq(res, comm7_seq(&l[0], &l[1], plus));
    push_seq(res, comm7_seq(&l[0], &l[2], &m));
    push_seq(res, comm7_seq(&l[3], &l[4], plus));
    push_seq(res, comm7_seq(&l[3], &l[5], &m));
    push_seq(res, comm7_seq(&l[6], &l[1], &m));
    push_seq(res, comm7_seq(&l[6], &l[2], plus));
    push_seq(res, comm7_seq(&l[7], &l[4], &m));
    push_seq(res, comm7_seq(&l[7], &l[5], plus));
    assert(seq_views(res@) =~= start + block7(string_views(l@), plus@));
}

fn block10_into(res: &mut Vec<Vec<String>>, l: &Vec<String>, p0: &String, p1: &String)
    requires
        l.len() == 8,
    ensures
        seq_views(final(res)@) == seq_views(old(res)@) + block10(string_views(l@), p0@, p1@),
{
    let ghost start = seq_views(res@);
    let m0 = rev_move(p0);
    let m1 = rev_move(p1);
    push_seq(res, comm10_seq(&l[0], &l[1], p0, p1));
    push_seq(res, comm10_seq(&l[0], &l[2], &m0, &m1));
    push_seq(res, comm10_seq(&l[3], &l[4], p0, p1));
    push_seq(res, comm10_seq(&l[3], &l[5], &m0, &m1));
    push_seq(res, comm10_seq(&l[6], &l[1], &m0, &m1));
    push_seq(res, comm10_seq(&l[6], &l[2], p0, p1));
    push_seq(res, comm10_seq(&l[7], &l[4], &m0, &m1));
    push_seq(res, comm10_seq(&l[7], &l[5], p0, p1));
    assert(seq_views(res@) =~= start + block10(string_views(l@), p0@, p1@));
}

fn block11_into(res: &mut Vec<Vec<String>>, l: &Vec<String>, plus: &String)
    requires
        l.len() == 8,
    ensures
        seq_views(final(res)@) == seq_views(old(res)@) + block11(string_views(l@), plus@),
{
    let ghost start = seq_views(res@);
    let m = rev_move(plus);
    push_seq(res, comm11_seq(&l[0], &l[1], plus));
    push_seq(res, comm11_seq(&l[3], &l[4], plus));
    push_seq(res, comm11_seq(&l[6], &l[1], &m));
    push_seq(res, comm11_seq(&l[7], &l[4], &m));
    assert(seq_views(res@) =~= start + block11(string_views(l@), plus@));
}

fn edge_layer_vec(dim: usize, y: usize, x: usize) -> (v: Vec<String>)
    requires
        y < dim,
        x < dim,
    ensures
        v.len() == 8,
        string_views(v@) == edge_layers(dim as int, y as int, x as int),
{
    let rev_x = dim - 1 - x;
    let rev_y = dim - 1 - y;
    let mut v: Vec<String> = Vec::new();
    v.push(turn(true, 'f', rev_y));
    v.push(turn(true, 'f', rev_x));
    v.push(turn(true, 'f', x));
    v.push(turn(false, 'f', y));
    v.push(turn(false, 'f', x));
    v.push(turn(false, 'f', rev_x));
    v.push(turn(true, 'f', y));
    v.push(turn(false, 'f', rev_y));
    assert(string_views(v@) =~= edge_layers(dim as int, y as int, x as int));
    v
}

/// The sequences that move the stickers of the four-cycle at row `y`, column
/// `x` among faces 0, 2, 4, 5: each base sequence followed by its inverse.
pub fn sequence_moves_four_edge(dim: usize, y: usize, x: usize) -> (r: Vec<Vec<String>>)
    requires
        y != x,
        y < dim,
        x < dim,
    ensures
        seq_views(r@) == with_inverses(four_edge_base(dim as int, y as int, x as int)),
{
    let l = edge_layer_vec(dim, y, x);
    let ghost lv = string_views(l@);
    let r0_p = turn(false, 'r', 0);
    let d0_p = turn(false, 'd', 0);
    let l0_p = turn(true, 'r', dim - 1);
    let u0_p = turn(true, 'd', dim - 1);
    let mut res_plus: Vec<Vec<String>> = Vec::new();
    push_seq(&mut res_plus, single(&r0_p));
    push_seq(&mut res_plus, single(&l0_p));
    push_seq(&mut res_plus, single(&d0_p));
    push_seq(&mut res_plus, single(&u0_p));
    block7_into(&mut res_plus, &l, &r0_p);
    block7_into(&mut res_plus, &l, &d0_p);
    block7_into(&mut res_plus, &l, &l0_p);
    block7_into(&mut res_plus, &l, &u0_p);
    block10_into(&mut res_plus, &l, &r0_p, &l0_p);
    block10_into(&mut res_plus, &l, &d0_p, &u0_p);
    block11_into(&mut res_plus, &l, &r0_p);
    block11_into(&mut res_plus, &l, &d0_p);
    block11_into(&mut res_plus, &l, &l0_p);
    block11_into(&mut res_plus, &l, &u0_p);
    push_seq(&mut res_plus, comm14_seq(&l[0], &l[1], &r0_p, &l0_p));
    push_seq(&mut res_plus, comm14_seq(&l[0], &l[1], &d0_p, &u0_p));
    let ghost base = four_edge_base(dim as int, y as int, x as int);
    assert(seq_views(res_plus@) =~= base);
    let mut res: Vec<Vec<String>> = Vec::new();
    let mut k: usize = 0;
    while k < res_plus.len()
        invariant
            k <= res_plus.len(),
            seq_views(res_plus@) == base,
            seq_views(res@) == with_inverses(base.take(k as int)),
        decreases res_plus.len() - k,
    {
        let inv = inverse_seq(&res_plus[k]);
        let mut copy: Vec<String> = Vec::new();
        let mut j: usize = 0;
        while j < res_plus[k].len()
            invariant
                k < res_plus.len(),
                j <= res_plus[k as int].len(),
                string_views(copy@) == string_views(res_plus[k as int]@).take(j as int),
            decreases res_plus[k as int].len() - j,
        {
            append_move(&mut copy, &res_plus[k][j]);
            assert(string_views(res_plus[k as int]@).take(j + 1) =~= string_views(
                res_plus[k as int]@,
            ).take(j as int).push(res_plus[k as int]@[j as int]@));
            j = j + 1;
        }
        assert(string_views(res_plus[k as int]@).take(j as int) =~= string_views(
            res_plus[k as int]@,
        ));
        push_seq(&mut res, copy);
        push_seq(&mut res, inv);
        assert(base.take(k + 1).drop_last() =~= base.take(k as int));
        assert(base.take(k + 1).last() == base[k as int]);
        k = k + 1;
    }
    assert(base.take(res_plus.len() as int) =~= base);
    res
}

} // verus!
