//! Cube states in the face-letter form read by an outside cube solver: each
//! sticker's colour letter mapped to a face name (`U F R B L D`), and the
//! faces put in the order `U R F D L B`.
use vstd::prelude::*;
use crate::{calc_dim, is_side_of};
use crate::text::{
    chars_of, parses_as_usize, parse_usize_from, split_chars, split_seq, string_of, usize_value,
    views,
};

verus! {

/// The face name of colour letter `c`.
pub open spec fn ubl_of(c: char) -> Option<char> {
    if c == 'A' {
        Some('U')
    } else if c == 'B' {
        Some('F')
    } else if c == 'C' {
        Some('R')
    } else if c == 'D' {
        Some('B')
    } else if c == 'E' {
        Some('L')
    } else if c == 'F' {
        Some('D')
    } else {
        None
    }
}

fn ubl_char(c: char) -> (r: Option<char>)
    ensures
        r == ubl_of(c),
{
    if c == 'A' {
        Some('U')
    } else if c == 'B' {
        Some('F')
    } else if c == 'C' {
        Some('R')
    } else if c == 'D' {
        Some('B')
    } else if c == 'E' {
        Some('L')
    } else if c == 'F' {
        Some('D')
    } else {
        None
    }
}

/// The smallest side length from `i` on (below 50) of a cube with `l`
/// stickers, or 0 when there is none.
pub open spec fn first_side(l: int, i: int) -> int
    decreases 50 - i,
{
    if i >= 50 || i < 1 {
        0
    } else if is_side_of(i, l) {
        i
    } else {
        first_side(l, i + 1)
    }
}

proof fn lemma_first_side(l: int, d: int, i: int)
    requires
        1 <= i <= d < 50,
        is_side_of(d, l),
        forall|j: int| 1 <= j < d ==> !#[trigger] is_side_of(j, l),
    ensures
        first_side(l, i) == d,
    decreases d - i,
{
    if i < d {
        assert(!is_side_of(i, l));
        lemma_first_side(l, d, i + 1);
    }
}

/// The parts are the stickers of a cube (their count is six times a square
/// side below 50), each starting with a colour letter `A` to `F`.
pub open spec fn ubl_ok(parts: Seq<Seq<char>>) -> bool {
    &&& exists|i: int| 1 <= i < 50 && #[trigger] is_side_of(i, parts.len() as int)
    &&& forall|k: int| 0 <= k < parts.len() ==> #[trigger] parts[k].len() > 0 && ubl_of(parts[k][0]) is Some
}

/// The face name of the first letter of each part.
pub open spec fn face_letters(parts: Seq<Seq<char>>) -> Seq<char> {
    Seq::new(parts.len(), |k: int| ubl_of(parts[k][0])->0)
}

/// The faces of `s` (each `d2` letters) in the order 0, 2, 1, 5 (with all
/// that follows it), 4, 3.
pub open spec fn ubl_order(s: Seq<char>, d2: int) -> Seq<char> {
    s.subrange(0, d2) + s.subrange(2 * d2, 3 * d2) + s.subrange(d2, 2 * d2) + s.subrange(5 * d2, s.len() as int)
        + s.subrange(4 * d2, 5 * d2) + s.subrange(3 * d2, 4 * d2)
}

/// The face-letter form of a cube state given by its parts.
pub open spec fn ubl_spec(parts: Seq<Seq<char>>) -> Seq<char> {
    let d = first_side(parts.len() as int, 1);
    ubl_order(face_letters(parts), d * d)
}

fn append_range(dst: &mut Vec<char>, src: &Vec<char>, from: usize, to: usize)
    requires
        from <= to <= src.len(),
    ensures
        final(dst)@ == old(dst)@ + src@.subrange(from as int, to as int),
{
    let mut i = from;
    while i < to
        invariant
            from <= i <= to <= src.len(),
            dst@ == old(dst)@ + src@.subrange(from as int, i as int),
        decreases to - i,
    {
        dst.push(src[i]);
        assert(dst@ =~= old(dst)@ + src@.subrange(from as int, i + 1));
        i = i + 1;
    }
}

/// The face-letter form of a cube state given by its parts.
fn ubl_of_parts(parts: &Vec<Vec<char>>) -> (r: String)
    requires
        ubl_ok(views(parts@)),
    ensures
        r@ == ubl_spec(views(parts@)),
{
    let ghost ps = views(parts@);
    let dim = calc_dim(parts.len());
    proof {
        lemma_first_side(parts.len() as int, dim as int, 1);
    }
    assert(dim * dim <= 2500) by (nonlinear_arith)
        requires
            dim < 50,
    ;
    let d2 = dim * dim;
    assert(6 * d2 <= parts.len());
    let mut s: Vec<char> = Vec::new();
    let mut i: usize = 0;
    while i < parts.len()
        invariant
            i <= parts.len(),
            ps == views(parts@),
            ubl_ok(ps),
            s@ == face_letters(ps).take(i as int),
        decreases parts.len() - i,
    {
        assert(ps[i as int] == parts@[i as int]@);
        assert(ps[i as int].len() > 0);
        let c = parts[i][0];
        let u = match ubl_char(c) {
            Some(u) => u,
            None => {
                assert(false);
                ' '
            },
        };
        s.push(u);
        assert(s@ =~= face_letters(ps).take(i + 1));
        i = i + 1;
    }
    assert(s@ =~= face_letters(ps));
    let mut r: Vec<char> = Vec::new();
    append_range(&mut r, &s, 0, d2);
    append_range(&mut r, &s, 2 * d2, 3 * d2);
    append_range(&mut r, &s, d2, 2 * d2);
    append_range(&mut r, &s, 5 * d2, s.len());
    append_range(&mut r, &s, 4 * d2, 5 * d2);
    append_range(&mut r, &s, 3 * d2, 4 * d2);
    assert(r@ =~= ubl_spec(ps));
    string_of(&r)
}

/// The face-letter form of a cube state (colour letters joined by `;`).
pub fn state2ubl(state: &str) -> (r: String)
    requires
        ubl_ok(split_seq(state@, ';')),
    ensures
        r@ == ubl_spec(split_seq(state@, ';')),
{
    let text = chars_of(state);
    let parts = split_chars(&text, ';');
    ubl_of_parts(&parts)
}

/// The colour that a checkered cube shows where `c` is: each letter moved
/// one back (`B` to `A`, ..., `A` to `F`).
pub open spec fn checker_of(c: Seq<char>) -> Option<char> {
    if c == seq!['B'] {
        Some('A')
    } else if c == seq!['C'] {
        Some('B')
    } else if c == seq!['D'] {
        Some('C')
    } else if c == seq!['E'] {
        Some('D')
    } else if c == seq!['F'] {
        Some('E')
    } else if c == seq!['A'] {
        Some('F')
    } else {
        None
    }
}

/// Sticker `i` of a cube of side `dim` is on an odd square of its face.
pub open spec fn odd_cell(i: int, dim: int) -> bool {
    ((i % (dim * dim)) / dim + (i % (dim * dim)) % dim) % 2 == 1
}

/// The parts with those on odd squares replaced as `checker_of` says.
pub open spec fn checker_parts(parts: Seq<Seq<char>>, dim: int) -> Seq<Seq<char>> {
    Seq::new(parts.len(), |i: int| if odd_cell(i, dim) { seq![checker_of(parts[i])->0] } else { parts[i] })
}

/// What `checker_state2cbl` accepts: a positive side, a letter `A` to `F`
/// on each odd square, and a cube state once they are replaced.
pub open spec fn checker_ok(parts: Seq<Seq<char>>, dim: int) -> bool {
    &&& 1 <= dim
    &&& dim * dim <= usize::MAX
    &&& forall|i: int| 0 <= i < parts.len() && odd_cell(i, dim) ==> #[trigger] checker_of(parts[i]) is Some
    &&& ubl_ok(checker_parts(parts, dim))
}

fn checker_letter(c: &Vec<char>) -> (r: Option<char>)
    ensures
        r == checker_of(c@),
{
    if c.len() != 1 {
        assert(c@.len() != 1);
        return None;
    }
    let x = c[0];
    assert(c@ =~= seq![x]);
    if x == 'B' {
        Some('A')
    } else if x == 'C' {
        Some('B')
    } else if x == 'D' {
        Some('C')
    } else if x == 'E' {
        Some('D')
    } else if x == 'F' {
        Some('E')
    } else if x == 'A' {
        Some('F')
    } else {
        None
    }
}

/// The face-letter form of a checkered cube: on every odd square of each
/// face the colour letter is moved one back before the state is written.
pub fn checker_state2cbl(init_state: &str, dim: usize) -> (r: String)
    requires
        checker_ok(split_seq(init_state@, ';'), dim as int),
    ensures
        r@ == ubl_spec(checker_parts(split_seq(init_state@, ';'), dim as int)),
{
    assert(dim * dim >= 1) by (nonlinear_arith)
        requires
            dim >= 1,
    ;
    let dim2 = dim * dim;
    let text = chars_of(init_state);
    let parts = split_chars(&text, ';');
    let ghost ps = views(parts@);
    let mut out: Vec<Vec<char>> = Vec::new();
    let mut i: usize = 0;
    while i < parts.len()
        invariant
            i <= parts.len(),
            ps == views(parts@),
            ps == split_seq(init_state@, ';'),
            dim2 == dim * dim,
            dim2 >= 1,
            checker_ok(ps, dim as int),
            views(out@) == checker_parts(ps, dim as int).take(i as int),
        decreases parts.len() - i,
    {
        let x = i % dim2 / dim;
        let y = i % dim2 % dim;
        assert(x < dim) by (nonlinear_arith)
            requires
                x == (i % dim2) / dim,
                i % dim2 < dim2,
                dim2 == dim * dim,
                dim >= 1,
        ;
        assert(dim == 1 || 2 * dim <= dim * dim) by (nonlinear_arith)
            requires
                dim >= 1,
        ;
        let ghost before = views(out@);
        if (x + y) % 2 == 1 {
            assert(odd_cell(i as int, dim as int));
            assert(ps[i as int] == parts@[i as int]@);
            assert(checker_of(ps[i as int]) is Some);
            let c = match checker_letter(&parts[i]) {
                Some(c) => c,
                None => {
                    assert(false);
                    ' '
                },
            };
            let mut v: Vec<char> = Vec::new();
            v.push(c);
            out.push(v);
            assert(views(out@) =~= before.push(seq![c]));
        } else {
            assert(!odd_cell(i as int, dim as int));
            let mut v: Vec<char> = Vec::new();
            let mut j: usize = 0;
            while j < parts[i].len()
                invariant
                    i < parts.len(),
                    j <= parts@[i as int].len(),
                    v@ == parts@[i as int]@.take(j as int),
                decreases parts@[i as int].len() - j,
            {
                v.push(parts[i][j]);
                assert(v@ =~= parts@[i as int]@.take(j + 1));
                j = j + 1;
            }
            assert(v@ =~= parts@[i as int]@);
            out.push(v);
            assert(views(out@) =~= before.push(ps[i as int]));
        }
        assert(views(out@) =~= checker_parts(ps, dim as int).take(i + 1));
        i = i + 1;
    }
    assert(views(out@) =~= checker_parts(ps, dim as int));
    ubl_of_parts(&out)
}

/// The colour letter of a sticker named by its number: `A` for the first
/// face's `dim * dim` numbers, `B` for the next, and so on.
pub open spec fn distinct_letter(part: Seq<char>, dim: int) -> char {
    let n = (usize_value(part.skip(1)) as int) / (dim * dim);
    if n == 0 { 'A' } else if n == 1 { 'B' } else if n == 2 { 'C' } else if n == 3 { 'D' } else if n == 4 { 'E' } else { 'F' }
}

/// The colour letters of stickers named by their numbers.
pub open spec fn distinct_parts(parts: Seq<Seq<char>>, dim: int) -> Seq<Seq<char>> {
    Seq::new(parts.len(), |i: int| seq![distinct_letter(parts[i], dim)])
}

/// What `distinct_state2ubl` accepts: a positive side, and stickers that are
/// a letter then a number below `6 * dim * dim`, as many as a cube has.
pub open spec fn distinct_ok(parts: Seq<Seq<char>>, dim: int) -> bool {
    &&& 1 <= dim
    &&& dim * dim <= usize::MAX
    &&& exists|i: int| 1 <= i < 50 && #[trigger] is_side_of(i, parts.len() as int)
    &&& forall|k: int| 0 <= k < parts.len() ==> #[trigger] parts[k].len() >= 1 && parses_as_usize(parts[k].skip(1))
        && (usize_value(parts[k].skip(1)) as int) / (dim * dim) < 6
}

/// The face-letter form of a cube whose stickers are named by their
/// numbers: each number gives the colour of its face.
pub fn distinct_state2ubl(init_state: &str, dim: usize) -> (r: String)
    requires
        distinct_ok(split_seq(init_state@, ';'), dim as int),
    ensures
        r@ == ubl_spec(distinct_parts(split_seq(init_state@, ';'), dim as int)),
{
    assert(dim * dim >= 1) by (nonlinear_arith)
        requires
            dim >= 1,
    ;
    let dim2 = dim * dim;
    let text = chars_of(init_state);
    let parts = split_chars(&text, ';');
    let ghost ps = views(parts@);
    let mut out: Vec<Vec<char>> = Vec::new();
    let mut i: usize = 0;
    while i < parts.len()
        invariant
            i <= parts.len(),
            ps == views(parts@),
            ps == split_seq(init_state@, ';'),
            dim2 == dim * dim,
            dim2 >= 1,
            distinct_ok(ps, dim as int),
            views(out@) == distinct_parts(ps, dim as int).take(i as int),
        decreases parts.len() - i,
    {
        assert(ps[i as int] == parts@[i as int]@);
        let n = parse_usize_from(&parts[i], 1) / dim2;
        let c = if n == 0 {
            'A'
        } else if n == 1 {
            'B'
        } else if n == 2 {
            'C'
        } else if n == 3 {
            'D'
        } else if n == 4 {
            'E'
        } else {
            'F'
        };
        let ghost before = views(out@);
        let mut v: Vec<char> = Vec::new();
        v.push(c);
        out.push(v);
        assert(views(out@) =~= before.push(seq![c]));
        assert(views(out@) =~= distinct_parts(ps, dim as int).take(i + 1));
        i = i + 1;
    }
    assert(views(out@) =~= distinct_parts(ps, dim as int));
    assert(ubl_ok(views(out@))) by {
        assert(views(out@).len() == ps.len());
        assert forall|k: int| 0 <= k < views(out@).len() implies #[trigger] views(out@)[k].len() > 0 && ubl_of(views(out@)[k][0]) is Some by {
            assert(views(out@)[k] == seq![distinct_letter(ps[k], dim as int)]);
        }
    }
    ubl_of_parts(&out)
}

} // verus!
