//! The globe solver on a puzzle: the first phase, then the second, their
//! moves joined.
use vstd::prelude::*;
use crate::globe::{setup_result, GlobeCtx, Puzzle};
use crate::globe_beam::move_names;
use crate::globe_first::{first_found, first_moves_with_manual};
use crate::globe_greedy::{greedy_result, resolve_inversion_greedy};
use crate::perm::MoveTable;
use crate::text::{chars_of, join_seq, string_of};

verus! {

/// What `first_moves_with_manual` gives: moves (by name, joined by `.`)
/// after which every upper row holds only pieces of side 0.
pub open spec fn first_result(puzzle: Puzzle, allowed: MoveTable, width: int, height: int, s: Seq<char>) -> bool {
    exists|c: GlobeCtx, p: Seq<usize>|
        setup_result(puzzle, allowed, width, height, c) && first_found(c, p, width, height) && s == join_seq(
            move_names(c.table, p),
            '.',
        )
}

/// What the solver on an even number of rows gives: the moves of the
/// first phase, a `.`, and those of the second.
pub open spec fn even_result(puzzle: Puzzle, allowed: MoveTable, width: int, height: int, s: Seq<char>) -> bool {
    exists|f: Seq<char>, g: Seq<char>|
        first_result(puzzle, allowed, width, height, f) && greedy_result(puzzle, allowed, f, width, height, g) && s
            == dot_join(f, g)
}

/// `a`, a `.`, then `b`.
pub open spec fn dot_join(a: Seq<char>, b: Seq<char>) -> Seq<char> {
    a + seq!['.'] + b
}

pub fn dot_join_exec(a: &String, b: &String) -> (r: String)
    ensures
        r@ == dot_join(a@, b@),
{
    let mut v = chars_of(a.as_str());
    v.push('.');
    let w = chars_of(b.as_str());
    let mut i: usize = 0;
    let ghost start = v@;
    while i < w.len()
        invariant
            i <= w.len(),
            v@ == start + w@.take(i as int),
        decreases w.len() - i,
    {
        v.push(w[i]);
        assert(v@ =~= start + w@.take(i + 1));
        i = i + 1;
    }
    assert(w@.take(w.len() as int) =~= w@);
    assert(v@ =~= dot_join(a@, b@));
    string_of(&v)
}

/// The globe solver on an even number of rows: the moves of the first
/// phase, a `.`, and those of the second phase from where the first ended.
/// `None` when either phase fails.
pub fn solve_globe_impl_even(
    puzzle: &Puzzle,
    allowed_move: &MoveTable,
    current_best: &String,
    width: usize,
    height: usize,
    id: usize,
) -> (r: Option<String>)
    requires
        allowed_move.wf(),
    ensures
        r matches Some(s) ==> even_result(*puzzle, *allowed_move, width as int, height as int, s@),
{
    match first_moves_with_manual(puzzle, allowed_move, current_best, width, height, id) {
        Some(first_move) => {
            match resolve_inversion_greedy(puzzle, allowed_move, &first_move, width, height) {
                Some(second_move) => {
                    let s = dot_join_exec(&first_move, &second_move);
                    assert(first_result(*puzzle, *allowed_move, width as int, height as int, first_move@));
                    assert(even_result(*puzzle, *allowed_move, width as int, height as int, s@));
                    Some(s)
                },
                None => None,
            }
        },
        None => None,
    }
}

} // verus!
