//! Reading the answer of the outside cube solver from what it prints: the
//! moves after `Solution:` on its last line, or on the last line that
//! mentions a solution, without the log stamp that may follow them.
use vstd::prelude::*;
use crate::text::{chars_of, split_chars, split_seq, string_of, views};

verus! {

/// The first place at or after `i` where `pat` occurs in `s`.
pub open spec fn find_from(s: Seq<char>, pat: Seq<char>, i: int) -> Option<int>
    decreases s.len() + 1 - i,
{
    if i < 0 || i + pat.len() > s.len() {
        None
    } else if s.subrange(i, i + pat.len()) == pat {
        Some(i)
    } else {
        find_from(s, pat, i + 1)
    }
}

proof fn lemma_find_from_ge(s: Seq<char>, pat: Seq<char>, i: int)
    ensures
        find_from(s, pat, i) matches Some(j) ==> j >= i,
    decreases s.len() + 1 - i,
{
    if !(i < 0 || i + pat.len() > s.len()) && s.subrange(i, i + pat.len()) != pat {
        lemma_find_from_ge(s, pat, i + 1);
    }
}

/// The text before the first `pat` (all of `s` when there is none), as
/// the first part of `str::split`.
pub open spec fn before_pat(s: Seq<char>, pat: Seq<char>) -> Seq<char> {
    match find_from(s, pat, 0) {
        Some(i) => s.take(i),
        None => s,
    }
}

/// The second part of `s` split at `pat` (empty when there is none), as
/// `str::split(pat).nth(1)` with nothing in its place.
pub open spec fn second_part(s: Seq<char>, pat: Seq<char>) -> Seq<char> {
    match find_from(s, pat, 0) {
        Some(i) => before_pat(s.skip(i + pat.len()), pat),
        None => Seq::empty(),
    }
}

/// `s` starts with `pat`.
pub open spec fn starts_with(s: Seq<char>, pat: Seq<char>) -> bool {
    s.len() >= pat.len() && s.take(pat.len() as int) == pat
}

/// `Solution:`
pub open spec fn solution_tag() -> Seq<char> {
    seq!['S', 'o', 'l', 'u', 't', 'i', 'o', 'n', ':']
}

/// `Solution: `
pub open spec fn solution_tag_sp() -> Seq<char> {
    seq!['S', 'o', 'l', 'u', 't', 'i', 'o', 'n', ':', ' ']
}

/// `: `
pub open spec fn colon_sp() -> Seq<char> {
    seq![':', ' ']
}

/// `2023-`, the start of a log stamp.
pub open spec fn stamp_tag() -> Seq<char> {
    seq!['2', '0', '2', '3', '-']
}

/// The answer read from the last `k` lines, the latest first: the moves
/// of the last of them that mentions a solution, before any log stamp.
pub open spec fn answer_in(lines: Seq<Seq<char>>, k: int) -> Seq<char>
    decreases k,
{
    if k <= 0 || k > lines.len() {
        Seq::empty()
    } else if find_from(lines[k - 1], solution_tag(), 0) is Some {
        before_pat(second_part(lines[k - 1], solution_tag_sp()), stamp_tag())
    } else {
        answer_in(lines, k - 1)
    }
}

/// The answer that `solver_answer` reads from `out`.
pub open spec fn answer_spec(out: Seq<char>) -> Seq<char> {
    let lines = split_seq(out, '\n');
    let last = lines[lines.len() - 1];
    if starts_with(last, solution_tag()) {
        second_part(last, colon_sp())
    } else {
        answer_in(lines, lines.len() as int)
    }
}

fn find_pat(s: &Vec<char>, pat: &Vec<char>, from: usize) -> (r: Option<usize>)
    requires
        from <= s.len(),
    ensures
        match r {
            Some(i) => find_from(s@, pat@, from as int) == Some(i as int) && i + pat.len() <= s.len(),
            None => find_from(s@, pat@, from as int) is None,
        },
{
    if pat.len() > s.len() {
        return None;
    }
    let mut i = from;
    while i <= s.len() - pat.len()
        invariant
            from <= i <= s.len(),
            pat.len() <= s.len(),
            find_from(s@, pat@, from as int) == find_from(s@, pat@, i as int),
        decreases s.len() - i,
    {
        let mut j: usize = 0;
        while j < pat.len() && s[i + j] == pat[j]
            invariant
                j <= pat.len(),
                i + pat.len() <= s.len(),
                forall|t: int| 0 <= t < j ==> s@[i + t] == pat@[t],
            decreases pat.len() - j,
        {
            j = j + 1;
        }
        if j == pat.len() {
            assert(s@.subrange(i as int, i + pat.len()) =~= pat@);
            return Some(i);
        }
        assert(s@.subrange(i as int, i + pat.len()) != pat@) by {
            assert(s@.subrange(i as int, i + pat.len())[j as int] == s@[i + j]);
        }
        i = i + 1;
    }
    None
}

fn take_chars(s: &Vec<char>, from: usize, to: usize) -> (r: Vec<char>)
    requires
        from <= to <= s.len(),
    ensures
        r@ == s@.subrange(from as int, to as int),
{
    let mut r: Vec<char> = Vec::new();
    let mut i = from;
    while i < to
        invariant
            from <= i <= to <= s.len(),
            r@ == s@.subrange(from as int, i as int),
        decreases to - i,
    {
        r.push(s[i]);
        assert(r@ =~= s@.subrange(from as int, i + 1));
        i = i + 1;
    }
    r
}

fn before_chars(s: &Vec<char>, pat: &Vec<char>) -> (r: Vec<char>)
    ensures
        r@ == before_pat(s@, pat@),
{
    match find_pat(s, pat, 0) {
        Some(i) => {
            let r = take_chars(s, 0, i);
            assert(r@ =~= s@.take(i as int));
            r
        },
        None => take_chars(s, 0, s.len()),
    }
}

fn second_chars(s: &Vec<char>, pat: &Vec<char>) -> (r: Vec<char>)
    ensures
        r@ == second_part(s@, pat@),
{
    match find_pat(s, pat, 0) {
        Some(i) => {
            let rest = take_chars(s, i + pat.len(), s.len());
            assert(rest@ =~= s@.skip(i + pat.len()));
            before_chars(&rest, pat)
        },
        None => Vec::new(),
    }
}

fn tag(cs: &[char]) -> (r: Vec<char>)
    ensures
        r@ == cs@,
{
    let mut r: Vec<char> = Vec::new();
    let mut i: usize = 0;
    while i < cs.len()
        invariant
            i <= cs.len(),
            r@ == cs@.take(i as int),
        decreases cs.len() - i,
    {
        r.push(cs[i]);
        assert(r@ =~= cs@.take(i + 1));
        i = i + 1;
    }
    assert(r@ =~= cs@);
    r
}

/// The solution line that the outside solver prints (`answer_spec`): the
/// part after `: ` of its last line when that starts with `Solution:`, else
/// the part after `Solution: ` of the last line that holds `Solution:`, up
/// to any log stamp that follows it; empty when there is none.
pub fn solver_answer(output: &str) -> (r: String)
    ensures
        r@ == answer_spec(output@),
{
    let text = chars_of(output);
    let lines = split_chars(&text, '\n');
    proof {
        crate::text::lemma_split_nonempty(text@, '\n');
    }
    let ghost ls = views(lines@);
    assert(ls.len() == lines.len());
    let sol_tag = tag(&['S', 'o', 'l', 'u', 't', 'i', 'o', 'n', ':']);
    assert(sol_tag@ =~= solution_tag());
    let last = &lines[lines.len() - 1];
    assert(ls[lines.len() - 1] == last@);
    let starts = last.len() >= sol_tag.len() && match find_pat(last, &sol_tag, 0) {
        Some(i) => i == 0,
        None => false,
    };
    proof {
        if last.len() >= sol_tag.len() {
            let tk = last@.take(sol_tag.len() as int);
            if tk == sol_tag@ {
                assert(last@.subrange(0, sol_tag.len() as int) =~= tk);
            }
            if find_from(last@, sol_tag@, 0) == Some(0int) {
                assert(last@.subrange(0, sol_tag.len() as int) =~= tk);
                if last@.subrange(0, sol_tag.len() as int) != sol_tag@ {
                    lemma_find_from_ge(last@, sol_tag@, 1);
                }
            }
        }
    }
    assert(ls == split_seq(output@, '\n'));
    assert(starts == starts_with(last@, solution_tag()));
    if starts {
        let sep = tag(&[':', ' ']);
        assert(sep@ =~= colon_sp());
        return string_of(&second_chars(last, &sep));
    }
    let sol_sp = tag(&['S', 'o', 'l', 'u', 't', 'i', 'o', 'n', ':', ' ']);
    assert(sol_sp@ =~= solution_tag_sp());
    let stamp = tag(&['2', '0', '2', '3', '-']);
    assert(stamp@ =~= stamp_tag());
    let mut k = lines.len();
    while k > 0
        invariant
            k <= lines.len(),
            ls == views(lines@),
            ls.len() == lines.len(),
            sol_tag@ == solution_tag(),
            sol_sp@ == solution_tag_sp(),
            stamp@ == stamp_tag(),
            answer_in(ls, k as int) == answer_in(ls, ls.len() as int),
            ls == split_seq(output@, '\n'),
            !starts_with(ls[ls.len() - 1], solution_tag()),
            ls.len() >= 1,
        decreases k,
    {
        let line = &lines[k - 1];
        assert(ls[k - 1] == line@);
        if find_pat(line, &sol_tag, 0).is_some() {
            assert(answer_in(ls, k as int) == before_pat(second_part(ls[k - 1], solution_tag_sp()), stamp_tag()));
            let part = second_chars(line, &sol_sp);
            return string_of(&before_chars(&part, &stamp));
        }
        k = k - 1;
    }
    String::new()
}

} // verus!
